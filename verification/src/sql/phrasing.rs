//! Statements as tokens, clause by clause, and that they are read back.
use vstd::prelude::*;

use crate::engine::value::text_of_utf8;
use crate::sql::ast::{
    AssignmentView, CreateTableStmtView, DeleteStmtView, DropTableStmtView, ExprView,
    InsertStmtView, JoinClauseView, JoinConstraintView, JoinType, OrderByItemView, OrderDirection,
    RootNodeView, SelectItemKindView, SelectItemView, SelectStmtView, StatementView, TableNameView,
    TableRefView, TransactionKind, TransactionStmt, UpdateStmtView,
};
use crate::sql::grammar::{
    alias_at, binary_at, clause_word, in_brackets, keyword_at, list_of, oper_at, p_alias,
    p_assignment, p_clause, p_column_def, p_column_rules, p_columns, p_constraint, p_create,
    p_delete, p_drop, p_from, p_ident, p_insert, p_join, p_join_type, p_joins, p_order,
    p_order_item, p_root, p_row, p_select, p_select_item, p_semicolons, p_statement, p_statements,
    p_table_name, p_table_primary, p_transaction, p_type_name, p_update, Parsed,
};
use crate::sql::lexer::TokenView;
use crate::sql::schema::ColumnDefView;
use crate::sql::text::{lower_char, same_name};
use crate::sql::writing::{
    args_from, args_read, cased, constant, ends, ends_before_mark, expr_words, expression_read_back,
    first_token, is_keyword, is_word, keyword, oper, oper_is, opers, stands, stands_add, stands_one, word,
    word_is, writable, written,
};

verus! {

broadcast use text_of_utf8;

// -- What follows a clause -------------------------------------

/// Whether a statement ends at a place.
pub open spec fn at_end(t: Seq<TokenView>, b: int) -> bool {
    b == t.len() || (0 <= b < t.len() && t[b] == oper(";"@))
}

/// Whether a word stands at a place, in small letters or in capitals.
pub open spec fn comes(t: Seq<TokenView>, b: int, k: Seq<char>) -> bool {
    0 <= b < t.len() && (t[b] == keyword(k, false) || t[b] == keyword(k, true))
}

/// Whether a word starts one of the last clauses of a statement; the greater `n`, the more
/// of them.
spec fn tail_word(k: Seq<char>, n: nat) -> bool {
    ||| n >= 1 && k == "limit"@
    ||| n >= 2 && k == "order"@
    ||| n >= 3 && k == "where"@
    ||| n >= 4 && (k == "join"@ || k == "inner"@ || k == "left"@ || k == "right"@ || k == "full"@
        || k == "cross"@)
    ||| n >= 5 && (k == "on"@ || k == "using"@)
    ||| n >= 6 && k == "from"@
}

/// Whether a statement ends at a place, or goes on there with one of its last clauses.
#[verifier::opaque]
spec fn tail(t: Seq<TokenView>, b: int, n: nat) -> bool {
    at_end(t, b) || exists|k: Seq<char>| #[trigger] tail_word(k, n) && comes(t, b, k)
}

proof fn tail_with(t: Seq<TokenView>, b: int, n: nat, k: Seq<char>)
    requires
        at_end(t, b) || (tail_word(k, n) && comes(t, b, k)),
    ensures
        tail(t, b, n),
{
    reveal(tail);
}

proof fn tail_more(t: Seq<TokenView>, b: int, m: nat, n: nat)
    requires
        tail(t, b, m),
        m <= n,
    ensures
        tail(t, b, n),
{
    reveal(tail);
    if !at_end(t, b) {
        let k = choose|k: Seq<char>| #[trigger] tail_word(k, m) && comes(t, b, k);
        assert(tail_word(k, n));
    }
}

/// The words of clauses are what they look like.
proof fn clause_words()
    ensures
        is_word("limit"@) && "limit"@.len() == 5 && "limit"@[0] == 'l',
        is_word("order"@) && "order"@.len() == 5 && "order"@[0] == 'o',
        is_word("where"@) && "where"@.len() == 5 && "where"@[0] == 'w',
        is_word("join"@) && "join"@.len() == 4 && "join"@[0] == 'j',
        is_word("inner"@) && "inner"@.len() == 5 && "inner"@[0] == 'i',
        is_word("left"@) && "left"@.len() == 4 && "left"@[0] == 'l',
        is_word("right"@) && "right"@.len() == 5 && "right"@[0] == 'r',
        is_word("full"@) && "full"@.len() == 4 && "full"@[0] == 'f' && "full"@[1] == 'u',
        is_word("cross"@) && "cross"@.len() == 5 && "cross"@[0] == 'c',
        is_word("on"@) && "on"@.len() == 2 && "on"@[1] == 'n',
        is_word("using"@) && "using"@.len() == 5 && "using"@[0] == 'u',
        is_word("from"@) && "from"@.len() == 4 && "from"@[0] == 'f' && "from"@[1] == 'r',
        is_word("as"@) && "as"@.len() == 2 && "as"@[1] == 's',
        is_word("and"@) && "and"@.len() == 3 && "and"@[0] == 'a' && "and"@[1] == 'n',
        is_word("or"@) && "or"@.len() == 2 && "or"@[1] == 'r',
        is_word("asc"@) && "asc"@.len() == 3 && "asc"@[0] == 'a' && "asc"@[1] == 's',
        is_word("desc"@) && "desc"@.len() == 4 && "desc"@[0] == 'd',
        is_word("outer"@) && "outer"@.len() == 5 && "outer"@[0] == 'o' && "outer"@[1] == 'u',
        "order"@[1] == 'r',
{
    reveal_strlit("limit");
    reveal_strlit("order");
    reveal_strlit("where");
    reveal_strlit("join");
    reveal_strlit("inner");
    reveal_strlit("left");
    reveal_strlit("right");
    reveal_strlit("full");
    reveal_strlit("cross");
    reveal_strlit("on");
    reveal_strlit("using");
    reveal_strlit("from");
    reveal_strlit("as");
    reveal_strlit("and");
    reveal_strlit("or");
    reveal_strlit("asc");
    reveal_strlit("desc");
    reveal_strlit("outer");
}

/// An expression ends before a word that is no operator.
proof fn ends_before_word(t: Seq<TokenView>, b: int, k: Seq<char>)
    requires
        comes(t, b, k),
        is_word(k),
        k != "and"@,
        k != "or"@,
    ensures
        ends(t, b),
        forall|o: Seq<char>| !(#[trigger] oper_at(t, b, o)),
        forall|w: Seq<char>| is_word(w) ==> (#[trigger] keyword_at(t, b, w) <==> k == w),
{
    expr_words();
    word_is(t, b, k);
    assert forall|l: nat| #[trigger] binary_at(t, b, l) is None by {}
}

/// What stands where a statement ends.
proof fn end_facts(t: Seq<TokenView>, b: int)
    requires
        at_end(t, b),
    ensures
        ends(t, b),
        forall|o: Seq<char>| #[trigger] oper_at(t, b, o) ==> o == ";"@,
        forall|w: Seq<char>| !(#[trigger] keyword_at(t, b, w)),
        !alias_at(t, b),
        !oper_at(t, b, ","@),
{
    opers();
    if b < t.len() {
        ends_before_mark(t, b, ";"@);
        oper_is(t, b, ";"@);
    } else {
        assert forall|l: nat| #[trigger] binary_at(t, b, l) is None by {}
    }
}

/// A word in capitals is the same name.
proof fn cased_names(k: Seq<char>, other: bool)
    requires
        is_word(k),
    ensures
        same_name(cased(k, other), k),
{
    reveal(cased);
    let w = cased(k, other);
    assert forall|i: int| 0 <= i < w.len() implies lower_char(#[trigger] w[i]) == lower_char(
        k[i],
    ) by {
        assert('a' <= k[i] <= 'z');
    }
}

/// Names are the same whatever the case of their letters, and different names are not.
pub proof fn names_whatever_case(a: Seq<char>, x: bool, b: Seq<char>, y: bool)
    requires
        is_word(a),
        is_word(b),
    ensures
        same_name(cased(a, x), cased(b, y)) <==> a == b,
{
    reveal(cased);
    let u = cased(a, x);
    let v = cased(b, y);
    assert forall|i: int| 0 <= i < a.len() implies lower_char(#[trigger] u[i]) == a[i] by {
        assert('a' <= a[i] <= 'z');
    }
    assert forall|i: int| 0 <= i < b.len() implies lower_char(#[trigger] v[i]) == b[i] by {
        assert('a' <= b[i] <= 'z');
    }
    if same_name(u, v) {
        assert forall|i: int| 0 <= i < a.len() implies a[i] == b[i] by {
            assert(lower_char(u[i]) == lower_char(v[i]));
        }
        assert(a =~= b);
    }
    if a == b {
        assert forall|i: int| 0 <= i < u.len() implies lower_char(#[trigger] u[i]) == lower_char(
            v[i],
        ) by {
            assert(lower_char(v[i]) == b[i]);
        }
    }
}

/// What stands before the last clauses.
proof fn tail_facts(t: Seq<TokenView>, b: int, n: nat)
    requires
        tail(t, b, n),
    ensures
        ends(t, b),
        !oper_at(t, b, ","@),
        !oper_at(t, b, "."@),
        !oper_at(t, b, "("@),
        !keyword_at(t, b, "as"@),
        !keyword_at(t, b, "asc"@),
        !keyword_at(t, b, "desc"@),
        !alias_at(t, b),
        n < 1 ==> !keyword_at(t, b, "limit"@),
        n < 2 ==> !keyword_at(t, b, "order"@),
        n < 3 ==> !keyword_at(t, b, "where"@),
        n < 4 ==> !keyword_at(t, b, "join"@) && !keyword_at(t, b, "inner"@) && !keyword_at(
            t,
            b,
            "left"@,
        ) && !keyword_at(t, b, "right"@) && !keyword_at(t, b, "full"@) && !keyword_at(
            t,
            b,
            "cross"@,
        ),
        n < 5 ==> !keyword_at(t, b, "on"@) && !keyword_at(t, b, "using"@),
        n < 6 ==> !keyword_at(t, b, "from"@),
{
    clause_words();
    opers();
    reveal(tail);
    if at_end(t, b) {
        end_facts(t, b);
    } else {
        let k = choose|k: Seq<char>| #[trigger] tail_word(k, n) && comes(t, b, k);
        ends_before_word(t, b, k);
        cased_names(k, t[b] != keyword(k, false));
        assert(clause_word(cased(k, t[b] != keyword(k, false))));
        assert(!alias_at(t, b));
    }
}

// -- Lists -----------------------------------------------------

/// A list from place `k` on, with commas between its items.
pub open spec fn listed_from<T>(
    v: Seq<T>,
    w: spec_fn(T) -> Seq<TokenView>,
    k: int,
) -> Seq<TokenView>
    decreases v.len() - k,
{
    if !(0 <= k < v.len()) {
        seq![]
    } else if k + 1 == v.len() {
        w(v[k])
    } else {
        w(v[k]) + (seq![oper(","@)] + listed_from(v, w, k + 1))
    }
}

/// A list.
pub open spec fn listed<T>(v: Seq<T>, w: spec_fn(T) -> Seq<TokenView>) -> Seq<TokenView> {
    listed_from(v, w, 0)
}

/// Whether an item that is written at a place is read there, where what `g` says follows.
spec fn item_read<T>(
    x: T,
    w: spec_fn(T) -> Seq<TokenView>,
    f: spec_fn(int) -> Parsed<T>,
    g: spec_fn(int) -> bool,
    t: Seq<TokenView>,
    a: int,
) -> bool {
    stands(t, a, w(x)) && g((a + w(x).len()) as int) ==> f(a) == Ok::<(T, int), (int, Seq<char>)>(
        (x, (a + w(x).len()) as int),
    )
}

/// A list is read where its items are.
proof fn list_read<T>(
    v: Seq<T>,
    w: spec_fn(T) -> Seq<TokenView>,
    f: spec_fn(int) -> Parsed<T>,
    g: spec_fn(int) -> bool,
    t: Seq<TokenView>,
    i: int,
    k: int,
)
    requires
        0 <= k < v.len(),
        stands(t, i, listed_from(v, w, k)),
        forall|x: int, a: int|
            0 <= x < v.len() ==> #[trigger] item_read(v[x], w, f, g, t, a),
        forall|x: int| 0 <= x < v.len() ==> w(#[trigger] v[x]).len() > 0,
        forall|b: int| 0 <= b < t.len() && #[trigger] t[b] == oper(","@) ==> g(b),
        g((i + listed_from(v, w, k).len()) as int),
        !oper_at(t, (i + listed_from(v, w, k).len()) as int, ","@),
    ensures
        list_of(f, t, i) == Ok::<(Seq<T>, int), (int, Seq<char>)>(
            (v.skip(k), (i + listed_from(v, w, k).len()) as int),
        ),
    decreases v.len() - k,
{
    let a = w(v[k]);
    let m = i + a.len();
    assert(item_read(v[k], w, f, g, t, i));
    if k + 1 == v.len() {
        assert(v.skip(k) =~= seq![v[k]]);
    } else {
        let c = seq![oper(","@)];
        let b = listed_from(v, w, k + 1);
        stands_add(t, i, a, c + b);
        stands_add(t, m, c, b);
        stands_one(t, m, oper(","@));
        assert(oper_at(t, m, ","@));
        assert(i + listed_from(v, w, k).len() == m + 1 + b.len());
        list_read(v, w, f, g, t, m + 1, k + 1);
        assert(v.skip(k) =~= seq![v[k]] + v.skip(k + 1));
    }
}

// -- Names -----------------------------------------------------

/// The name of a table.
pub open spec fn name_tokens(n: TableNameView) -> Seq<TokenView> {
    match n.schema {
        Some(schema) => seq![word(schema), oper("."@), word(n.name)],
        None => seq![word(n.name)],
    }
}

proof fn name_read(n: TableNameView, t: Seq<TokenView>, i: int)
    requires
        stands(t, i, name_tokens(n)),
        !oper_at(t, i + name_tokens(n).len(), "."@),
    ensures
        p_table_name(t, i) == Ok::<(TableNameView, int), (int, Seq<char>)>(
            (n, i + name_tokens(n).len()),
        ),
{
    let w = name_tokens(n);
    assert(t[i + 0] == w[0]);
    match n.schema {
        Some(schema) => {
            assert(t[i + 1] == w[1]);
            assert(t[i + 2] == w[2]);
            assert(oper_at(t, i + 1, "."@));
        },
        None => {},
    }
}

/// Names.
pub open spec fn name_list(v: Seq<Seq<char>>) -> Seq<TokenView> {
    listed(v, |n: Seq<char>| seq![word(n)])
}

/// Names in brackets, the first of which is at place `i - 1`.
proof fn names_read(v: Seq<Seq<char>>, t: Seq<TokenView>, i: int)
    requires
        stands(t, i, name_list(v) + seq![oper(")"@)]),
    ensures
        in_brackets(|n: int| p_ident(t, n), t, i) == Ok::<
            (Seq<Seq<char>>, int),
            (int, Seq<char>),
        >((v, i + name_list(v).len() + 1)),
{
    let w = |n: Seq<char>| seq![word(n)];
    let f = |n: int| p_ident(t, n);
    let g = |b: int| true;
    let j = i + name_list(v).len();
    stands_add(t, i, name_list(v), seq![oper(")"@)]);
    stands_one(t, j, oper(")"@));
    opers();
    oper_is(t, j, ")"@);
    if v.len() == 0 {
        assert(v =~= seq![]);
    } else {
        assert forall|x: int, a: int| 0 <= x < v.len() implies #[trigger] item_read(
            v[x],
            w,
            f,
            g,
            t,
            a,
        ) by {
            if stands(t, a, w(v[x])) {
                stands_one(t, a, word(v[x]));
            }
        }
        list_read(v, w, f, g, t, i, 0);
        assert(v.skip(0) =~= v);
        assert(name_list(v)[0] == w(v[0])[0]);
        assert(t[i + 0] == word(v[0]));
    }
}

// -- Clauses ---------------------------------------------------

/// An expression behind a keyword, where there is one.
pub open spec fn clause(k: Seq<char>, e: Option<ExprView>, other: bool) -> Seq<TokenView> {
    match e {
        Some(e) => seq![keyword(k, other)] + written(e, 6, other),
        None => seq![],
    }
}

/// Whether an expression that may be left out can be written.
pub open spec fn clause_writable(e: Option<ExprView>) -> bool {
    e matches Some(e) ==> writable(e)
}

proof fn clause_read(
    k: Seq<char>,
    e: Option<ExprView>,
    other: bool,
    t: Seq<TokenView>,
    i: int,
    n: nat,
)
    requires
        clause_writable(e),
        is_word(k),
        stands(t, i, clause(k, e, other)),
        tail(t, i + clause(k, e, other).len(), n),
        e is None ==> !keyword_at(t, i, k),
    ensures
        p_clause(t, i, k) == Ok::<(Option<ExprView>, int), (int, Seq<char>)>(
            (e, i + clause(k, e, other).len()),
        ),
        e is Some ==> comes(t, i, k),
{
    match e {
        Some(x) => {
            stands_add(t, i, seq![keyword(k, other)], written(x, 6, other));
            stands_one(t, i, keyword(k, other));
            word_is(t, i, k);
            tail_facts(t, i + clause(k, e, other).len(), n);
            expression_read_back(x, other, t, i + 1);
        },
        None => {},
    }
}

/// What rows are ordered by.
pub open spec fn order_item(o: OrderByItemView, other: bool) -> Seq<TokenView> {
    written(o.expr, 6, other) + (match o.direction {
        OrderDirection::Desc => seq![keyword("desc"@, other)],
        OrderDirection::Asc => if other {
            seq![keyword("asc"@, other)]
        } else {
            seq![]
        },
    })
}

proof fn order_item_read(o: OrderByItemView, other: bool, t: Seq<TokenView>, i: int)
    requires
        writable(o.expr),
        stands(t, i, order_item(o, other)),
        ends(t, i + order_item(o, other).len()),
        !keyword_at(t, i + order_item(o, other).len(), "asc"@),
        !keyword_at(t, i + order_item(o, other).len(), "desc"@),
    ensures
        p_order_item(t, i) == Ok::<(OrderByItemView, int), (int, Seq<char>)>(
            (o, i + order_item(o, other).len()),
        ),
{
    let a = written(o.expr, 6, other);
    let d = match o.direction {
        OrderDirection::Desc => seq![keyword("desc"@, other)],
        OrderDirection::Asc => if other {
            seq![keyword("asc"@, other)]
        } else {
            seq![]
        },
    };
    let m = i + a.len();
    stands_add(t, i, a, d);
    clause_words();
    match o.direction {
        OrderDirection::Desc => {
            stands_one(t, m, keyword("desc"@, other));
            ends_before_word(t, m, "desc"@);
        },
        OrderDirection::Asc => if other {
            stands_one(t, m, keyword("asc"@, other));
            ends_before_word(t, m, "asc"@);
        },
    }
    expression_read_back(o.expr, other, t, i);
}

/// What the rows of a query are ordered by, where it is said.
pub open spec fn order_part(v: Seq<OrderByItemView>, other: bool) -> Seq<TokenView> {
    if v.len() == 0 {
        seq![]
    } else {
        seq![keyword("order"@, other), keyword("by"@, other)] + listed(v, |o: OrderByItemView| order_item(o, other))
    }
}

#[verifier::spinoff_prover]
#[verifier::rlimit(40)]
proof fn order_read(v: Seq<OrderByItemView>, other: bool, t: Seq<TokenView>, i: int)
    requires
        forall|x: int| 0 <= x < v.len() ==> writable((#[trigger] v[x]).expr),
        stands(t, i, order_part(v, other)),
        tail(t, i + order_part(v, other).len(), 1),
    ensures
        p_order(t, i) == Ok::<(Seq<OrderByItemView>, int), (int, Seq<char>)>(
            (v, i + order_part(v, other).len()),
        ),
        tail(t, i, 2),
{
    let j = i + order_part(v, other).len();
    clause_words();
    tail_facts(t, j, 1);
    if v.len() == 0 {
        tail_more(t, i, 1, 2);
        assert(v =~= seq![]);
    } else {
        let w = |o: OrderByItemView| order_item(o, other);
        let f = |n: int| p_order_item(t, n);
        let g = |b: int|
            ends(t, b) && !keyword_at(t, b, "asc"@) && !keyword_at(t, b, "desc"@);
        let o = seq![keyword("order"@, other), keyword("by"@, other)];
        stands_add(t, i, o, listed(v, w));
        assert(t[i + 0] == o[0]);
        assert(t[i + 1] == o[1]);
        word_is(t, i, "order"@);
        tail_with(t, i, 2, "order"@);
        reveal_strlit("by");
        word_is(t, i + 1, "by"@);
        assert forall|x: int, a: int| 0 <= x < v.len() implies #[trigger] item_read(
            v[x],
            w,
            f,
            g,
            t,
            a,
        ) by {
            if stands(t, a, w(v[x])) && g((a + w(v[x]).len()) as int) {
                order_item_read(v[x], other, t, a);
            }
        }
        assert forall|x: int| 0 <= x < v.len() implies w(#[trigger] v[x]).len() > 0 by {
            first_token(v[x].expr, 6, other);
        }
        assert forall|b: int| 0 <= b < t.len() && #[trigger] t[b] == oper(","@) implies g(b) by {
            ends_before_mark(t, b, ","@);
        }
        list_read(v, w, f, g, t, i + 2, 0);
        assert(v.skip(0) =~= v);
    }
}

// -- Tables of a query -----------------------------------------

/// An alias, where there is one.
pub open spec fn alias_tokens(a: Option<Seq<char>>, other: bool) -> Seq<TokenView> {
    match a {
        Some(a) => seq![keyword("as"@, other), word(a)],
        None => seq![],
    }
}

proof fn alias_read(a: Option<Seq<char>>, other: bool, t: Seq<TokenView>, i: int)
    requires
        stands(t, i, alias_tokens(a, other)),
        a is None ==> !keyword_at(t, i, "as"@) && !alias_at(t, i),
    ensures
        p_alias(t, i) == Ok::<(Option<Seq<char>>, int), (int, Seq<char>)>(
            (a, i + alias_tokens(a, other).len()),
        ),
{
    clause_words();
    match a {
        Some(x) => {
            let w = alias_tokens(a, other);
            assert(t[i + 0] == w[0]);
            assert(t[i + 1] == w[1]);
            word_is(t, i, "as"@);
        },
        None => {},
    }
}

/// An alias needs no keyword before it, unless it is a word that starts or is part of a
/// clause.
pub proof fn alias_without_keyword(a: Seq<char>, t: Seq<TokenView>, i: int)
    requires
        0 <= i < t.len(),
        t[i] == word(a),
        !is_keyword(a, "as"@),
        !clause_word(a),
    ensures
        p_alias(t, i) == Ok::<(Option<Seq<char>>, int), (int, Seq<char>)>((Some(a), i + 1)),
{
}

/// A table of a query, without those joined to it.
pub open spec fn primary_tokens(r: TableRefView, other: bool) -> Seq<TokenView> {
    name_tokens(r.name) + alias_tokens(r.alias, other)
}

proof fn primary_read(r: TableRefView, other: bool, t: Seq<TokenView>, i: int)
    requires
        stands(t, i, primary_tokens(r, other)),
        tail(t, i + primary_tokens(r, other).len(), 5),
    ensures
        p_table_primary(t, i) == Ok::<(TableRefView, int), (int, Seq<char>)>(
            (TableRefView { joins: seq![], ..r }, i + primary_tokens(r, other).len()),
        ),
{
    let m = i + name_tokens(r.name).len();
    let j = i + primary_tokens(r, other).len();
    stands_add(t, i, name_tokens(r.name), alias_tokens(r.alias, other));
    tail_facts(t, j, 5);
    clause_words();
    match r.alias {
        Some(x) => {
            let w = alias_tokens(r.alias, other);
            assert(t[m + 0] == w[0]);
            ends_before_word(t, m, "as"@);
        },
        None => {},
    }
    name_read(r.name, t, i);
    alias_read(r.alias, other, t, m);
}

/// What joined rows have in common.
pub open spec fn constraint_tokens(c: JoinConstraintView, other: bool) -> Seq<TokenView> {
    match c {
        JoinConstraintView::On(e) => seq![keyword("on"@, other)] + written(e, 6, other),
        JoinConstraintView::Using(v) => seq![keyword("using"@, other), oper("("@)] + (name_list(v)
            + seq![oper(")"@)]),
        JoinConstraintView::Unconstrained => seq![],
    }
}

pub open spec fn constraint_writable(c: JoinConstraintView) -> bool {
    c matches JoinConstraintView::On(e) ==> writable(e)
}

proof fn constraint_read(c: JoinConstraintView, other: bool, t: Seq<TokenView>, i: int)
    requires
        constraint_writable(c),
        stands(t, i, constraint_tokens(c, other)),
        tail(t, i + constraint_tokens(c, other).len(), 4),
    ensures
        p_constraint(t, i) == Ok::<(JoinConstraintView, int), (int, Seq<char>)>(
            (c, i + constraint_tokens(c, other).len()),
        ),
        tail(t, i, 5),
{
    clause_words();
    let j = i + constraint_tokens(c, other).len();
    tail_facts(t, j, 4);
    match c {
        JoinConstraintView::On(e) => {
            stands_add(t, i, seq![keyword("on"@, other)], written(e, 6, other));
            stands_one(t, i, keyword("on"@, other));
            word_is(t, i, "on"@);
            tail_with(t, i, 5, "on"@);
            expression_read_back(e, other, t, i + 1);
        },
        JoinConstraintView::Using(v) => {
            let o = seq![keyword("using"@, other), oper("("@)];
            stands_add(t, i, o, name_list(v) + seq![oper(")"@)]);
            assert(t[i + 0] == o[0]);
            assert(t[i + 1] == o[1]);
            word_is(t, i, "using"@);
            tail_with(t, i, 5, "using"@);
            assert(oper_at(t, i + 1, "("@));
            names_read(v, t, i + 2);
        },
        JoinConstraintView::Unconstrained => {
            tail_more(t, i, 4, 5);
        },
    }
}

/// How a table is joined; `other` asks for the words that may be left out.
pub open spec fn join_words(j: JoinType, other: bool) -> Seq<TokenView> {
    match j {
        JoinType::Inner => if other {
            seq![keyword("inner"@, other), keyword("join"@, other)]
        } else {
            seq![keyword("join"@, other)]
        },
        JoinType::Cross => seq![keyword("cross"@, other), keyword("join"@, other)],
        _ => {
            let k = match j {
                JoinType::Left => "left"@,
                JoinType::Right => "right"@,
                _ => "full"@,
            };
            if other {
                seq![keyword(k, other), keyword("outer"@, other), keyword("join"@, other)]
            } else {
                seq![keyword(k, other), keyword("join"@, other)]
            }
        },
    }
}

proof fn join_words_read(j: JoinType, other: bool, t: Seq<TokenView>, i: int)
    requires
        stands(t, i, join_words(j, other)),
    ensures
        p_join_type(t, i) == Ok::<(Option<JoinType>, int), (int, Seq<char>)>(
            (Some(j), i + join_words(j, other).len()),
        ),
        tail(t, i, 4),
        join_words(j, other).len() > 0,
{
    clause_words();
    let w = join_words(j, other);
    assert(t[i + 0] == w[0]);
    if w.len() > 1 {
        assert(t[i + 1] == w[1]);
    }
    if w.len() > 2 {
        assert(t[i + 2] == w[2]);
        word_is(t, i + 1, "outer"@);
        word_is(t, i + 2, "join"@);
    } else if w.len() > 1 {
        word_is(t, i + 1, "join"@);
    }
    let first = match j {
        JoinType::Inner => if other {
            "inner"@
        } else {
            "join"@
        },
        JoinType::Cross => "cross"@,
        JoinType::Left => "left"@,
        JoinType::Right => "right"@,
        JoinType::Full => "full"@,
    };
    assert(comes(t, i, first));
    word_is(t, i, first);
    tail_with(t, i, 4, first);
}

/// One table that is joined.
pub open spec fn join_tokens(j: JoinClauseView, other: bool) -> Seq<TokenView> {
    join_words(j.join_type, other) + (primary_tokens(j.table, other) + constraint_tokens(
        j.constraint,
        other,
    ))
}

/// The tables that are joined, from place `k` on.
pub open spec fn joins_from(v: Seq<JoinClauseView>, k: int, other: bool) -> Seq<TokenView>
    decreases v.len() - k,
{
    if !(0 <= k < v.len()) {
        seq![]
    } else {
        join_tokens(v[k], other) + joins_from(v, k + 1, other)
    }
}

pub open spec fn join_writable(j: JoinClauseView) -> bool {
    j.table.joins.len() == 0 && constraint_writable(j.constraint)
}

#[verifier::spinoff_prover]
#[verifier::rlimit(40)]
proof fn joins_read(v: Seq<JoinClauseView>, k: int, other: bool, t: Seq<TokenView>, i: int)
    requires
        0 <= k <= v.len(),
        forall|x: int| 0 <= x < v.len() ==> join_writable(#[trigger] v[x]),
        stands(t, i, joins_from(v, k, other)),
        tail(t, i + joins_from(v, k, other).len(), 3),
    ensures
        p_joins(t, i) == Ok::<(Seq<JoinClauseView>, int), (int, Seq<char>)>(
            (v.skip(k), i + joins_from(v, k, other).len()),
        ),
        tail(t, i, 4),
    decreases v.len() - k,
{
    if k == v.len() {
        tail_facts(t, i, 3);
        tail_more(t, i, 3, 4);
        assert(v.skip(k) =~= seq![]);
    } else {
        let j = v[k];
        let rest = joins_from(v, k + 1, other);
        let a = join_words(j.join_type, other);
        let b = primary_tokens(j.table, other);
        let c = constraint_tokens(j.constraint, other);
        let m = i + join_tokens(j, other).len();
        stands_add(t, i, join_tokens(j, other), rest);
        stands_add(t, i, a, b + c);
        stands_add(t, i + a.len(), b, c);
        assert(i + joins_from(v, k, other).len() == m + rest.len());
        joins_read(v, k + 1, other, t, m);
        assert(m == i + a.len() + b.len() + c.len());
        constraint_read(j.constraint, other, t, i + a.len() + b.len());
        primary_read(j.table, other, t, i + a.len());
        join_words_read(j.join_type, other, t, i);
        assert(j.table.joins =~= seq![]);
        assert(p_join(t, i + a.len(), j.join_type) == Ok::<
            (JoinClauseView, int),
            (int, Seq<char>),
        >((j, m)));
        assert(v.skip(k) =~= seq![j] + v.skip(k + 1));
    }
}

/// The tables of a query.
pub open spec fn from_part(r: Option<TableRefView>, other: bool) -> Seq<TokenView> {
    match r {
        Some(r) => seq![keyword("from"@, other)] + (primary_tokens(r, other) + joins_from(r.joins, 0, other)),
        None => seq![],
    }
}

pub open spec fn from_writable(r: Option<TableRefView>) -> bool {
    r matches Some(r) ==> forall|x: int| 0 <= x < r.joins.len() ==> join_writable(#[trigger] r.joins[x])
}

#[verifier::spinoff_prover]
#[verifier::rlimit(40)]
proof fn from_read(r: Option<TableRefView>, other: bool, t: Seq<TokenView>, i: int)
    requires
        from_writable(r),
        stands(t, i, from_part(r, other)),
        tail(t, i + from_part(r, other).len(), 3),
    ensures
        p_from(t, i) == Ok::<(Option<TableRefView>, int), (int, Seq<char>)>(
            (r, i + from_part(r, other).len()),
        ),
        tail(t, i, 6),
{
    let j = i + from_part(r, other).len();
    clause_words();
    tail_facts(t, j, 3);
    match r {
        Some(x) => {
            let o = seq![keyword("from"@, other)];
            let a = primary_tokens(x, other);
            let b = joins_from(x.joins, 0, other);
            stands_add(t, i, o, a + b);
            stands_add(t, i + 1, a, b);
            stands_one(t, i, keyword("from"@, other));
            word_is(t, i, "from"@);
            tail_with(t, i, 6, "from"@);
            assert(j == i + 1 + a.len() + b.len());
            joins_read(x.joins, 0, other, t, i + 1 + a.len());
            tail_more(t, i + 1 + a.len(), 4, 5);
            primary_read(x, other, t, i + 1);
            assert(x.joins.skip(0) =~= x.joins);
        },
        None => {
            tail_more(t, i, 3, 6);
        },
    }
}

// -- Items -----------------------------------------------------

/// A column of a result.
pub open spec fn item_tokens(x: SelectItemView, other: bool) -> Seq<TokenView> {
    (match x.kind {
        SelectItemKindView::Wildcard => seq![oper("*"@)],
        SelectItemKindView::Expr(e) => written(e, 6, other),
    }) + alias_tokens(x.alias, other)
}

pub open spec fn item_writable(x: SelectItemView) -> bool {
    x.kind matches SelectItemKindView::Expr(e) ==> writable(e)
}

proof fn item_tokens_read(x: SelectItemView, other: bool, t: Seq<TokenView>, i: int)
    requires
        item_writable(x),
        stands(t, i, item_tokens(x, other)),
        ends(t, i + item_tokens(x, other).len()),
        !keyword_at(t, i + item_tokens(x, other).len(), "as"@),
        !alias_at(t, i + item_tokens(x, other).len()),
    ensures
        p_select_item(t, i) == Ok::<(SelectItemView, int), (int, Seq<char>)>(
            (x, i + item_tokens(x, other).len()),
        ),
{
    let a = match x.kind {
        SelectItemKindView::Wildcard => seq![oper("*"@)],
        SelectItemKindView::Expr(e) => written(e, 6, other),
    };
    let m = i + a.len();
    stands_add(t, i, a, alias_tokens(x.alias, other));
    clause_words();
    opers();
    if x.alias is Some {
        let w = alias_tokens(x.alias, other);
        assert(t[m + 0] == w[0]);
        ends_before_word(t, m, "as"@);
    }
    match x.kind {
        SelectItemKindView::Wildcard => {
            stands_one(t, i, oper("*"@));
        },
        SelectItemKindView::Expr(e) => {
            first_token(e, 6, other);
            assert(t[i + 0] == a[0]);
            expression_read_back(e, other, t, i);
        },
    }
    alias_read(x.alias, other, t, m);
}

/// What a column is set to.
pub open spec fn assignment_tokens(x: AssignmentView, other: bool) -> Seq<TokenView> {
    seq![word(x.column), oper("="@)] + written(x.value, 6, other)
}

proof fn assignment_read(x: AssignmentView, other: bool, t: Seq<TokenView>, i: int)
    requires
        writable(x.value),
        stands(t, i, assignment_tokens(x, other)),
        ends(t, i + assignment_tokens(x, other).len()),
    ensures
        p_assignment(t, i) == Ok::<(AssignmentView, int), (int, Seq<char>)>(
            (x, i + assignment_tokens(x, other).len()),
        ),
{
    let o = seq![word(x.column), oper("="@)];
    stands_add(t, i, o, written(x.value, 6, other));
    assert(t[i + 0] == o[0]);
    assert(t[i + 1] == o[1]);
    assert(oper_at(t, i + 1, "="@));
    expression_read_back(x.value, other, t, i + 2);
}

/// A row of values.
pub open spec fn row_tokens(v: Seq<ExprView>, other: bool) -> Seq<TokenView> {
    seq![oper("("@)] + (args_from(v, 0, other) + seq![oper(")"@)])
}

pub open spec fn row_writable(v: Seq<ExprView>) -> bool {
    forall|x: int| 0 <= x < v.len() ==> writable(#[trigger] v[x])
}

proof fn row_read(v: Seq<ExprView>, other: bool, t: Seq<TokenView>, i: int)
    requires
        row_writable(v),
        stands(t, i, row_tokens(v, other)),
    ensures
        p_row(t, i) == Ok::<(Seq<ExprView>, int), (int, Seq<char>)>(
            (v, i + row_tokens(v, other).len()),
        ),
{
    let a = args_from(v, 0, other);
    let m = i + 1 + a.len();
    stands_add(t, i, seq![oper("("@)], a + seq![oper(")"@)]);
    stands_add(t, i + 1, a, seq![oper(")"@)]);
    stands_one(t, i, oper("("@));
    stands_one(t, m, oper(")"@));
    opers();
    oper_is(t, m, ")"@);
    ends_before_mark(t, m, ")"@);
    assert(oper_at(t, i, "("@));
    if v.len() == 0 {
        assert(v =~= seq![]);
    } else {
        args_read(v, 0, other, t, i + 1);
        assert(v.skip(0) =~= v);
        first_token(v[0], 6, other);
        assert(a[0] == written(v[0], 6, other)[0]);
        assert(t[i + 1 + 0] == a[0]);
    }
}

/// What is said of a column behind its type.
pub open spec fn rule_tokens(nullable: bool, primary: bool, other: bool) -> Seq<TokenView> {
    if primary && nullable {
        seq![keyword("primary"@, other), keyword("key"@, other), keyword("null"@, other)]
    } else if primary {
        seq![keyword("primary"@, other), keyword("key"@, other)]
    } else if nullable {
        seq![]
    } else {
        seq![keyword("not"@, other), keyword("null"@, other)]
    }
}

/// Whether a type is a name with a constant in brackets behind it.
pub open spec fn is_bracketed(ty: Seq<char>, base: Seq<char>, arg: Seq<char>) -> bool {
    ty == base + "("@ + arg + ")"@
}

/// The type of a column.
pub open spec fn type_tokens(ty: Seq<char>) -> Seq<TokenView> {
    if exists|base: Seq<char>, arg: Seq<char>| is_bracketed(ty, base, arg) {
        let (base, arg) = choose|base: Seq<char>, arg: Seq<char>| is_bracketed(ty, base, arg);
        seq![word(base), oper("("@), constant(arg), oper(")"@)]
    } else {
        seq![word(ty)]
    }
}

/// A column of a table.
pub open spec fn column_tokens(c: ColumnDefView, other: bool) -> Seq<TokenView> {
    seq![word(c.name)] + (type_tokens(c.col_type) + rule_tokens(
        c.nullable,
        c.is_primary_key,
        other,
    ))
}

proof fn type_read(ty: Seq<char>, t: Seq<TokenView>, i: int)
    requires
        stands(t, i, type_tokens(ty)),
        !oper_at(t, i + type_tokens(ty).len(), "("@),
    ensures
        p_type_name(t, i) == Ok::<(Seq<char>, int), (int, Seq<char>)>(
            (ty, i + type_tokens(ty).len()),
        ),
        type_tokens(ty).len() > 0,
{
    let w = type_tokens(ty);
    assert(t[i + 0] == w[0]);
    if exists|base: Seq<char>, arg: Seq<char>| is_bracketed(ty, base, arg) {
        assert(t[i + 1] == w[1]);
        assert(t[i + 2] == w[2]);
        assert(t[i + 3] == w[3]);
        assert(oper_at(t, i + 1, "("@));
        assert(oper_at(t, i + 3, ")"@));
    }
}

/// What is said of a column behind its type is read.
#[verifier::spinoff_prover]
#[verifier::rlimit(40)]
proof fn rules_read(nullable: bool, primary: bool, other: bool, t: Seq<TokenView>, i: int)
    requires
        stands(t, i, rule_tokens(nullable, primary, other)),
        oper_at(t, i + rule_tokens(nullable, primary, other).len(), ","@) || oper_at(
            t,
            i + rule_tokens(nullable, primary, other).len(),
            ")"@,
        ),
    ensures
        p_column_rules(t, i, true, false) == Ok::<((bool, bool), int), (int, Seq<char>)>(
            ((nullable, primary), i + rule_tokens(nullable, primary, other).len()),
        ),
        !oper_at(t, i, "("@),
{
    let r = rule_tokens(nullable, primary, other);
    let j = i + r.len();
    opers();
    reveal_strlit("primary");
    reveal_strlit("key");
    reveal_strlit("null");
    reveal_strlit("not");
    if oper_at(t, j, ","@) {
        oper_is(t, j, ","@);
    } else {
        oper_is(t, j, ")"@);
    }
    assert(p_column_rules(t, j, nullable, primary) == Ok::<((bool, bool), int), (int, Seq<char>)>(
        ((nullable, primary), j),
    ));
    if r.len() > 0 {
        assert(t[i + 0] == r[0]);
        assert(t[i + 1] == r[1]);
    }
    if primary {
        word_is(t, i, "primary"@);
        word_is(t, i + 1, "key"@);
        if nullable {
            assert(t[i + 2] == r[2]);
            word_is(t, i + 2, "null"@);
            assert(p_column_rules(t, i + 2, false, true) == p_column_rules(t, i + 3, true, true));
        }
        assert(p_column_rules(t, i, true, false) == p_column_rules(t, i + 2, false, true));
    } else if !nullable {
        word_is(t, i, "not"@);
        word_is(t, i + 1, "null"@);
        assert(p_column_rules(t, i, true, false) == p_column_rules(t, i + 2, false, false));
    }
}

proof fn column_read(c: ColumnDefView, other: bool, t: Seq<TokenView>, i: int)
    requires
        stands(t, i, column_tokens(c, other)),
        oper_at(t, i + column_tokens(c, other).len(), ","@) || oper_at(
            t,
            i + column_tokens(c, other).len(),
            ")"@,
        ),
    ensures
        p_column_def(t, i) == Ok::<(ColumnDefView, int), (int, Seq<char>)>(
            (c, i + column_tokens(c, other).len()),
        ),
{
    let w = seq![word(c.name)];
    let y = type_tokens(c.col_type);
    let r = rule_tokens(c.nullable, c.is_primary_key, other);
    stands_add(t, i, w, y + r);
    stands_one(t, i, word(c.name));
    stands_add(t, i + 1, y, r);
    assert(i + column_tokens(c, other).len() == i + 1 + y.len() + r.len());
    rules_read(c.nullable, c.is_primary_key, other, t, i + 1 + y.len());
    type_read(c.col_type, t, i + 1);
    assert(p_ident(t, i) == Ok::<(Seq<char>, int), (int, Seq<char>)>((c.name, i + 1)));
}

// -- Statements ------------------------------------------------

/// The clauses of a query behind its columns.
pub open spec fn select_tail(s: SelectStmtView, other: bool) -> Seq<TokenView> {
    from_part(s.from, other) + (clause("where"@, s.where_clause, other) + (order_part(
        s.order_by,
        other,
    ) + clause("limit"@, s.limit, other)))
}

/// A statement as tokens; `other` asks for the other spelling of what has two.
pub open spec fn statement_tokens(s: StatementView, other: bool) -> Seq<TokenView> {
    match s {
        StatementView::CreateTable(s) => seq![keyword("create"@, other), keyword("table"@, other)] + (name_tokens(
            s.name,
        ) + (seq![oper("("@)] + (listed(s.columns, |c: ColumnDefView| column_tokens(c, other)) + seq![
            oper(")"@),
        ]))),
        StatementView::DropTable(s) => seq![keyword("drop"@, other), keyword("table"@, other)] + name_tokens(s.name),
        StatementView::Insert(s) => seq![keyword("insert"@, other), keyword("into"@, other)] + (name_tokens(s.table) + (
        (match s.columns {
            Some(v) => seq![oper("("@)] + (name_list(v) + seq![oper(")"@)]),
            None => seq![],
        }) + (seq![keyword("values"@, other)] + listed(s.rows, |v: Seq<ExprView>| row_tokens(v, other))))),
        StatementView::Select(s) => seq![keyword("select"@, other)] + (listed(
            s.projection,
            |x: SelectItemView| item_tokens(x, other),
        ) + select_tail(s, other)),
        StatementView::Update(s) => seq![keyword("update"@, other)] + (name_tokens(s.table) + (seq![
            keyword("set"@, other),
        ] + (listed(s.assignments, |x: AssignmentView| assignment_tokens(x, other)) + clause(
            "where"@,
            s.where_clause,
            other,
        )))),
        StatementView::Delete(s) => seq![keyword("delete"@, other), keyword("from"@, other)] + (name_tokens(s.table)
            + clause("where"@, s.where_clause, other)),
        StatementView::Transaction(s) => seq![
            keyword(
                match s.kind {
                    TransactionKind::Begin => "begin"@,
                    TransactionKind::Commit => "commit"@,
                    TransactionKind::Rollback => "rollback"@,
                },
                other,
            ),
        ] + (if other {
            seq![keyword("transaction"@, other)]
        } else {
            seq![]
        }),
    }
}

/// Whether a statement can be written: its expressions can, and there is something where
/// something must be.
pub open spec fn statement_writable(s: StatementView) -> bool {
    match s {
        StatementView::CreateTable(s) => true,
        StatementView::DropTable(s) => true,
        StatementView::Insert(s) => s.rows.len() > 0 && forall|x: int|
            0 <= x < s.rows.len() ==> row_writable(#[trigger] s.rows[x]),
        StatementView::Select(s) => {
            &&& s.projection.len() > 0
            &&& forall|x: int|
                0 <= x < s.projection.len() ==> item_writable(#[trigger] s.projection[x])
            &&& from_writable(s.from)
            &&& clause_writable(s.where_clause)
            &&& forall|x: int|
                0 <= x < s.order_by.len() ==> writable((#[trigger] s.order_by[x]).expr)
            &&& clause_writable(s.limit)
        },
        StatementView::Update(s) => {
            &&& s.assignments.len() > 0
            &&& forall|x: int|
                0 <= x < s.assignments.len() ==> writable((#[trigger] s.assignments[x]).value)
            &&& clause_writable(s.where_clause)
        },
        StatementView::Delete(s) => clause_writable(s.where_clause),
        StatementView::Transaction(s) => true,
    }
}

/// The first words of statements are what they look like.
proof fn first_words()
    ensures
        is_word("create"@) && "create"@.len() == 6 && "create"@[0] == 'c' && "create"@[1] == 'r',
        is_word("drop"@) && "drop"@.len() == 4,
        is_word("insert"@) && "insert"@.len() == 6 && "insert"@[0] == 'i',
        is_word("select"@) && "select"@.len() == 6 && "select"@[0] == 's',
        is_word("update"@) && "update"@.len() == 6 && "update"@[0] == 'u',
        is_word("delete"@) && "delete"@.len() == 6 && "delete"@[0] == 'd',
        is_word("begin"@) && "begin"@.len() == 5,
        is_word("commit"@) && "commit"@.len() == 6 && "commit"@[0] == 'c' && "commit"@[1] == 'o',
        is_word("rollback"@) && "rollback"@.len() == 8,
        is_word("transaction"@),
        is_word("table"@),
        is_word("into"@),
        is_word("values"@),
        is_word("set"@) && "set"@.len() == 3 && "set"@[0] == 's',
        "values"@.len() == 6,
{
    reveal_strlit("create");
    reveal_strlit("drop");
    reveal_strlit("insert");
    reveal_strlit("select");
    reveal_strlit("update");
    reveal_strlit("delete");
    reveal_strlit("begin");
    reveal_strlit("commit");
    reveal_strlit("rollback");
    reveal_strlit("transaction");
    reveal_strlit("table");
    reveal_strlit("into");
    reveal_strlit("values");
    reveal_strlit("set");
}

#[verifier::spinoff_prover]
#[verifier::rlimit(40)]
proof fn create_read(s: CreateTableStmtView, other: bool, t: Seq<TokenView>, i: int)
    requires
        stands(t, i, statement_tokens(StatementView::CreateTable(s), other)),
    ensures
        p_create(t, i + 1) == Ok::<(StatementView, int), (int, Seq<char>)>(
            (
                StatementView::CreateTable(s),
                i + statement_tokens(StatementView::CreateTable(s), other).len(),
            ),
        ),
        comes(t, i, "create"@),
{
    let h = seq![keyword("create"@, other), keyword("table"@, other)];
    let n = name_tokens(s.name);
    let o = seq![oper("("@)];
    let w = |c: ColumnDefView| column_tokens(c, other);
    let l = listed(s.columns, w);
    let c = seq![oper(")"@)];
    stands_add(t, i, h, n + (o + (l + c)));
    stands_add(t, i + 2, n, o + (l + c));
    let k = i + 2 + n.len();
    stands_add(t, k, o, l + c);
    stands_add(t, k + 1, l, c);
    let j = k + 1 + l.len();
    assert(t[i + 0] == h[0]);
    assert(t[i + 1] == h[1]);
    stands_one(t, k, oper("("@));
    stands_one(t, j, oper(")"@));
    first_words();
    opers();
    word_is(t, i + 1, "table"@);
    oper_is(t, k, "("@);
    oper_is(t, j, ")"@);
    name_read(s.name, t, i + 2);
    let f = |x: int| p_column_def(t, x);
    let g = |b: int| oper_at(t, b, ","@) || oper_at(t, b, ")"@);
    let v = s.columns;
    if v.len() == 0 {
        assert(v =~= seq![]);
    } else {
        assert forall|x: int, a: int| 0 <= x < v.len() implies #[trigger] item_read(
            v[x],
            w,
            f,
            g,
            t,
            a,
        ) by {
            if stands(t, a, w(v[x])) && g((a + w(v[x]).len()) as int) {
                column_read(v[x], other, t, a);
            }
        }
        list_read(v, w, f, g, t, k + 1, 0);
        assert(v.skip(0) =~= v);
        assert(l[0] == w(v[0])[0]);
        assert(t[k + 1 + 0] == word(v[0].name));
    }
    assert(in_brackets(f, t, k + 1) == Ok::<(Seq<ColumnDefView>, int), (int, Seq<char>)>(
        (v, j + 1),
    ));
}

#[verifier::spinoff_prover]
#[verifier::rlimit(40)]
proof fn insert_read(s: InsertStmtView, other: bool, t: Seq<TokenView>, i: int)
    requires
        statement_writable(StatementView::Insert(s)),
        stands(t, i, statement_tokens(StatementView::Insert(s), other)),
        at_end(t, i + statement_tokens(StatementView::Insert(s), other).len()),
    ensures
        p_insert(t, i + 1) == Ok::<(StatementView, int), (int, Seq<char>)>(
            (
                StatementView::Insert(s),
                i + statement_tokens(StatementView::Insert(s), other).len(),
            ),
        ),
        comes(t, i, "insert"@),
{
    let h = seq![keyword("insert"@, other), keyword("into"@, other)];
    let n = name_tokens(s.table);
    let c = match s.columns {
        Some(v) => seq![oper("("@)] + (name_list(v) + seq![oper(")"@)]),
        None => seq![],
    };
    let u = seq![keyword("values"@, other)];
    let w = |v: Seq<ExprView>| row_tokens(v, other);
    let l = listed(s.rows, w);
    stands_add(t, i, h, n + (c + (u + l)));
    stands_add(t, i + 2, n, c + (u + l));
    let k = i + 2 + n.len();
    stands_add(t, k, c, u + l);
    let m = k + c.len();
    stands_add(t, m, u, l);
    assert(t[i + 0] == h[0]);
    assert(t[i + 1] == h[1]);
    stands_one(t, m, keyword("values"@, other));
    first_words();
    opers();
    word_is(t, i + 1, "into"@);
    word_is(t, m, "values"@);
    match s.columns {
        Some(v) => {
            stands_add(t, k, seq![oper("("@)], name_list(v) + seq![oper(")"@)]);
            stands_one(t, k, oper("("@));
            oper_is(t, k, "("@);
            names_read(v, t, k + 1);
        },
        None => {},
    }
    assert(p_columns(t, k) == Ok::<(Option<Seq<Seq<char>>>, int), (int, Seq<char>)>(
        (s.columns, m),
    ));
    name_read(s.table, t, i + 2);
    let f = |x: int| p_row(t, x);
    let g = |b: int| true;
    let v = s.rows;
    end_facts(t, m + 1 + l.len());
    assert forall|x: int, a: int| 0 <= x < v.len() implies #[trigger] item_read(
        v[x],
        w,
        f,
        g,
        t,
        a,
    ) by {
        if stands(t, a, w(v[x])) {
            row_read(v[x], other, t, a);
        }
    }
    list_read(v, w, f, g, t, m + 1, 0);
    assert(v.skip(0) =~= v);
}

#[verifier::spinoff_prover]
#[verifier::rlimit(40)]
proof fn select_read(s: SelectStmtView, other: bool, t: Seq<TokenView>, i: int)
    requires
        statement_writable(StatementView::Select(s)),
        stands(t, i, statement_tokens(StatementView::Select(s), other)),
        at_end(t, i + statement_tokens(StatementView::Select(s), other).len()),
    ensures
        p_select(t, i + 1) == Ok::<(StatementView, int), (int, Seq<char>)>(
            (
                StatementView::Select(s),
                i + statement_tokens(StatementView::Select(s), other).len(),
            ),
        ),
        comes(t, i, "select"@),
{
    let h = seq![keyword("select"@, other)];
    let w = |x: SelectItemView| item_tokens(x, other);
    let l = listed(s.projection, w);
    let a = from_part(s.from, other);
    let b = clause("where"@, s.where_clause, other);
    let c = order_part(s.order_by, other);
    let d = clause("limit"@, s.limit, other);
    stands_add(t, i, h, l + select_tail(s, other));
    stands_one(t, i, keyword("select"@, other));
    stands_add(t, i + 1, l, select_tail(s, other));
    let p = i + 1 + l.len();
    stands_add(t, p, a, b + (c + d));
    let q = p + a.len();
    stands_add(t, q, b, c + d);
    let r = q + b.len();
    stands_add(t, r, c, d);
    let x = r + c.len();
    let y = x + d.len();
    assert(y == i + statement_tokens(StatementView::Select(s), other).len());
    clause_words();
    end_facts(t, y);
    tail_with(t, y, 0, "limit"@);
    clause_read("limit"@, s.limit, other, t, x, 0);
    tail_with(t, x, 1, "limit"@);
    order_read(s.order_by, other, t, r);
    tail_facts(t, r, 2);
    clause_read("where"@, s.where_clause, other, t, q, 2);
    if s.where_clause is Some {
        tail_with(t, q, 3, "where"@);
    } else {
        tail_more(t, q, 2, 3);
    }
    from_read(s.from, other, t, p);
    tail_facts(t, p, 6);
    projection_read(s.projection, other, t, i + 1);
}

#[verifier::spinoff_prover]
#[verifier::rlimit(40)]
proof fn projection_read(v: Seq<SelectItemView>, other: bool, t: Seq<TokenView>, i: int)
    requires
        v.len() > 0,
        forall|x: int| 0 <= x < v.len() ==> item_writable(#[trigger] v[x]),
        stands(t, i, listed(v, |x: SelectItemView| item_tokens(x, other))),
        tail(t, i + listed(v, |x: SelectItemView| item_tokens(x, other)).len(), 6),
    ensures
        list_of(|n: int| p_select_item(t, n), t, i) == Ok::<
            (Seq<SelectItemView>, int),
            (int, Seq<char>),
        >((v, i + listed(v, |x: SelectItemView| item_tokens(x, other)).len())),
{
    let w = |x: SelectItemView| item_tokens(x, other);
    let f = |n: int| p_select_item(t, n);
    let g = |b: int| ends(t, b) && !keyword_at(t, b, "as"@) && !alias_at(t, b);
    tail_facts(t, i + listed(v, w).len(), 6);
    assert forall|x: int, a: int| 0 <= x < v.len() implies #[trigger] item_read(
        v[x],
        w,
        f,
        g,
        t,
        a,
    ) by {
        if stands(t, a, w(v[x])) && g((a + w(v[x]).len()) as int) {
            item_tokens_read(v[x], other, t, a);
        }
    }
    assert forall|x: int| 0 <= x < v.len() implies w(#[trigger] v[x]).len() > 0 by {
        match v[x].kind {
            SelectItemKindView::Expr(e) => first_token(e, 6, other),
            _ => {},
        }
    }
    assert forall|b: int| 0 <= b < t.len() && #[trigger] t[b] == oper(","@) implies g(b) by {
        ends_before_mark(t, b, ","@);
    }
    list_read(v, w, f, g, t, i, 0);
    assert(v.skip(0) =~= v);
}

#[verifier::spinoff_prover]
#[verifier::rlimit(40)]
proof fn update_read(s: UpdateStmtView, other: bool, t: Seq<TokenView>, i: int)
    requires
        statement_writable(StatementView::Update(s)),
        stands(t, i, statement_tokens(StatementView::Update(s), other)),
        at_end(t, i + statement_tokens(StatementView::Update(s), other).len()),
    ensures
        p_update(t, i + 1) == Ok::<(StatementView, int), (int, Seq<char>)>(
            (
                StatementView::Update(s),
                i + statement_tokens(StatementView::Update(s), other).len(),
            ),
        ),
        comes(t, i, "update"@),
{
    let h = seq![keyword("update"@, other)];
    let n = name_tokens(s.table);
    let u = seq![keyword("set"@, other)];
    let w = |x: AssignmentView| assignment_tokens(x, other);
    let v = s.assignments;
    let l = listed(v, w);
    let c = clause("where"@, s.where_clause, other);
    stands_add(t, i, h, n + (u + (l + c)));
    stands_one(t, i, keyword("update"@, other));
    stands_add(t, i + 1, n, u + (l + c));
    let k = i + 1 + n.len();
    stands_add(t, k, u, l + c);
    stands_one(t, k, keyword("set"@, other));
    stands_add(t, k + 1, l, c);
    let m = k + 1 + l.len();
    clause_words();
    first_words();
    ends_before_word(t, k, "set"@);
    end_facts(t, m + c.len());
    tail_with(t, m + c.len(), 0, "where"@);
    clause_read("where"@, s.where_clause, other, t, m, 0);
    tail_with(t, m, 3, "where"@);
    tail_facts(t, m, 3);
    name_read(s.table, t, i + 1);
    let f = |x: int| p_assignment(t, x);
    let g = |b: int| ends(t, b);
    assert forall|x: int, a: int| 0 <= x < v.len() implies #[trigger] item_read(
        v[x],
        w,
        f,
        g,
        t,
        a,
    ) by {
        if stands(t, a, w(v[x])) && g((a + w(v[x]).len()) as int) {
            assignment_read(v[x], other, t, a);
        }
    }
    assert forall|b: int| 0 <= b < t.len() && #[trigger] t[b] == oper(","@) implies g(b) by {
        ends_before_mark(t, b, ","@);
    }
    list_read(v, w, f, g, t, k + 1, 0);
    assert(v.skip(0) =~= v);
}

#[verifier::spinoff_prover]
#[verifier::rlimit(40)]
proof fn delete_read(s: DeleteStmtView, other: bool, t: Seq<TokenView>, i: int)
    requires
        statement_writable(StatementView::Delete(s)),
        stands(t, i, statement_tokens(StatementView::Delete(s), other)),
        at_end(t, i + statement_tokens(StatementView::Delete(s), other).len()),
    ensures
        p_delete(t, i + 1) == Ok::<(StatementView, int), (int, Seq<char>)>(
            (
                StatementView::Delete(s),
                i + statement_tokens(StatementView::Delete(s), other).len(),
            ),
        ),
        comes(t, i, "delete"@),
{
    let h = seq![keyword("delete"@, other), keyword("from"@, other)];
    let n = name_tokens(s.table);
    let c = clause("where"@, s.where_clause, other);
    stands_add(t, i, h, n + c);
    stands_add(t, i + 2, n, c);
    let m = i + 2 + n.len();
    assert(t[i + 0] == h[0]);
    assert(t[i + 1] == h[1]);
    clause_words();
    word_is(t, i + 1, "from"@);
    end_facts(t, m + c.len());
    tail_with(t, m + c.len(), 0, "where"@);
    clause_read("where"@, s.where_clause, other, t, m, 0);
    tail_with(t, m, 3, "where"@);
    tail_facts(t, m, 3);
    name_read(s.table, t, i + 2);
}

proof fn drop_read(s: DropTableStmtView, other: bool, t: Seq<TokenView>, i: int)
    requires
        stands(t, i, statement_tokens(StatementView::DropTable(s), other)),
        at_end(t, i + statement_tokens(StatementView::DropTable(s), other).len()),
    ensures
        p_drop(t, i + 1) == Ok::<(StatementView, int), (int, Seq<char>)>(
            (
                StatementView::DropTable(s),
                i + statement_tokens(StatementView::DropTable(s), other).len(),
            ),
        ),
        comes(t, i, "drop"@),
{
    let h = seq![keyword("drop"@, other), keyword("table"@, other)];
    stands_add(t, i, h, name_tokens(s.name));
    assert(t[i + 0] == h[0]);
    assert(t[i + 1] == h[1]);
    first_words();
    word_is(t, i + 1, "table"@);
    end_facts(t, i + statement_tokens(StatementView::DropTable(s), other).len());
    opers();
    name_read(s.name, t, i + 2);
}

/// The first word of a statement about transactions.
spec fn transaction_word(kind: TransactionKind) -> Seq<char> {
    match kind {
        TransactionKind::Begin => "begin"@,
        TransactionKind::Commit => "commit"@,
        TransactionKind::Rollback => "rollback"@,
    }
}

proof fn transaction_read(s: TransactionStmt, other: bool, t: Seq<TokenView>, i: int)
    requires
        stands(t, i, statement_tokens(StatementView::Transaction(s), other)),
        at_end(t, i + statement_tokens(StatementView::Transaction(s), other).len()),
    ensures
        p_transaction(t, i + 1, s.kind) == Ok::<(StatementView, int), (int, Seq<char>)>(
            (
                StatementView::Transaction(s),
                i + statement_tokens(StatementView::Transaction(s), other).len(),
            ),
        ),
        comes(t, i, transaction_word(s.kind)),
{
    let w = statement_tokens(StatementView::Transaction(s), other);
    first_words();
    assert(t[i + 0] == w[0]);
    assert(comes(t, i, transaction_word(s.kind)));
    if other {
        assert(t[i + 1] == w[1]);
        word_is(t, i + 1, "transaction"@);
    } else {
        end_facts(t, i + 1);
    }
}

/// The first word tells which statement it is.
#[verifier::spinoff_prover]
proof fn told_by_first_word(t: Seq<TokenView>, i: int, k: Seq<char>)
    requires
        comes(t, i, k),
    ensures
        k == "create"@ ==> p_statement(t, i) == p_create(t, i + 1),
        k == "drop"@ ==> p_statement(t, i) == p_drop(t, i + 1),
        k == "insert"@ ==> p_statement(t, i) == p_insert(t, i + 1),
        k == "select"@ ==> p_statement(t, i) == p_select(t, i + 1),
        k == "update"@ ==> p_statement(t, i) == p_update(t, i + 1),
        k == "delete"@ ==> p_statement(t, i) == p_delete(t, i + 1),
        forall|kind: TransactionKind|
            k == #[trigger] transaction_word(kind) ==> p_statement(t, i) == p_transaction(
                t,
                i + 1,
                kind,
            ),
{
    first_words();
    if is_word(k) {
        word_is(t, i, k);
    }
}

/// What a statement is written as is read as the statement.
#[verifier::spinoff_prover]
#[verifier::rlimit(60)]
pub proof fn statement_read_back(s: StatementView, other: bool, t: Seq<TokenView>, i: int)
    requires
        statement_writable(s),
        stands(t, i, statement_tokens(s, other)),
        at_end(t, i + statement_tokens(s, other).len()),
    ensures
        p_statement(t, i) == Ok::<(StatementView, int), (int, Seq<char>)>(
            (s, i + statement_tokens(s, other).len()),
        ),
        statement_tokens(s, other).len() > 0,
{
    first_is_word(s, other);
    match s {
        StatementView::CreateTable(x) => {
            create_read(x, other, t, i);
            told_by_first_word(t, i, "create"@);
        },
        StatementView::DropTable(x) => {
            drop_read(x, other, t, i);
            told_by_first_word(t, i, "drop"@);
        },
        StatementView::Insert(x) => {
            insert_read(x, other, t, i);
            told_by_first_word(t, i, "insert"@);
        },
        StatementView::Select(x) => {
            select_read(x, other, t, i);
            told_by_first_word(t, i, "select"@);
        },
        StatementView::Update(x) => {
            update_read(x, other, t, i);
            told_by_first_word(t, i, "update"@);
        },
        StatementView::Delete(x) => {
            delete_read(x, other, t, i);
            told_by_first_word(t, i, "delete"@);
        },
        StatementView::Transaction(x) => {
            transaction_read(x, other, t, i);
            told_by_first_word(t, i, transaction_word(x.kind));
        },
    }
}

/// Statements from place `k` on, each with a semicolon behind it.
pub open spec fn statements_from(v: Seq<StatementView>, k: int, other: bool) -> Seq<TokenView>
    decreases v.len() - k,
{
    if !(0 <= k < v.len()) {
        seq![]
    } else {
        statement_tokens(v[k], other) + (seq![oper(";"@)] + statements_from(v, k + 1, other))
    }
}

#[verifier::spinoff_prover]
#[verifier::rlimit(40)]
proof fn statements_read(v: Seq<StatementView>, k: int, other: bool, t: Seq<TokenView>, i: int)
    requires
        0 <= k <= v.len(),
        forall|x: int| 0 <= x < v.len() ==> statement_writable(#[trigger] v[x]),
        stands(t, i, statements_from(v, k, other)),
        i + statements_from(v, k, other).len() == t.len(),
    ensures
        p_statements(t, i) == Ok::<(Seq<StatementView>, int), (int, Seq<char>)>(
            (v.skip(k), t.len() as int),
        ),
        i < t.len() ==> !oper_at(t, i, ";"@),
    decreases v.len() - k,
{
    if k == v.len() {
        assert(v.skip(k) =~= seq![]);
    } else {
        let w = statement_tokens(v[k], other);
        let o = seq![oper(";"@)];
        let rest = statements_from(v, k + 1, other);
        let m = i + w.len();
        stands_add(t, i, w, o + rest);
        stands_add(t, m, o, rest);
        stands_one(t, m, oper(";"@));
        statement_read_back(v[k], other, t, i);
        statements_read(v, k + 1, other, t, m + 1);
        assert(v.skip(k) =~= seq![v[k]] + v.skip(k + 1));
        opers();
        assert(p_semicolons(t, m + 1) == m + 1);
        assert(p_semicolons(t, m) == m + 1);
        first_is_word(v[k], other);
        assert(t[i + 0] == w[0]);
    }
}

/// A statement starts with a word.
#[verifier::spinoff_prover]
proof fn first_is_word(s: StatementView, other: bool)
    ensures
        statement_tokens(s, other).len() > 0,
        statement_tokens(s, other)[0] is Ident,
{
    let w = statement_tokens(s, other);
    match s {
        StatementView::CreateTable(x) => {
            assert(w[0] == keyword("create"@, other));
        },
        StatementView::DropTable(x) => {
            assert(w[0] == keyword("drop"@, other));
        },
        StatementView::Insert(x) => {
            assert(w[0] == keyword("insert"@, other));
        },
        StatementView::Select(x) => {
            assert(w[0] == keyword("select"@, other));
        },
        StatementView::Update(x) => {
            assert(w[0] == keyword("update"@, other));
        },
        StatementView::Delete(x) => {
            assert(w[0] == keyword("delete"@, other));
        },
        StatementView::Transaction(x) => {},
    }
}

/// What statements are written as, each with a semicolon behind it, is read as the
/// statements.
pub proof fn statements_read_back(v: Seq<StatementView>, other: bool)
    requires
        forall|x: int| 0 <= x < v.len() ==> statement_writable(#[trigger] v[x]),
    ensures
        p_root(statements_from(v, 0, other), 0) == Ok::<(RootNodeView, int), (int, Seq<char>)>(
            (RootNodeView { statements: v }, statements_from(v, 0, other).len() as int),
        ),
{
    let t = statements_from(v, 0, other);
    statements_read(v, 0, other, t, 0);
    assert(v.skip(0) =~= v);
}

} // verus!
