//! Semicolons before and behind the tokens of statements.
use vstd::prelude::*;
use vstd::utf8::{encode_utf8, encode_utf8_decode_utf8};

use crate::sql::ast::{ExprView, JoinType, RootNodeView, StatementView, TransactionKind};
use crate::sql::grammar::{
    alias_at, binary_at, const_at, in_brackets, keyword_at, list_of, oper_at, p_alias, p_args,
    p_assignment, p_clause, p_column_def, p_column_rules, p_columns, p_constraint, p_create,
    p_delete, p_drop, p_expr, p_exprs, p_from, p_ident, p_insert, p_join, p_join_type, p_join_word,
    p_joins, p_keyword, p_level, p_oper, p_order, p_order_item, p_outer, p_primary, p_rest, p_root,
    p_row, p_select, p_select_item, p_semicolons, p_statement, p_statements, p_table_name,
    p_table_primary, p_table_ref, p_transaction, p_type_name, p_unary, p_update, unary_at, Parsed,
};
use crate::sql::lexer::TokenView;

verus! {

/// The token of a semicolon.
pub open spec fn semicolon() -> TokenView {
    TokenView::Oper(encode_utf8(";"@))
}

/// Whether the tokens `u` are `n` tokens, the tokens `t` and a semicolon.
pub open spec fn wraps(t: Seq<TokenView>, u: Seq<TokenView>, n: int) -> bool {
    &&& n >= 0
    &&& u.len() == t.len() + n + 1
    &&& forall|i: int| 0 <= i < t.len() ==> u[i + n] == #[trigger] t[i]
    &&& u[t.len() + n] == semicolon()
}

/// Whether what stands at place `i` of `t` stands `n` places on as well.
pub open spec fn carried<T>(
    r: Parsed<T>,
    s: Parsed<T>,
    t: Seq<TokenView>,
    i: int,
    n: int,
) -> bool {
    r matches Ok((v, j)) ==> i <= j <= t.len() && s == Ok::<(T, int), (int, Seq<char>)>((v, j + n))
}

/// Whether what stands at place `i` of `t`, and does not end with it, stands `n` places
/// on as well.
pub open spec fn carried_inside<T>(
    r: Parsed<T>,
    s: Parsed<T>,
    t: Seq<TokenView>,
    i: int,
    n: int,
) -> bool {
    r matches Ok((v, j)) ==> i <= j <= t.len() && (j < t.len() ==> s == Ok::<
        (T, int),
        (int, Seq<char>),
    >((v, j + n)))
}

/// Other texts have other bytes than a semicolon.
proof fn other_bytes(w: Seq<char>)
    requires
        w != ";"@,
    ensures
        encode_utf8(w) != encode_utf8(";"@),
{
    encode_utf8_decode_utf8(w);
    encode_utf8_decode_utf8(";"@);
}

/// The operators of expressions and lists are other texts than a semicolon.
proof fn operators()
    ensures
        forall|w: Seq<char>| #[trigger] is_operator(w) ==> encode_utf8(w) != encode_utf8(";"@),
{
    reveal_strlit("(");
    assert("("@.len() > 0 && "("@[0] == '(');
    reveal_strlit(")");
    assert(")"@.len() > 0 && ")"@[0] == ')');
    reveal_strlit(",");
    assert(","@.len() > 0 && ","@[0] == ',');
    reveal_strlit(".");
    assert("."@.len() > 0 && "."@[0] == '.');
    reveal_strlit("*");
    assert("*"@.len() > 0 && "*"@[0] == '*');
    reveal_strlit("/");
    assert("/"@.len() > 0 && "/"@[0] == '/');
    reveal_strlit("+");
    assert("+"@.len() > 0 && "+"@[0] == '+');
    reveal_strlit("-");
    assert("-"@.len() > 0 && "-"@[0] == '-');
    reveal_strlit("=");
    assert("="@.len() > 0 && "="@[0] == '=');
    reveal_strlit("==");
    assert("=="@.len() > 0 && "=="@[0] == '=');
    reveal_strlit("!=");
    assert("!="@.len() > 0 && "!="@[0] == '!');
    reveal_strlit("<>");
    assert("<>"@.len() > 0 && "<>"@[0] == '<');
    reveal_strlit("<=");
    assert("<="@.len() > 0 && "<="@[0] == '<');
    reveal_strlit(">=");
    assert(">="@.len() > 0 && ">="@[0] == '>');
    reveal_strlit("<");
    assert("<"@.len() > 0 && "<"@[0] == '<');
    reveal_strlit(">");
    assert(">"@.len() > 0 && ">"@[0] == '>');
    reveal_strlit(";");
    assert(";"@[0] == ';');
    assert forall|w: Seq<char>| #[trigger] is_operator(w) implies encode_utf8(w) != encode_utf8(
        ";"@,
    ) by {
        assert(w.len() > 0 && w[0] != ';');
        other_bytes(w);
    }
}

/// Whether a text is an operator of expressions or lists.
spec fn is_operator(w: Seq<char>) -> bool {
    ||| w == "("@
    ||| w == ")"@
    ||| w == ","@
    ||| w == "."@
    ||| w == "*"@
    ||| w == "/"@
    ||| w == "+"@
    ||| w == "-"@
    ||| w == "="@
    ||| w == "=="@
    ||| w == "!="@
    ||| w == "<>"@
    ||| w == "<="@
    ||| w == ">="@
    ||| w == "<"@
    ||| w == ">"@
}

proof fn keyword_same(t: Seq<TokenView>, u: Seq<TokenView>, n: int, i: int)
    requires
        wraps(t, u, n),
        0 <= i <= t.len(),
    ensures
        forall|w: Seq<char>| #[trigger] keyword_at(u, i + n, w) == keyword_at(t, i, w),
        forall|w: Seq<char>| #[trigger]
            oper_at(u, i + n, w) && encode_utf8(w) != encode_utf8(";"@) ==> oper_at(t, i, w),
        forall|w: Seq<char>| #[trigger] oper_at(t, i, w) ==> oper_at(u, i + n, w),
        alias_at(u, i + n) == alias_at(t, i),
        const_at(u, i + n) == const_at(t, i),
        carried(p_ident(t, i), p_ident(u, i + n), t, i, n),
        forall|w: Seq<char>| #[trigger]
            p_keyword(t, i, w) is Ok ==> carried(
                p_keyword(t, i, w),
                p_keyword(u, i + n, w),
                t,
                i,
                n,
            ),
        forall|w: Seq<char>| #[trigger]
            p_oper(t, i, w) is Ok ==> carried(p_oper(t, i, w), p_oper(u, i + n, w), t, i, n),
{
    if i < t.len() {
        assert(u[i + n] == t[i]);
    }
    assert forall|w: Seq<char>| #[trigger] oper_at(t, i, w) implies oper_at(u, i + n, w) by {}
    assert forall|w: Seq<char>| #[trigger] keyword_at(u, i + n, w) == keyword_at(t, i, w) by {}
}

/// Nothing that is told apart at a place is different `n` places on.
proof fn place_same(t: Seq<TokenView>, u: Seq<TokenView>, n: int, i: int)
    requires
        wraps(t, u, n),
        0 <= i <= t.len(),
    ensures
        forall|w: Seq<char>| #[trigger] keyword_at(u, i + n, w) == keyword_at(t, i, w),
        oper_at(u, i + n, "("@) == oper_at(t, i, "("@),
        oper_at(u, i + n, ")"@) == oper_at(t, i, ")"@),
        oper_at(u, i + n, ","@) == oper_at(t, i, ","@),
        oper_at(u, i + n, "."@) == oper_at(t, i, "."@),
        oper_at(u, i + n, "*"@) == oper_at(t, i, "*"@),
        oper_at(u, i + n, "/"@) == oper_at(t, i, "/"@),
        oper_at(u, i + n, "+"@) == oper_at(t, i, "+"@),
        oper_at(u, i + n, "-"@) == oper_at(t, i, "-"@),
        oper_at(u, i + n, "="@) == oper_at(t, i, "="@),
        oper_at(u, i + n, "=="@) == oper_at(t, i, "=="@),
        oper_at(u, i + n, "!="@) == oper_at(t, i, "!="@),
        oper_at(u, i + n, "<>"@) == oper_at(t, i, "<>"@),
        oper_at(u, i + n, "<="@) == oper_at(t, i, "<="@),
        oper_at(u, i + n, ">="@) == oper_at(t, i, ">="@),
        oper_at(u, i + n, "<"@) == oper_at(t, i, "<"@),
        oper_at(u, i + n, ">"@) == oper_at(t, i, ">"@),
        alias_at(u, i + n) == alias_at(t, i),
        const_at(u, i + n) == const_at(t, i),
        carried(p_ident(t, i), p_ident(u, i + n), t, i, n),
        binary_same(t, u, n, i),
        unary_at(u, i + n) == unary_at(t, i),
{
    keyword_same(t, u, n, i);
    operators();
    assert(is_operator("("@));
    assert(is_operator(")"@));
    assert(is_operator(","@));
    assert(is_operator("."@));
    assert(is_operator("*"@));
    assert(is_operator("/"@));
    assert(is_operator("+"@));
    assert(is_operator("-"@));
    assert(is_operator("="@));
    assert(is_operator("=="@));
    assert(is_operator("!="@));
    assert(is_operator("<>"@));
    assert(is_operator("<="@));
    assert(is_operator(">="@));
    assert(is_operator("<"@));
    assert(is_operator(">"@));
}

/// The operators of all levels are the same `n` places on.
spec fn binary_same(t: Seq<TokenView>, u: Seq<TokenView>, n: int, i: int) -> bool {
    forall|level: nat| #[trigger] binary_at(u, i + n, level) == binary_at(t, i, level)
}

proof fn level_carried(t: Seq<TokenView>, u: Seq<TokenView>, n: int, i: int, level: nat)
    requires
        wraps(t, u, n),
        0 <= i <= t.len(),
    ensures
        carried(p_level(t, i, level), p_level(u, i + n, level), t, i, n),
    decreases t.len() - i, 3 + level,
{
    if level == 0 {
        unary_carried(t, u, n, i);
    } else {
        level_carried(t, u, n, i, (level - 1) as nat);
    }
    let first = if level == 0 {
        p_unary(t, i)
    } else {
        p_level(t, i, (level - 1) as nat)
    };
    if let Ok((e, j)) = first {
        if i < j <= t.len() {
            rest_carried(t, u, n, j, level, e);
        }
    }
}

proof fn rest_carried(t: Seq<TokenView>, u: Seq<TokenView>, n: int, i: int, level: nat, left: ExprView)
    requires
        wraps(t, u, n),
        0 <= i <= t.len(),
    ensures
        carried(p_rest(t, i, level, left), p_rest(u, i + n, level, left), t, i, n),
    decreases t.len() - i, 0nat,
{
    place_same(t, u, n, i);
    assert(binary_at(u, i + n, level) == binary_at(t, i, level));
    if let Some(op) = binary_at(t, i, level) {
        if i < t.len() {
            if level == 0 {
                unary_carried(t, u, n, i + 1);
            } else {
                level_carried(t, u, n, i + 1, (level - 1) as nat);
            }
            let next = if level == 0 {
                p_unary(t, i + 1)
            } else {
                p_level(t, i + 1, (level - 1) as nat)
            };
            if let Ok((right, j)) = next {
                if i < j <= t.len() {
                    rest_carried(
                        t,
                        u,
                        n,
                        j,
                        level,
                        ExprView::Binary { left: Box::new(left), op, right: Box::new(right) },
                    );
                }
            }
        }
    }
}

proof fn unary_carried(t: Seq<TokenView>, u: Seq<TokenView>, n: int, i: int)
    requires
        wraps(t, u, n),
        0 <= i <= t.len(),
    ensures
        carried(p_unary(t, i), p_unary(u, i + n), t, i, n),
    decreases t.len() - i, 2nat,
{
    place_same(t, u, n, i);
    if unary_at(t, i) is Some {
        if i < t.len() {
            unary_carried(t, u, n, i + 1);
        }
    } else {
        primary_carried(t, u, n, i);
    }
}

proof fn primary_carried(t: Seq<TokenView>, u: Seq<TokenView>, n: int, i: int)
    requires
        wraps(t, u, n),
        0 <= i <= t.len(),
    ensures
        carried(p_primary(t, i), p_primary(u, i + n), t, i, n),
    decreases t.len() - i, 1nat,
{
    place_same(t, u, n, i);
    if i < t.len() {
        place_same(t, u, n, i + 1);
        if oper_at(t, i, "("@) {
            level_carried(t, u, n, i + 1, 4);
            if let Ok((e, j)) = p_level(t, i + 1, 4) {
                place_same(t, u, n, j);
            }
        } else if !keyword_at(t, i, "null"@) && const_at(t, i) is None {
            if p_ident(t, i) is Ok {
                if oper_at(t, i + 1, "("@) {
                    args_carried(t, u, n, i + 2);
                    if let Ok((v, k)) = p_args(t, i + 2) {
                        place_same(t, u, n, k);
                    }
                } else if oper_at(t, i + 1, "."@) {
                    place_same(t, u, n, i + 2);
                }
            }
        }
    }
}

proof fn args_carried(t: Seq<TokenView>, u: Seq<TokenView>, n: int, i: int)
    requires
        wraps(t, u, n),
        0 <= i <= t.len(),
    ensures
        carried(p_args(t, i), p_args(u, i + n), t, i, n),
    decreases t.len() - i, 9nat,
{
    place_same(t, u, n, i);
    if !oper_at(t, i, ")"@) {
        exprs_carried(t, u, n, i);
    }
}

proof fn exprs_carried(t: Seq<TokenView>, u: Seq<TokenView>, n: int, i: int)
    requires
        wraps(t, u, n),
        0 <= i <= t.len(),
    ensures
        carried(p_exprs(t, i), p_exprs(u, i + n), t, i, n),
    decreases t.len() - i, 8nat,
{
    level_carried(t, u, n, i, 4);
    if let Ok((e, j)) = p_level(t, i, 4) {
        if i < j <= t.len() {
            place_same(t, u, n, j);
            if oper_at(t, j, ","@) {
                exprs_carried(t, u, n, j + 1);
            }
        }
    }
}

proof fn expr_carried(t: Seq<TokenView>, u: Seq<TokenView>, n: int, i: int)
    requires
        wraps(t, u, n),
        0 <= i <= t.len(),
    ensures
        carried(p_expr(t, i), p_expr(u, i + n), t, i, n),
{
    level_carried(t, u, n, i, 4);
}

proof fn alias_carried(t: Seq<TokenView>, u: Seq<TokenView>, n: int, i: int)
    requires
        wraps(t, u, n),
        0 <= i <= t.len(),
    ensures
        carried(p_alias(t, i), p_alias(u, i + n), t, i, n),
{
    place_same(t, u, n, i);
    if keyword_at(t, i, "as"@) {
        place_same(t, u, n, i + 1);
    }
}

/// A list is carried where its items are.
proof fn list_carried<T>(
    f: spec_fn(int) -> Parsed<T>,
    g: spec_fn(int) -> Parsed<T>,
    t: Seq<TokenView>,
    u: Seq<TokenView>,
    n: int,
    i: int,
)
    requires
        wraps(t, u, n),
        0 <= i <= t.len(),
        forall|x: int| 0 <= x <= t.len() ==> carried(#[trigger] f(x), g(x + n), t, x, n),
    ensures
        carried(list_of(f, t, i), list_of(g, u, i + n), t, i, n),
    decreases t.len() - i,
{
    assert(carried(f(i), g(i + n), t, i, n));
    if let Ok((e, j)) = f(i) {
        if i < j <= t.len() {
            place_same(t, u, n, j);
            if oper_at(t, j, ","@) {
                list_carried(f, g, t, u, n, j + 1);
            }
        }
    }
}

/// A list that does not end with the tokens is carried where such items are.
proof fn list_carried_inside<T>(
    f: spec_fn(int) -> Parsed<T>,
    g: spec_fn(int) -> Parsed<T>,
    t: Seq<TokenView>,
    u: Seq<TokenView>,
    n: int,
    i: int,
)
    requires
        wraps(t, u, n),
        0 <= i <= t.len(),
        forall|x: int| 0 <= x <= t.len() ==> carried_inside(#[trigger] f(x), g(x + n), t, x, n),
    ensures
        carried_inside(list_of(f, t, i), list_of(g, u, i + n), t, i, n),
    decreases t.len() - i,
{
    assert(carried_inside(f(i), g(i + n), t, i, n));
    if let Ok((e, j)) = f(i) {
        if i < j <= t.len() {
            place_same(t, u, n, j);
            if oper_at(t, j, ","@) {
                list_carried_inside(f, g, t, u, n, j + 1);
            }
        }
    }
}

/// A list in brackets is carried.
proof fn brackets_carried<T>(
    f: spec_fn(int) -> Parsed<T>,
    g: spec_fn(int) -> Parsed<T>,
    t: Seq<TokenView>,
    u: Seq<TokenView>,
    n: int,
    i: int,
)
    requires
        wraps(t, u, n),
        0 <= i <= t.len(),
        forall|x: int| 0 <= x <= t.len() ==> carried_inside(#[trigger] f(x), g(x + n), t, x, n),
    ensures
        carried(in_brackets(f, t, i), in_brackets(g, u, i + n), t, i, n),
{
    place_same(t, u, n, i);
    if oper_at(t, i, ")"@) {
    } else {
        list_carried_inside(f, g, t, u, n, i);
        if let Ok((v, j)) = list_of(f, t, i) {
            place_same(t, u, n, j);
        }
    }
}

proof fn table_name_carried(t: Seq<TokenView>, u: Seq<TokenView>, n: int, i: int)
    requires
        wraps(t, u, n),
        0 <= i <= t.len(),
    ensures
        carried(p_table_name(t, i), p_table_name(u, i + n), t, i, n),
{
    place_same(t, u, n, i);
    if p_ident(t, i) is Ok {
        place_same(t, u, n, i + 1);
        if oper_at(t, i + 1, "."@) {
            place_same(t, u, n, i + 2);
        }
    }
}

proof fn type_name_carried(t: Seq<TokenView>, u: Seq<TokenView>, n: int, i: int)
    requires
        wraps(t, u, n),
        0 <= i <= t.len(),
    ensures
        carried(p_type_name(t, i), p_type_name(u, i + n), t, i, n),
{
    place_same(t, u, n, i);
    if p_ident(t, i) is Ok {
        place_same(t, u, n, i + 1);
        if oper_at(t, i + 1, "("@) {
            place_same(t, u, n, i + 2);
            if const_at(t, i + 2) is Some {
                place_same(t, u, n, i + 3);
            }
        }
    }
}

proof fn rules_carried(t: Seq<TokenView>, u: Seq<TokenView>, n: int, i: int, nullable: bool, primary: bool)
    requires
        wraps(t, u, n),
        0 <= i <= t.len(),
    ensures
        carried_inside(p_column_rules(t, i, nullable, primary), p_column_rules(u, i + n, nullable, primary), t, i, n),
    decreases t.len() - i,
{
    place_same(t, u, n, i);
    if i < t.len() && !oper_at(t, i, ","@) && !oper_at(t, i, ")"@) {
        place_same(t, u, n, i + 1);
        if keyword_at(t, i, "primary"@) {
            if p_keyword(t, i + 1, "key"@) is Ok {
                rules_carried(t, u, n, i + 2, false, true);
            }
        } else if keyword_at(t, i, "not"@) {
            if p_keyword(t, i + 1, "null"@) is Ok {
                rules_carried(t, u, n, i + 2, false, primary);
            }
        } else if keyword_at(t, i, "null"@) {
            rules_carried(t, u, n, i + 1, true, primary);
        }
    }
}

proof fn column_def_carried(t: Seq<TokenView>, u: Seq<TokenView>, n: int, i: int)
    requires
        wraps(t, u, n),
        0 <= i <= t.len(),
    ensures
        carried_inside(p_column_def(t, i), p_column_def(u, i + n), t, i, n),
{
    place_same(t, u, n, i);
    if let Ok((name, j)) = p_ident(t, i) {
        type_name_carried(t, u, n, j);
        if let Ok((ty, k)) = p_type_name(t, j) {
            rules_carried(t, u, n, k, true, false);
        }
    }
}

proof fn select_item_carried(t: Seq<TokenView>, u: Seq<TokenView>, n: int, i: int)
    requires
        wraps(t, u, n),
        0 <= i <= t.len(),
    ensures
        carried(p_select_item(t, i), p_select_item(u, i + n), t, i, n),
{
    place_same(t, u, n, i);
    if oper_at(t, i, "*"@) {
        alias_carried(t, u, n, i + 1);
    } else {
        expr_carried(t, u, n, i);
        if let Ok((e, j)) = p_expr(t, i) {
            alias_carried(t, u, n, j);
        }
    }
}

proof fn order_item_carried(t: Seq<TokenView>, u: Seq<TokenView>, n: int, i: int)
    requires
        wraps(t, u, n),
        0 <= i <= t.len(),
    ensures
        carried(p_order_item(t, i), p_order_item(u, i + n), t, i, n),
{
    expr_carried(t, u, n, i);
    if let Ok((e, j)) = p_expr(t, i) {
        place_same(t, u, n, j);
    }
}

proof fn assignment_carried(t: Seq<TokenView>, u: Seq<TokenView>, n: int, i: int)
    requires
        wraps(t, u, n),
        0 <= i <= t.len(),
    ensures
        carried(p_assignment(t, i), p_assignment(u, i + n), t, i, n),
{
    place_same(t, u, n, i);
    if p_ident(t, i) is Ok {
        place_same(t, u, n, i + 1);
        if p_oper(t, i + 1, "="@) is Ok {
            expr_carried(t, u, n, i + 2);
        }
    }
}

proof fn row_carried(t: Seq<TokenView>, u: Seq<TokenView>, n: int, i: int)
    requires
        wraps(t, u, n),
        0 <= i <= t.len(),
    ensures
        carried(p_row(t, i), p_row(u, i + n), t, i, n),
{
    place_same(t, u, n, i);
    if p_oper(t, i, "("@) is Ok {
        args_carried(t, u, n, i + 1);
        if let Ok((v, k)) = p_args(t, i + 1) {
            place_same(t, u, n, k);
        }
    }
}

proof fn join_word_carried(t: Seq<TokenView>, u: Seq<TokenView>, n: int, i: int, join: JoinType)
    requires
        wraps(t, u, n),
        0 <= i <= t.len(),
    ensures
        carried(p_join_word(t, i, join), p_join_word(u, i + n, join), t, i, n),
{
    place_same(t, u, n, i);
}

proof fn join_type_carried(t: Seq<TokenView>, u: Seq<TokenView>, n: int, i: int)
    requires
        wraps(t, u, n),
        0 <= i <= t.len(),
    ensures
        carried(p_join_type(t, i), p_join_type(u, i + n), t, i, n),
{
    place_same(t, u, n, i);
    if i < t.len() {
        place_same(t, u, n, i + 1);
        if keyword_at(t, i, "inner"@) {
            join_word_carried(t, u, n, i + 1, JoinType::Inner);
        }
        if keyword_at(t, i, "cross"@) {
            join_word_carried(t, u, n, i + 1, JoinType::Cross);
        }
        let j = p_outer(t, i + 1);
        assert(p_outer(u, i + 1 + n) == j + n);
        join_word_carried(t, u, n, j, JoinType::Left);
        join_word_carried(t, u, n, j, JoinType::Right);
        join_word_carried(t, u, n, j, JoinType::Full);
    }
}

proof fn constraint_carried(t: Seq<TokenView>, u: Seq<TokenView>, n: int, i: int)
    requires
        wraps(t, u, n),
        0 <= i <= t.len(),
    ensures
        carried(p_constraint(t, i), p_constraint(u, i + n), t, i, n),
{
    place_same(t, u, n, i);
    if keyword_at(t, i, "on"@) {
        expr_carried(t, u, n, i + 1);
    } else if keyword_at(t, i, "using"@) {
        place_same(t, u, n, i + 1);
        if p_oper(t, i + 1, "("@) is Ok {
            let f = |k: int| p_ident(t, k);
            let g = |k: int| p_ident(u, k);
            assert forall|x: int| 0 <= x <= t.len() implies carried_inside(
                #[trigger] f(x),
                g(x + n),
                t,
                x,
                n,
            ) by {
                place_same(t, u, n, x);
            }
            brackets_carried(f, g, t, u, n, i + 2);
        }
    }
}

proof fn table_primary_carried(t: Seq<TokenView>, u: Seq<TokenView>, n: int, i: int)
    requires
        wraps(t, u, n),
        0 <= i <= t.len(),
    ensures
        carried(p_table_primary(t, i), p_table_primary(u, i + n), t, i, n),
{
    table_name_carried(t, u, n, i);
    if let Ok((name, j)) = p_table_name(t, i) {
        alias_carried(t, u, n, j);
    }
}

proof fn join_carried(t: Seq<TokenView>, u: Seq<TokenView>, n: int, i: int, join: JoinType)
    requires
        wraps(t, u, n),
        0 <= i <= t.len(),
    ensures
        carried(p_join(t, i, join), p_join(u, i + n, join), t, i, n),
{
    table_primary_carried(t, u, n, i);
    if let Ok((table, j)) = p_table_primary(t, i) {
        constraint_carried(t, u, n, j);
    }
}

proof fn joins_carried(t: Seq<TokenView>, u: Seq<TokenView>, n: int, i: int)
    requires
        wraps(t, u, n),
        0 <= i <= t.len(),
    ensures
        carried(p_joins(t, i), p_joins(u, i + n), t, i, n),
    decreases t.len() - i,
{
    join_type_carried(t, u, n, i);
    if let Ok((Some(join), j)) = p_join_type(t, i) {
        join_carried(t, u, n, j, join);
        if let Ok((c, k)) = p_join(t, j, join) {
            if i < k <= t.len() {
                joins_carried(t, u, n, k);
            }
        }
    }
}

proof fn table_ref_carried(t: Seq<TokenView>, u: Seq<TokenView>, n: int, i: int)
    requires
        wraps(t, u, n),
        0 <= i <= t.len(),
    ensures
        carried(p_table_ref(t, i), p_table_ref(u, i + n), t, i, n),
{
    table_primary_carried(t, u, n, i);
    if let Ok((table, j)) = p_table_primary(t, i) {
        joins_carried(t, u, n, j);
    }
}

proof fn clause_carried(t: Seq<TokenView>, u: Seq<TokenView>, n: int, i: int, w: Seq<char>)
    requires
        wraps(t, u, n),
        0 <= i <= t.len(),
    ensures
        carried(p_clause(t, i, w), p_clause(u, i + n, w), t, i, n),
{
    place_same(t, u, n, i);
    if keyword_at(t, i, w) {
        expr_carried(t, u, n, i + 1);
    }
}

proof fn create_carried(t: Seq<TokenView>, u: Seq<TokenView>, n: int, i: int)
    requires
        wraps(t, u, n),
        0 <= i <= t.len(),
    ensures
        carried(p_create(t, i), p_create(u, i + n), t, i, n),
{
    place_same(t, u, n, i);
    if p_keyword(t, i, "table"@) is Ok {
        table_name_carried(t, u, n, i + 1);
        if let Ok((name, k)) = p_table_name(t, i + 1) {
            place_same(t, u, n, k);
            if p_oper(t, k, "("@) is Ok {
                let f = |n: int| p_column_def(t, n);
                let g = |n: int| p_column_def(u, n);
            assert forall|x: int| 0 <= x <= t.len() implies carried_inside(
                #[trigger] f(x),
                g(x + n),
                t,
                x,
                n,
            ) by {
                column_def_carried(t, u, n, x);
            }
            brackets_carried(f, g, t, u, n, k + 1);
            }
        }
    }
}

proof fn drop_carried(t: Seq<TokenView>, u: Seq<TokenView>, n: int, i: int)
    requires
        wraps(t, u, n),
        0 <= i <= t.len(),
    ensures
        carried(p_drop(t, i), p_drop(u, i + n), t, i, n),
{
    place_same(t, u, n, i);
    if p_keyword(t, i, "table"@) is Ok {
        table_name_carried(t, u, n, i + 1);
    }
}

proof fn columns_carried(t: Seq<TokenView>, u: Seq<TokenView>, n: int, i: int)
    requires
        wraps(t, u, n),
        0 <= i <= t.len(),
    ensures
        carried(p_columns(t, i), p_columns(u, i + n), t, i, n),
{
    place_same(t, u, n, i);
    if oper_at(t, i, "("@) {
        let f = |n: int| p_ident(t, n);
        let g = |n: int| p_ident(u, n);
            assert forall|x: int| 0 <= x <= t.len() implies carried_inside(
                #[trigger] f(x),
                g(x + n),
                t,
                x,
                n,
            ) by {
                place_same(t, u, n, x);
            }
            brackets_carried(f, g, t, u, n, i + 1);
    }
}

proof fn insert_carried(t: Seq<TokenView>, u: Seq<TokenView>, n: int, i: int)
    requires
        wraps(t, u, n),
        0 <= i <= t.len(),
    ensures
        carried(p_insert(t, i), p_insert(u, i + n), t, i, n),
{
    place_same(t, u, n, i);
    if p_keyword(t, i, "into"@) is Ok {
        table_name_carried(t, u, n, i + 1);
        if let Ok((table, k)) = p_table_name(t, i + 1) {
            columns_carried(t, u, n, k);
            if let Ok((columns, l)) = p_columns(t, k) {
                place_same(t, u, n, l);
                if p_keyword(t, l, "values"@) is Ok {
                    let f = |x: int| p_row(t, x);
                    let g = |x: int| p_row(u, x);
            assert forall|x: int| 0 <= x <= t.len() implies carried(
                #[trigger] f(x),
                g(x + n),
                t,
                x,
                n,
            ) by {
                row_carried(t, u, n, x);
            }
            list_carried(f, g, t, u, n, l + 1);
                }
            }
        }
    }
}

proof fn from_carried(t: Seq<TokenView>, u: Seq<TokenView>, n: int, i: int)
    requires
        wraps(t, u, n),
        0 <= i <= t.len(),
    ensures
        carried(p_from(t, i), p_from(u, i + n), t, i, n),
{
    place_same(t, u, n, i);
    if keyword_at(t, i, "from"@) {
        table_ref_carried(t, u, n, i + 1);
    }
}

proof fn order_carried(t: Seq<TokenView>, u: Seq<TokenView>, n: int, i: int)
    requires
        wraps(t, u, n),
        0 <= i <= t.len(),
    ensures
        carried(p_order(t, i), p_order(u, i + n), t, i, n),
{
    place_same(t, u, n, i);
    if keyword_at(t, i, "order"@) {
        place_same(t, u, n, i + 1);
        if p_keyword(t, i + 1, "by"@) is Ok {
            let f = |n: int| p_order_item(t, n);
            let g = |n: int| p_order_item(u, n);
            assert forall|x: int| 0 <= x <= t.len() implies carried(
                #[trigger] f(x),
                g(x + n),
                t,
                x,
                n,
            ) by {
                order_item_carried(t, u, n, x);
            }
            list_carried(f, g, t, u, n, i + 2);
        }
    }
}

proof fn select_carried(t: Seq<TokenView>, u: Seq<TokenView>, n: int, i: int)
    requires
        wraps(t, u, n),
        0 <= i <= t.len(),
    ensures
        carried(p_select(t, i), p_select(u, i + n), t, i, n),
{
    let f = |n: int| p_select_item(t, n);
    let g = |n: int| p_select_item(u, n);
            assert forall|x: int| 0 <= x <= t.len() implies carried(
                #[trigger] f(x),
                g(x + n),
                t,
                x,
                n,
            ) by {
                select_item_carried(t, u, n, x);
            }
            list_carried(f, g, t, u, n, i);
    if let Ok((projection, j)) = list_of(f, t, i) {
        from_carried(t, u, n, j);
        if let Ok((from, k)) = p_from(t, j) {
            clause_carried(t, u, n, k, "where"@);
            if let Ok((w, l)) = p_clause(t, k, "where"@) {
                order_carried(t, u, n, l);
                if let Ok((o, m)) = p_order(t, l) {
                    clause_carried(t, u, n, m, "limit"@);
                }
            }
        }
    }
}

proof fn update_carried(t: Seq<TokenView>, u: Seq<TokenView>, n: int, i: int)
    requires
        wraps(t, u, n),
        0 <= i <= t.len(),
    ensures
        carried(p_update(t, i), p_update(u, i + n), t, i, n),
{
    table_name_carried(t, u, n, i);
    if let Ok((table, j)) = p_table_name(t, i) {
        place_same(t, u, n, j);
        if p_keyword(t, j, "set"@) is Ok {
            let f = |n: int| p_assignment(t, n);
            let g = |n: int| p_assignment(u, n);
            assert forall|x: int| 0 <= x <= t.len() implies carried(
                #[trigger] f(x),
                g(x + n),
                t,
                x,
                n,
            ) by {
                assignment_carried(t, u, n, x);
            }
            list_carried(f, g, t, u, n, j + 1);
            if let Ok((a, l)) = list_of(f, t, j + 1) {
                clause_carried(t, u, n, l, "where"@);
            }
        }
    }
}

proof fn delete_carried(t: Seq<TokenView>, u: Seq<TokenView>, n: int, i: int)
    requires
        wraps(t, u, n),
        0 <= i <= t.len(),
    ensures
        carried(p_delete(t, i), p_delete(u, i + n), t, i, n),
{
    place_same(t, u, n, i);
    if p_keyword(t, i, "from"@) is Ok {
        table_name_carried(t, u, n, i + 1);
        if let Ok((table, k)) = p_table_name(t, i + 1) {
            clause_carried(t, u, n, k, "where"@);
        }
    }
}

proof fn transaction_carried(t: Seq<TokenView>, u: Seq<TokenView>, n: int, i: int, kind: TransactionKind)
    requires
        wraps(t, u, n),
        0 <= i <= t.len(),
    ensures
        carried(p_transaction(t, i, kind), p_transaction(u, i + n, kind), t, i, n),
{
    place_same(t, u, n, i);
}

proof fn statement_carried(t: Seq<TokenView>, u: Seq<TokenView>, n: int, i: int)
    requires
        wraps(t, u, n),
        0 <= i <= t.len(),
    ensures
        carried(p_statement(t, i), p_statement(u, i + n), t, i, n),
{
    place_same(t, u, n, i);
    if i < t.len() {
        create_carried(t, u, n, i + 1);
        drop_carried(t, u, n, i + 1);
        insert_carried(t, u, n, i + 1);
        select_carried(t, u, n, i + 1);
        update_carried(t, u, n, i + 1);
        delete_carried(t, u, n, i + 1);
        transaction_carried(t, u, n, i + 1, TransactionKind::Begin);
        transaction_carried(t, u, n, i + 1, TransactionKind::Commit);
        transaction_carried(t, u, n, i + 1, TransactionKind::Rollback);
    }
}

/// The place behind semicolons, `n` places on; a semicolon that is put behind the
/// tokens is skipped with them.
proof fn semicolons_carried(t: Seq<TokenView>, u: Seq<TokenView>, n: int, i: int)
    requires
        wraps(t, u, n),
        0 <= i <= t.len(),
    ensures
        i <= p_semicolons(t, i) <= t.len(),
        p_semicolons(u, i + n) == if p_semicolons(t, i) < t.len() {
            p_semicolons(t, i) + n
        } else {
            u.len() as int
        },
    decreases t.len() - i,
{
    if i < t.len() {
        assert(u[i + n] == t[i]);
        if oper_at(t, i, ";"@) {
            semicolons_carried(t, u, n, i + 1);
        }
    } else {
        assert(oper_at(u, i + n, ";"@));
        assert(p_semicolons(u, i + n) == p_semicolons(u, i + n + 1));
        assert(p_semicolons(u, i + n + 1) == u.len());
    }
}

/// Statements are carried.
proof fn statements_carried(t: Seq<TokenView>, u: Seq<TokenView>, n: int, i: int)
    requires
        wraps(t, u, n),
        0 <= i <= t.len(),
    ensures
        p_statements(t, i) matches Ok((v, j)) ==> p_statements(
            u,
            if i < t.len() {
                i + n
            } else {
                u.len() as int
            },
        ) matches Ok((w, k)) && w == v,
    decreases t.len() - i,
{
    if i < t.len() {
        statement_carried(t, u, n, i);
        if let Ok((s, j)) = p_statement(t, i) {
            if i < j <= t.len() {
                if j < t.len() {
                    assert(u[j + n] == t[j]);
                }
                if oper_at(t, j, ";"@) || j >= t.len() {
                    assert(oper_at(u, j + n, ";"@));
                    semicolons_carried(t, u, n, j);
                    let k = p_semicolons(t, j);
                    statements_carried(t, u, n, k);
                }
            }
        }
    }
}

/// Semicolons before and behind tokens change nothing of the statements that they are.
pub proof fn semicolons_around(t: Seq<TokenView>, r: RootNodeView)
    requires
        p_root(t, 0) matches Ok((v, j)) && v == r,
    ensures
        p_root(seq![semicolon()] + t + seq![semicolon()], 0) matches Ok((v, j)) && v == r,
{
    let u = seq![semicolon()] + t + seq![semicolon()];
    assert(wraps(t, u, 1)) by {
        assert forall|i: int| 0 <= i < t.len() implies u[i + 1] == #[trigger] t[i] by {}
    }
    assert(u[0] == semicolon());
    assert(oper_at(u, 0, ";"@));
    assert(p_semicolons(u, 0) == p_semicolons(u, 1));
    semicolons_carried(t, u, 1, 0);
    statements_carried(t, u, 1, p_semicolons(t, 0));
}

/// A semicolon behind tokens changes nothing of the statements that they are.
pub proof fn semicolon_behind(t: Seq<TokenView>, r: RootNodeView)
    requires
        p_root(t, 0) matches Ok((v, j)) && v == r,
    ensures
        p_root(t + seq![semicolon()], 0) matches Ok((v, j)) && v == r,
{
    let u = t + seq![semicolon()];
    assert(wraps(t, u, 0));
    semicolons_carried(t, u, 0, 0);
    statements_carried(t, u, 0, p_semicolons(t, 0));
}

/// No tokens are no statements.
pub proof fn no_tokens_no_statements()
    ensures
        p_root(Seq::<TokenView>::empty(), 0) matches Ok((v, j)) && v.statements == Seq::<
            StatementView,
        >::empty(),
{
}

} // verus!
