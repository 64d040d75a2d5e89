//! The grammar of statements, as functions from tokens and a place among them to
//! what stands there and the place behind it, or to the place and the text of an
//! error.
use vstd::prelude::*;
use vstd::utf8::encode_utf8;

use crate::engine::value::text_of;
use crate::sql::ast::{
    AssignmentView, BinaryOp, ColumnRefView, CreateTableStmtView, DeleteStmtView,
    DropTableStmtView, ExprView, InsertStmtView, JoinClauseView, JoinConstraintView, JoinType,
    LiteralView, OrderByItemView, OrderDirection, RootNodeView, SelectItemKindView,
    SelectItemView, SelectStmtView, StatementView, TableNameView, TableRefView, TransactionKind,
    TransactionStmt, UnaryOp, UpdateStmtView,
};
use crate::sql::lexer::TokenView;
use crate::sql::schema::ColumnDefView;
use crate::sql::text::{integer_of, is_fraction, same_bytes, same_name, shortened};

verus! {

/// What stands at a place and the place behind it, or the place and the text of
/// an error.
pub type Parsed<T> = Result<(T, int), (int, Seq<char>)>;

/// An error.
pub open spec fn wrong<T>(i: int, message: Seq<char>) -> Parsed<T> {
    Err((i, message))
}

/// Whether a keyword stands at a place.
pub open spec fn keyword_at(t: Seq<TokenView>, i: int, k: Seq<char>) -> bool {
    0 <= i < t.len() && match t[i] {
        TokenView::Ident(b) => same_bytes(b, encode_utf8(k)),
        _ => false,
    }
}

/// Whether an operator stands at a place.
pub open spec fn oper_at(t: Seq<TokenView>, i: int, k: Seq<char>) -> bool {
    0 <= i < t.len() && t[i] == TokenView::Oper(encode_utf8(k))
}

/// A keyword.
pub open spec fn p_keyword(t: Seq<TokenView>, i: int, k: Seq<char>) -> Parsed<()> {
    if keyword_at(t, i, k) {
        Ok(((), i + 1))
    } else {
        wrong(i, "expected keyword '"@ + k + "'"@)
    }
}

/// An operator.
pub open spec fn p_oper(t: Seq<TokenView>, i: int, k: Seq<char>) -> Parsed<()> {
    if oper_at(t, i, k) {
        Ok(((), i + 1))
    } else {
        wrong(i, "expected operator '"@ + k + "'"@)
    }
}

/// A name.
pub open spec fn p_ident(t: Seq<TokenView>, i: int) -> Parsed<Seq<char>> {
    if 0 <= i < t.len() {
        match t[i] {
            TokenView::Ident(b) => Ok((text_of(b), i + 1)),
            _ => wrong(i, "expected identifier"@),
        }
    } else {
        wrong(i, "expected identifier"@)
    }
}

/// The text of a constant.
pub open spec fn const_at(t: Seq<TokenView>, i: int) -> Option<Seq<char>> {
    if 0 <= i < t.len() {
        match t[i] {
            TokenView::Const(b) => Some(text_of(b)),
            _ => None,
        }
    } else {
        None
    }
}

/// Whether a word starts or is part of a clause, so that it is no alias.
pub open spec fn clause_word(w: Seq<char>) -> bool {
    ||| same_name(w, "from"@)
    ||| same_name(w, "where"@)
    ||| same_name(w, "order"@)
    ||| same_name(w, "by"@)
    ||| same_name(w, "limit"@)
    ||| same_name(w, "group"@)
    ||| same_name(w, "having"@)
    ||| same_name(w, "join"@)
    ||| same_name(w, "inner"@)
    ||| same_name(w, "left"@)
    ||| same_name(w, "right"@)
    ||| same_name(w, "full"@)
    ||| same_name(w, "cross"@)
    ||| same_name(w, "outer"@)
    ||| same_name(w, "on"@)
    ||| same_name(w, "using"@)
    ||| same_name(w, "set"@)
    ||| same_name(w, "values"@)
    ||| same_name(w, "asc"@)
    ||| same_name(w, "desc"@)
}

/// Whether the word at a place can be an alias.
pub open spec fn alias_at(t: Seq<TokenView>, i: int) -> bool {
    0 <= i < t.len() && match t[i] {
        TokenView::Ident(b) => !clause_word(text_of(b)),
        _ => false,
    }
}

/// An alias, with or without its keyword, where there is one.
pub open spec fn p_alias(t: Seq<TokenView>, i: int) -> Parsed<Option<Seq<char>>> {
    if keyword_at(t, i, "as"@) {
        match p_ident(t, i + 1) {
            Ok((a, j)) => Ok((Some(a), j)),
            Err(e) => Err(e),
        }
    } else if alias_at(t, i) {
        match p_ident(t, i) {
            Ok((a, j)) => Ok((Some(a), j)),
            Err(e) => Err(e),
        }
    } else {
        Ok((None, i))
    }
}

// -- Lists -----------------------------------------------------

/// More before a list.
pub open spec fn prepend<T>(a: Seq<T>, r: Parsed<Seq<T>>) -> Parsed<Seq<T>> {
    match r {
        Ok((v, k)) => Ok((a + v, k)),
        Err(e) => Err(e),
    }
}

/// One or more of a kind, with commas between them, among `n` tokens.
pub open spec fn list_of<T>(
    f: spec_fn(int) -> Parsed<T>,
    t: Seq<TokenView>,
    i: int,
) -> Parsed<Seq<T>>
    decreases t.len() - i,
{
    match f(i) {
        Ok((e, j)) => if i < j <= t.len() {
            if oper_at(t, j, ","@) {
                prepend(seq![e], list_of(f, t, j + 1))
            } else {
                Ok((seq![e], j))
            }
        } else {
            wrong(i, ""@)
        },
        Err(e) => Err(e),
    }
}

/// A list between brackets, the first of which is at place `i - 1`; it may be
/// empty.
pub open spec fn in_brackets<T>(
    f: spec_fn(int) -> Parsed<T>,
    t: Seq<TokenView>,
    i: int,
) -> Parsed<Seq<T>> {
    let l = if oper_at(t, i, ")"@) {
        Ok((seq![], i))
    } else {
        list_of(f, t, i)
    };
    match l {
        Ok((v, j)) => match p_oper(t, j, ")"@) {
            Ok((_, k)) => Ok((v, k)),
            Err(e) => Err(e),
        },
        Err(e) => Err(e),
    }
}

/// What comes before a list and one more of it, and the rest.
pub proof fn prepend_push<T>(a: Seq<T>, e: T, r: Parsed<Seq<T>>)
    ensures
        prepend(a.push(e), r) == prepend(a, prepend(seq![e], r)),
        prepend(a, Ok((seq![e], 0int))) == Ok::<(Seq<T>, int), (int, Seq<char>)>((a.push(e), 0int)),
        forall|k: int| #[trigger]
            prepend(a, Ok((seq![e], k))) == Ok::<(Seq<T>, int), (int, Seq<char>)>((a.push(e), k)),
{
    match r {
        Ok((v, k)) => {
            assert(a.push(e) + v =~= a + (seq![e] + v));
        },
        Err(_) => {},
    }
    assert forall|k: int| #[trigger]
        prepend(a, Ok((seq![e], k))) == Ok::<(Seq<T>, int), (int, Seq<char>)>((a.push(e), k)) by {
        assert(a + seq![e] =~= a.push(e));
    }
    assert(a + seq![e] =~= a.push(e));
}

/// Nothing before a list.
pub proof fn prepend_nothing<T>(r: Parsed<Seq<T>>)
    ensures
        prepend(seq![], r) == r,
{
    match r {
        Ok((v, k)) => {
            assert(Seq::<T>::empty() + v =~= v);
        },
        Err(_) => {},
    }
}

// -- Expressions -----------------------------------------------

/// The operator of a level at a place, and how it reads: products, sums,
/// comparisons, conjunctions and disjunctions, from the tightest.
pub open spec fn binary_at(t: Seq<TokenView>, i: int, level: nat) -> Option<BinaryOp> {
    if level == 0 {
        if oper_at(t, i, "*"@) {
            Some(BinaryOp::Multiply)
        } else if oper_at(t, i, "/"@) {
            Some(BinaryOp::Divide)
        } else {
            None
        }
    } else if level == 1 {
        if oper_at(t, i, "+"@) {
            Some(BinaryOp::Add)
        } else if oper_at(t, i, "-"@) {
            Some(BinaryOp::Subtract)
        } else {
            None
        }
    } else if level == 2 {
        if oper_at(t, i, "="@) || oper_at(t, i, "=="@) {
            Some(BinaryOp::Eq)
        } else if oper_at(t, i, "!="@) || oper_at(t, i, "<>"@) {
            Some(BinaryOp::Ne)
        } else if oper_at(t, i, "<="@) {
            Some(BinaryOp::Le)
        } else if oper_at(t, i, ">="@) {
            Some(BinaryOp::Ge)
        } else if oper_at(t, i, "<"@) {
            Some(BinaryOp::Lt)
        } else if oper_at(t, i, ">"@) {
            Some(BinaryOp::Gt)
        } else {
            None
        }
    } else if level == 3 {
        if keyword_at(t, i, "and"@) {
            Some(BinaryOp::And)
        } else {
            None
        }
    } else if keyword_at(t, i, "or"@) {
        Some(BinaryOp::Or)
    } else {
        None
    }
}

/// The operator with one operand at a place.
pub open spec fn unary_at(t: Seq<TokenView>, i: int) -> Option<UnaryOp> {
    if keyword_at(t, i, "not"@) {
        Some(UnaryOp::Not)
    } else if oper_at(t, i, "-"@) {
        Some(UnaryOp::Negate)
    } else if oper_at(t, i, "+"@) {
        Some(UnaryOp::Positive)
    } else {
        None
    }
}

/// What a constant is: a real where it has a point and is a decimal fraction, an
/// integer where it is one, and text otherwise. Zeros before and behind a fraction do
/// not count.
pub open spec fn literal_of(s: Seq<char>) -> LiteralView {
    if s.contains('.') && is_fraction(s) {
        LiteralView::Real(shortened(s))
    } else {
        match integer_of(s) {
            Some(n) => LiteralView::Integer(n),
            None => LiteralView::Text(s),
        }
    }
}

/// An expression.
pub open spec fn p_expr(t: Seq<TokenView>, i: int) -> Parsed<ExprView> {
    p_level(t, i, 4)
}

/// Operands with operators of a level between them, taken from the left.
pub open spec fn p_level(t: Seq<TokenView>, i: int, level: nat) -> Parsed<ExprView>
    decreases t.len() - i, 3 + level,
{
    let first = if level == 0 {
        p_unary(t, i)
    } else {
        p_level(t, i, (level - 1) as nat)
    };
    match first {
        Ok((e, j)) => if i < j <= t.len() {
            p_rest(t, j, level, e)
        } else {
            wrong(i, ""@)
        },
        Err(e) => Err(e),
    }
}

/// What follows an operand of a level.
pub open spec fn p_rest(t: Seq<TokenView>, i: int, level: nat, left: ExprView) -> Parsed<ExprView>
    decreases t.len() - i, 0nat,
{
    match binary_at(t, i, level) {
        Some(op) => if 0 <= i < t.len() {
            let next = if level == 0 {
                p_unary(t, i + 1)
            } else {
                p_level(t, i + 1, (level - 1) as nat)
            };
            match next {
                Ok((right, j)) => if i < j <= t.len() {
                    p_rest(
                        t,
                        j,
                        level,
                        ExprView::Binary { left: Box::new(left), op, right: Box::new(right) },
                    )
                } else {
                    wrong(i, ""@)
                },
                Err(e) => Err(e),
            }
        } else {
            wrong(i, ""@)
        },
        None => Ok((left, i)),
    }
}

/// An operand with operators before it.
pub open spec fn p_unary(t: Seq<TokenView>, i: int) -> Parsed<ExprView>
    decreases t.len() - i, 2nat,
{
    match unary_at(t, i) {
        Some(op) => if 0 <= i < t.len() {
            match p_unary(t, i + 1) {
                Ok((e, j)) => Ok((ExprView::Unary { op, expr: Box::new(e) }, j)),
                Err(e) => Err(e),
            }
        } else {
            wrong(i, ""@)
        },
        None => p_primary(t, i),
    }
}

/// An expression in brackets, a constant, a call or a column.
pub open spec fn p_primary(t: Seq<TokenView>, i: int) -> Parsed<ExprView>
    decreases t.len() - i, 1nat,
{
    if !(0 <= i < t.len()) {
        wrong(i, "expected identifier"@)
    } else if oper_at(t, i, "("@) {
        match p_level(t, i + 1, 4) {
            Ok((e, j)) => match p_oper(t, j, ")"@) {
                Ok((_, k)) => Ok((e, k)),
                Err(e) => Err(e),
            },
            Err(e) => Err(e),
        }
    } else if keyword_at(t, i, "null"@) {
        Ok((ExprView::Literal(LiteralView::Null), i + 1))
    } else {
        match const_at(t, i) {
            Some(s) => Ok((ExprView::Literal(literal_of(s)), i + 1)),
            None => match p_ident(t, i) {
                Ok((name, j)) => if oper_at(t, j, "("@) {
                    match p_args(t, j + 1) {
                        Ok((args, k)) => match p_oper(t, k, ")"@) {
                            Ok((_, l)) => Ok((ExprView::FunctionCall { name, args }, l)),
                            Err(e) => Err(e),
                        },
                        Err(e) => Err(e),
                    }
                } else if oper_at(t, j, "."@) {
                    match p_ident(t, j + 1) {
                        Ok((column, k)) => Ok(
                            (
                                ExprView::Column(
                                    ColumnRefView { table: Some(name), name: column },
                                ),
                                k,
                            ),
                        ),
                        Err(e) => Err(e),
                    }
                } else {
                    Ok((ExprView::Column(ColumnRefView { table: None, name }), j))
                },
                Err(e) => Err(e),
            },
        }
    }
}

/// Expressions with commas between them, or none before a closing bracket.
pub open spec fn p_args(t: Seq<TokenView>, i: int) -> Parsed<Seq<ExprView>>
    decreases t.len() - i, 9nat,
{
    if oper_at(t, i, ")"@) {
        Ok((seq![], i))
    } else {
        p_exprs(t, i)
    }
}

/// Expressions with commas between them.
pub open spec fn p_exprs(t: Seq<TokenView>, i: int) -> Parsed<Seq<ExprView>>
    decreases t.len() - i, 8nat,
{
    match p_level(t, i, 4) {
        Ok((e, j)) => if i < j <= t.len() {
            if oper_at(t, j, ","@) {
                prepend(seq![e], p_exprs(t, j + 1))
            } else {
                Ok((seq![e], j))
            }
        } else {
            wrong(i, ""@)
        },
        Err(e) => Err(e),
    }
}

// -- Parts of statements ---------------------------------------

/// The name of a table, with or without a schema.
pub open spec fn p_table_name(t: Seq<TokenView>, i: int) -> Parsed<TableNameView> {
    match p_ident(t, i) {
        Ok((first, j)) => if oper_at(t, j, "."@) {
            match p_ident(t, j + 1) {
                Ok((name, k)) => Ok((TableNameView { schema: Some(first), name }, k)),
                Err(e) => Err(e),
            }
        } else {
            Ok((TableNameView { schema: None, name: first }, j))
        },
        Err(e) => Err(e),
    }
}

/// The type of a column: a name, with or without a constant in brackets.
pub open spec fn p_type_name(t: Seq<TokenView>, i: int) -> Parsed<Seq<char>> {
    match p_ident(t, i) {
        Ok((ty, j)) => if oper_at(t, j, "("@) {
            match const_at(t, j + 1) {
                Some(arg) => match p_oper(t, j + 2, ")"@) {
                    Ok((_, k)) => Ok((ty + "("@ + arg + ")"@, k)),
                    Err(e) => Err(e),
                },
                None => wrong(j + 1, "expected constant"@),
            }
        } else {
            Ok((ty, j))
        },
        Err(e) => Err(e),
    }
}

/// What is said of a column behind its type: whether it may be null and whether
/// it is the primary key.
pub open spec fn p_column_rules(
    t: Seq<TokenView>,
    i: int,
    nullable: bool,
    primary: bool,
) -> Parsed<(bool, bool)>
    decreases t.len() - i,
{
    if !(0 <= i < t.len()) || oper_at(t, i, ","@) || oper_at(t, i, ")"@) {
        Ok(((nullable, primary), i))
    } else if keyword_at(t, i, "primary"@) {
        match p_keyword(t, i + 1, "key"@) {
            Ok((_, j)) => p_column_rules(t, i + 2, false, true),
            Err(e) => Err(e),
        }
    } else if keyword_at(t, i, "not"@) {
        match p_keyword(t, i + 1, "null"@) {
            Ok((_, j)) => p_column_rules(t, i + 2, false, primary),
            Err(e) => Err(e),
        }
    } else if keyword_at(t, i, "null"@) {
        p_column_rules(t, i + 1, true, primary)
    } else {
        wrong(i, "expected column constraint"@)
    }
}

/// A column of a table.
pub open spec fn p_column_def(t: Seq<TokenView>, i: int) -> Parsed<ColumnDefView> {
    match p_ident(t, i) {
        Ok((name, j)) => match p_type_name(t, j) {
            Ok((col_type, k)) => match p_column_rules(t, k, true, false) {
                Ok(((nullable, is_primary_key), l)) => Ok(
                    (ColumnDefView { name, col_type, nullable, is_primary_key }, l),
                ),
                Err(e) => Err(e),
            },
            Err(e) => Err(e),
        },
        Err(e) => Err(e),
    }
}

/// A column of a result.
pub open spec fn p_select_item(t: Seq<TokenView>, i: int) -> Parsed<SelectItemView> {
    let kind: Parsed<SelectItemKindView> = if oper_at(t, i, "*"@) {
        Ok((SelectItemKindView::Wildcard, i + 1))
    } else {
        match p_expr(t, i) {
            Ok((e, j)) => Ok((SelectItemKindView::Expr(e), j)),
            Err(e) => Err(e),
        }
    };
    match kind {
        Ok((kind, j)) => match p_alias(t, j) {
            Ok((alias, k)) => Ok((SelectItemView { kind, alias }, k)),
            Err(e) => Err(e),
        },
        Err(e) => Err(e),
    }
}

/// What rows are ordered by.
pub open spec fn p_order_item(t: Seq<TokenView>, i: int) -> Parsed<OrderByItemView> {
    match p_expr(t, i) {
        Ok((expr, j)) => if keyword_at(t, j, "desc"@) {
            Ok((OrderByItemView { expr, direction: OrderDirection::Desc }, j + 1))
        } else if keyword_at(t, j, "asc"@) {
            Ok((OrderByItemView { expr, direction: OrderDirection::Asc }, j + 1))
        } else {
            Ok((OrderByItemView { expr, direction: OrderDirection::Asc }, j))
        },
        Err(e) => Err(e),
    }
}

/// What a column is set to.
pub open spec fn p_assignment(t: Seq<TokenView>, i: int) -> Parsed<AssignmentView> {
    match p_ident(t, i) {
        Ok((column, j)) => match p_oper(t, j, "="@) {
            Ok((_, k)) => match p_expr(t, k) {
                Ok((value, l)) => Ok((AssignmentView { column, value }, l)),
                Err(e) => Err(e),
            },
            Err(e) => Err(e),
        },
        Err(e) => Err(e),
    }
}

/// A row of values in brackets.
pub open spec fn p_row(t: Seq<TokenView>, i: int) -> Parsed<Seq<ExprView>> {
    match p_oper(t, i, "("@) {
        Ok((_, j)) => match p_args(t, j) {
            Ok((v, k)) => match p_oper(t, k, ")"@) {
                Ok((_, l)) => Ok((v, l)),
                Err(e) => Err(e),
            },
            Err(e) => Err(e),
        },
        Err(e) => Err(e),
    }
}

/// How the next table is joined, where there is one.
pub open spec fn p_join_type(t: Seq<TokenView>, i: int) -> Parsed<Option<JoinType>> {
    if keyword_at(t, i, "join"@) {
        Ok((Some(JoinType::Inner), i + 1))
    } else if keyword_at(t, i, "inner"@) {
        p_join_word(t, i + 1, JoinType::Inner)
    } else if keyword_at(t, i, "left"@) {
        p_join_word(t, p_outer(t, i + 1), JoinType::Left)
    } else if keyword_at(t, i, "right"@) {
        p_join_word(t, p_outer(t, i + 1), JoinType::Right)
    } else if keyword_at(t, i, "full"@) {
        p_join_word(t, p_outer(t, i + 1), JoinType::Full)
    } else if keyword_at(t, i, "cross"@) {
        p_join_word(t, i + 1, JoinType::Cross)
    } else {
        Ok((None, i))
    }
}

/// The place behind a word that may be left out.
pub open spec fn p_outer(t: Seq<TokenView>, i: int) -> int {
    if keyword_at(t, i, "outer"@) {
        i + 1
    } else {
        i
    }
}

/// The word that ends the type of a join.
pub open spec fn p_join_word(t: Seq<TokenView>, i: int, j: JoinType) -> Parsed<Option<JoinType>> {
    match p_keyword(t, i, "join"@) {
        Ok((_, k)) => Ok((Some(j), k)),
        Err(e) => Err(e),
    }
}

/// What joined rows have in common.
pub open spec fn p_constraint(t: Seq<TokenView>, i: int) -> Parsed<JoinConstraintView> {
    if keyword_at(t, i, "on"@) {
        match p_expr(t, i + 1) {
            Ok((e, j)) => Ok((JoinConstraintView::On(e), j)),
            Err(e) => Err(e),
        }
    } else if keyword_at(t, i, "using"@) {
        match p_oper(t, i + 1, "("@) {
            Ok((_, j)) => match in_brackets(|k: int| p_ident(t, k), t, j) {
                Ok((v, k)) => Ok((JoinConstraintView::Using(v), k)),
                Err(e) => Err(e),
            },
            Err(e) => Err(e),
        }
    } else {
        Ok((JoinConstraintView::Unconstrained, i))
    }
}

/// A table of a query, without those joined to it.
pub open spec fn p_table_primary(t: Seq<TokenView>, i: int) -> Parsed<TableRefView> {
    match p_table_name(t, i) {
        Ok((name, j)) => match p_alias(t, j) {
            Ok((alias, k)) => Ok((TableRefView { name, alias, joins: seq![] }, k)),
            Err(e) => Err(e),
        },
        Err(e) => Err(e),
    }
}

/// One table that is joined.
pub open spec fn p_join(t: Seq<TokenView>, i: int, join_type: JoinType) -> Parsed<JoinClauseView> {
    match p_table_primary(t, i) {
        Ok((table, j)) => match p_constraint(t, j) {
            Ok((constraint, k)) => Ok((JoinClauseView { join_type, table, constraint }, k)),
            Err(e) => Err(e),
        },
        Err(e) => Err(e),
    }
}

/// The tables that are joined.
pub open spec fn p_joins(t: Seq<TokenView>, i: int) -> Parsed<Seq<JoinClauseView>>
    decreases t.len() - i,
{
    match p_join_type(t, i) {
        Ok((Some(join_type), j)) => match p_join(t, j, join_type) {
            Ok((c, k)) => if i < k <= t.len() {
                prepend(seq![c], p_joins(t, k))
            } else {
                wrong(i, ""@)
            },
            Err(e) => Err(e),
        },
        Ok((None, _)) => Ok((seq![], i)),
        Err(e) => Err(e),
    }
}

/// A table of a query, and those joined to it.
pub open spec fn p_table_ref(t: Seq<TokenView>, i: int) -> Parsed<TableRefView> {
    match p_table_primary(t, i) {
        Ok((table, j)) => match p_joins(t, j) {
            Ok((joins, k)) => Ok((TableRefView { joins, ..table }, k)),
            Err(e) => Err(e),
        },
        Err(e) => Err(e),
    }
}

/// An expression behind a keyword, where the keyword is there.
pub open spec fn p_clause(t: Seq<TokenView>, i: int, k: Seq<char>) -> Parsed<Option<ExprView>> {
    if keyword_at(t, i, k) {
        match p_expr(t, i + 1) {
            Ok((e, j)) => Ok((Some(e), j)),
            Err(e) => Err(e),
        }
    } else {
        Ok((None, i))
    }
}

// -- Statements ------------------------------------------------

/// `CREATE TABLE` behind its first word.
pub open spec fn p_create(t: Seq<TokenView>, i: int) -> Parsed<StatementView> {
    match p_keyword(t, i, "table"@) {
        Ok((_, j)) => match p_table_name(t, j) {
            Ok((name, k)) => match p_oper(t, k, "("@) {
                Ok((_, l)) => match in_brackets(|n: int| p_column_def(t, n), t, l) {
                    Ok((columns, n)) => Ok(
                        (StatementView::CreateTable(CreateTableStmtView { name, columns }), n),
                    ),
                    Err(e) => Err(e),
                },
                Err(e) => Err(e),
            },
            Err(e) => Err(e),
        },
        Err(e) => Err(e),
    }
}

/// `DROP TABLE` behind its first word.
pub open spec fn p_drop(t: Seq<TokenView>, i: int) -> Parsed<StatementView> {
    match p_keyword(t, i, "table"@) {
        Ok((_, j)) => match p_table_name(t, j) {
            Ok((name, k)) => Ok((StatementView::DropTable(DropTableStmtView { name }), k)),
            Err(e) => Err(e),
        },
        Err(e) => Err(e),
    }
}

/// The columns that rows are put into, where they are named.
pub open spec fn p_columns(t: Seq<TokenView>, i: int) -> Parsed<Option<Seq<Seq<char>>>> {
    if oper_at(t, i, "("@) {
        match in_brackets(|n: int| p_ident(t, n), t, i + 1) {
            Ok((v, j)) => Ok((Some(v), j)),
            Err(e) => Err(e),
        }
    } else {
        Ok((None, i))
    }
}

/// `INSERT` behind its first word.
pub open spec fn p_insert(t: Seq<TokenView>, i: int) -> Parsed<StatementView> {
    match p_keyword(t, i, "into"@) {
        Ok((_, j)) => match p_table_name(t, j) {
            Ok((table, k)) => match p_columns(t, k) {
                Ok((columns, l)) => match p_keyword(t, l, "values"@) {
                    Ok((_, n)) => match list_of(|x: int| p_row(t, x), t, n) {
                        Ok((rows, o)) => Ok(
                            (StatementView::Insert(InsertStmtView { table, columns, rows }), o),
                        ),
                        Err(e) => Err(e),
                    },
                    Err(e) => Err(e),
                },
                Err(e) => Err(e),
            },
            Err(e) => Err(e),
        },
        Err(e) => Err(e),
    }
}

/// The tables of a query, where they are named.
pub open spec fn p_from(t: Seq<TokenView>, i: int) -> Parsed<Option<TableRefView>> {
    if keyword_at(t, i, "from"@) {
        match p_table_ref(t, i + 1) {
            Ok((r, j)) => Ok((Some(r), j)),
            Err(e) => Err(e),
        }
    } else {
        Ok((None, i))
    }
}

/// What the rows of a query are ordered by, where it is said.
pub open spec fn p_order(t: Seq<TokenView>, i: int) -> Parsed<Seq<OrderByItemView>> {
    if keyword_at(t, i, "order"@) {
        match p_keyword(t, i + 1, "by"@) {
            Ok((_, j)) => list_of(|n: int| p_order_item(t, n), t, j),
            Err(e) => Err(e),
        }
    } else {
        Ok((seq![], i))
    }
}

/// `SELECT` behind its first word.
pub open spec fn p_select(t: Seq<TokenView>, i: int) -> Parsed<StatementView> {
    match list_of(|n: int| p_select_item(t, n), t, i) {
        Ok((projection, j)) => match p_from(t, j) {
            Ok((from, k)) => match p_clause(t, k, "where"@) {
                Ok((where_clause, l)) => match p_order(t, l) {
                    Ok((order_by, n)) => match p_clause(t, n, "limit"@) {
                        Ok((limit, o)) => Ok(
                            (
                                StatementView::Select(
                                    SelectStmtView {
                                        projection,
                                        from,
                                        where_clause,
                                        order_by,
                                        limit,
                                    },
                                ),
                                o,
                            ),
                        ),
                        Err(e) => Err(e),
                    },
                    Err(e) => Err(e),
                },
                Err(e) => Err(e),
            },
            Err(e) => Err(e),
        },
        Err(e) => Err(e),
    }
}

/// `UPDATE` behind its first word.
pub open spec fn p_update(t: Seq<TokenView>, i: int) -> Parsed<StatementView> {
    match p_table_name(t, i) {
        Ok((table, j)) => match p_keyword(t, j, "set"@) {
            Ok((_, k)) => match list_of(|n: int| p_assignment(t, n), t, k) {
                Ok((assignments, l)) => match p_clause(t, l, "where"@) {
                    Ok((where_clause, n)) => Ok(
                        (
                            StatementView::Update(
                                UpdateStmtView { table, assignments, where_clause },
                            ),
                            n,
                        ),
                    ),
                    Err(e) => Err(e),
                },
                Err(e) => Err(e),
            },
            Err(e) => Err(e),
        },
        Err(e) => Err(e),
    }
}

/// `DELETE` behind its first word.
pub open spec fn p_delete(t: Seq<TokenView>, i: int) -> Parsed<StatementView> {
    match p_keyword(t, i, "from"@) {
        Ok((_, j)) => match p_table_name(t, j) {
            Ok((table, k)) => match p_clause(t, k, "where"@) {
                Ok((where_clause, l)) => Ok(
                    (StatementView::Delete(DeleteStmtView { table, where_clause }), l),
                ),
                Err(e) => Err(e),
            },
            Err(e) => Err(e),
        },
        Err(e) => Err(e),
    }
}

/// A statement about transactions behind its first word.
pub open spec fn p_transaction(
    t: Seq<TokenView>,
    i: int,
    kind: TransactionKind,
) -> Parsed<StatementView> {
    let s = StatementView::Transaction(TransactionStmt { kind });
    if keyword_at(t, i, "transaction"@) {
        Ok((s, i + 1))
    } else {
        Ok((s, i))
    }
}

/// A statement.
pub open spec fn p_statement(t: Seq<TokenView>, i: int) -> Parsed<StatementView> {
    if keyword_at(t, i, "create"@) {
        p_create(t, i + 1)
    } else if keyword_at(t, i, "drop"@) {
        p_drop(t, i + 1)
    } else if keyword_at(t, i, "insert"@) {
        p_insert(t, i + 1)
    } else if keyword_at(t, i, "select"@) {
        p_select(t, i + 1)
    } else if keyword_at(t, i, "update"@) {
        p_update(t, i + 1)
    } else if keyword_at(t, i, "delete"@) {
        p_delete(t, i + 1)
    } else if keyword_at(t, i, "begin"@) {
        p_transaction(t, i + 1, TransactionKind::Begin)
    } else if keyword_at(t, i, "commit"@) {
        p_transaction(t, i + 1, TransactionKind::Commit)
    } else if keyword_at(t, i, "rollback"@) {
        p_transaction(t, i + 1, TransactionKind::Rollback)
    } else {
        wrong(i, "expected statement"@)
    }
}

/// The place behind semicolons.
pub open spec fn p_semicolons(t: Seq<TokenView>, i: int) -> int
    decreases t.len() - i,
{
    if 0 <= i < t.len() && oper_at(t, i, ";"@) {
        p_semicolons(t, i + 1)
    } else {
        i
    }
}

/// Statements up to the end, with semicolons between them.
pub open spec fn p_statements(t: Seq<TokenView>, i: int) -> Parsed<Seq<StatementView>>
    decreases t.len() - i,
{
    if i >= t.len() {
        Ok((seq![], i))
    } else {
        match p_statement(t, i) {
            Ok((s, j)) => if i < j <= t.len() {
                if oper_at(t, j, ";"@) || j >= t.len() {
                    let k = p_semicolons(t, j);
                    if j <= k <= t.len() {
                        prepend(seq![s], p_statements(t, k))
                    } else {
                        wrong(i, ""@)
                    }
                } else {
                    wrong(j, "expected ';' between statements"@)
                }
            } else {
                wrong(i, ""@)
            },
            Err(e) => Err(e),
        }
    }
}

/// All statements of a text.
pub open spec fn p_root(t: Seq<TokenView>, i: int) -> Parsed<RootNodeView> {
    match p_statements(t, p_semicolons(t, i)) {
        Ok((statements, j)) => Ok((RootNodeView { statements }, j)),
        Err(e) => Err(e),
    }
}

/// Where semicolons stand in a row, it is all one how many of them are skipped first:
/// the place behind them is the same, and so are the statements that follow.
pub proof fn semicolons_in_a_row(t: Seq<TokenView>, i: int, k: int)
    requires
        0 <= i <= k <= t.len(),
        forall|j: int| i <= j < k ==> #[trigger] oper_at(t, j, ";"@),
    ensures
        p_semicolons(t, i) == p_semicolons(t, k),
        p_root(t, i) == p_root(t, k),
    decreases k - i,
{
    if i < k {
        assert(oper_at(t, i, ";"@));
        semicolons_in_a_row(t, i + 1, k);
    }
}

/// Statements are the same however many semicolons stand behind the first of them.
pub proof fn semicolons_between(t: Seq<TokenView>, i: int, k: int)
    requires
        0 <= i < t.len(),
        p_statement(t, i) matches Ok((s, j)) && i < j < k <= t.len() && (forall|n: int|
            j <= n < k ==> #[trigger] oper_at(t, n, ";"@)),
    ensures
        p_statement(t, i) matches Ok((s, j)) && p_statements(t, i) == prepend(
            seq![s],
            p_statements(t, p_semicolons(t, k)),
        ),
{
    let j = (p_statement(t, i)->Ok_0).1;
    semicolons_in_a_row(t, j, k);
    assert(oper_at(t, j, ";"@));
    behind_semicolons(t, j);
}

/// Skipping semicolons does not go back.
proof fn behind_semicolons(t: Seq<TokenView>, i: int)
    requires
        0 <= i <= t.len(),
    ensures
        i <= p_semicolons(t, i) <= t.len(),
    decreases t.len() - i,
{
    if i < t.len() && oper_at(t, i, ";"@) {
        behind_semicolons(t, i + 1);
    }
}

} // verus!
