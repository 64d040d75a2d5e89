//! From tokens to statements.
use vstd::prelude::*;
use vstd::string::StringExecFns;
use vstd::utf8::encode_utf8;

use crate::engine::bytes::bytes_eq;
use crate::engine::value::text_from_bytes;
use crate::sql::ast::{
    call_view, expr_lists, expr_views, join_clause_views, label, order_by_item_views,
    select_item_views, assignment_views, statement_views, table_ref_parts, texts, Assignment,
    BinaryOp, ColumnRef, CreateTableStmt, DeleteStmt, DropTableStmt, Expr, ExprView, InsertStmt,
    JoinClause, JoinConstraint, JoinType, Literal, OrderByItem, OrderDirection, RootNode,
    SelectItem, SelectItemKind, SelectStmt, Statement, TableName, TableRef, TableRefView,
    TransactionKind, TransactionStmt, UnaryOp, UpdateStmt,
};
use crate::sql::grammar::{
    alias_at, binary_at, clause_word, const_at, in_brackets, keyword_at, list_of, literal_of,
    oper_at, p_alias, p_args, p_assignment, p_clause, p_column_def, p_column_rules, p_constraint,
    p_create, p_delete, p_drop, p_expr, p_exprs, p_ident, p_insert, p_join, p_join_type, p_joins,
    p_keyword, p_level, p_oper, p_order_item, p_primary, p_rest, p_root, p_row, p_select,
    p_select_item, p_semicolons, p_statement, p_statements, p_table_name, p_table_primary,
    p_table_ref, p_type_name, p_unary, p_update, prepend, prepend_nothing, prepend_push, Parsed,
};
use crate::sql::lexer::{lex_sqlexpr, token_views, tokens_from, TokenType, TokenView};
use crate::sql::schema::{column_def_views, ColumnDef};
use crate::sql::text::{bytes_match, fraction, has_point, join3, names_match, parse_integer, shorten};

verus! {

/// Where the tokens are no statement, and why.
#[derive(Debug, PartialEq)]
pub struct ParseError {
    pub pos: usize,
    pub message: String,
}

impl ParseError {
    fn new(pos: usize, message: &str) -> (r: Self)
        ensures
            r.pos == pos,
            r.message@ == message@,
    {
        ParseError { pos, message: String::from_str(message) }
    }

    /// What the error says.
    pub fn text(&self) -> (r: String)
        ensures
            r@ == "parse error at token "@ + crate::sql::text::decimal(self.pos as nat) + ": "@
                + self.message@,
    {
        let mut s = String::from_str("parse error at token ");
        crate::sql::text::push_decimal(&mut s, self.pos as u64);
        s.append(": ");
        s.append(self.message.as_str());
        s
    }
}

/// Tokens and a place among them.
#[derive(Debug)]
pub struct Parser {
    tokens: Vec<TokenType>,
    pos: usize,
}

/// Reads all statements of a text.
pub fn parse_sql(sql: &str) -> (r: Result<RootNode, ParseError>)
    ensures
        match r {
            Ok(root) => p_root(tokens_from(encode_utf8(sql@), 0), 0) matches Ok((v, _)) && v
                == root@,
            Err(e) => p_root(tokens_from(encode_utf8(sql@), 0), 0) == Err::<
                (crate::sql::ast::RootNodeView, int),
                (int, Seq<char>),
            >((e.pos as int, e.message@)),
        },
{
    parse_tokens(lex_sqlexpr(sql.as_bytes()))
}

/// Reads all statements that tokens spell.
pub fn parse_tokens(tokens: Vec<TokenType>) -> (r: Result<RootNode, ParseError>)
    ensures
        match r {
            Ok(root) => p_root(token_views(tokens@), 0) matches Ok((v, _)) && v == root@,
            Err(e) => p_root(token_views(tokens@), 0) == Err::<
                (crate::sql::ast::RootNodeView, int),
                (int, Seq<char>),
            >((e.pos as int, e.message@)),
        },
{
    let mut parser = Parser::new(tokens);
    parser.parse_root()
}

/// Whether a parser went on by what the grammar says.
pub open spec fn went<T>(p: Parsed<T>, a: Parser, b: Parser, v: T) -> bool {
    &&& b.tokens_view() == a.tokens_view()
    &&& a.place() < b.place() <= a.tokens_view().len()
    &&& p == Ok::<(T, int), (int, Seq<char>)>((v, b.place() as int))
}

/// Whether a parser went on, or stayed, by what the grammar says.
pub open spec fn moved<T>(p: Parsed<T>, a: Parser, b: Parser, v: T) -> bool {
    &&& b.tokens_view() == a.tokens_view()
    &&& a.place() <= b.place() <= a.tokens_view().len()
    &&& p == Ok::<(T, int), (int, Seq<char>)>((v, b.place() as int))
}

/// Whether a parser stopped with the error of the grammar.
pub open spec fn erred<T>(p: Parsed<T>, a: Parser, b: Parser, e: ParseError) -> bool {
    &&& b.tokens_view() == a.tokens_view()
    &&& b.place() <= a.tokens_view().len()
    &&& p == Err::<(T, int), (int, Seq<char>)>((e.pos as int, e.message@))
}

impl Parser {
    /// The tokens.
    pub closed spec fn tokens_view(&self) -> Seq<TokenView> {
        token_views(self.tokens@)
    }

    /// The place among them.
    pub closed spec fn place(&self) -> nat {
        self.pos as nat
    }

    /// Whether the place is among the tokens or behind them.
    pub open spec fn wf(&self) -> bool {
        self.place() <= self.tokens_view().len()
    }

    /// A parser at the first token.
    pub fn new(tokens: Vec<TokenType>) -> (r: Self)
        ensures
            r.tokens_view() == token_views(tokens@),
            r.place() == 0,
            r.wf(),
    {
        Parser { tokens, pos: 0 }
    }

    fn error(&self, message: &str) -> (r: ParseError)
        ensures
            r.pos == self.pos,
            r.message@ == message@,
    {
        ParseError::new(self.pos, message)
    }

    fn peek(&self) -> (r: Option<&TokenType>)
        ensures
            r is Some <==> self.pos < self.tokens@.len(),
            r matches Some(t) ==> *t == self.tokens@[self.pos as int],
            self.tokens@.len() <= usize::MAX,
    {
        if self.pos < self.tokens.len() {
            Some(&self.tokens[self.pos])
        } else {
            None
        }
    }

    fn is_eof(&self) -> (r: bool)
        ensures
            r == (self.place() >= self.tokens_view().len()),
    {
        self.pos >= self.tokens.len()
    }

    fn check_oper(&self, oper: &str) -> (r: bool)
        ensures
            r == oper_at(self.tokens_view(), self.place() as int, oper@),
            self.tokens@.len() <= usize::MAX,
    {
        match self.peek() {
            Some(TokenType::Oper(bytes)) => {
                assert(self.tokens_view()[self.pos as int] == self.tokens@[self.pos as int]@);
                bytes_eq(bytes.as_slice(), oper.as_bytes())
            },
            _ => {
                assert(self.pos < self.tokens@.len() ==> self.tokens_view()[self.pos as int]
                    == self.tokens@[self.pos as int]@);
                false
            },
        }
    }

    fn consume_oper(&mut self, oper: &str) -> (r: bool)
        requires
            old(self).wf(),
        ensures
            final(self).tokens_view() == old(self).tokens_view(),
            r == oper_at(old(self).tokens_view(), old(self).place() as int, oper@),
            r ==> final(self).place() == old(self).place() + 1,
            !r ==> final(self).place() == old(self).place(),
            final(self).wf(),
    {
        if self.check_oper(oper) {
            self.pos = self.pos + 1;
            true
        } else {
            false
        }
    }

    fn consume_keyword(&mut self, keyword: &str) -> (r: bool)
        requires
            old(self).wf(),
        ensures
            final(self).tokens_view() == old(self).tokens_view(),
            r == keyword_at(old(self).tokens_view(), old(self).place() as int, keyword@),
            r ==> final(self).place() == old(self).place() + 1,
            !r ==> final(self).place() == old(self).place(),
            final(self).wf(),
    {
        assert(self.pos < self.tokens@.len() ==> self.tokens_view()[self.pos as int]
            == self.tokens@[self.pos as int]@);
        let found = match self.peek() {
            Some(TokenType::Ident(bytes)) => bytes_match(bytes.as_slice(), keyword.as_bytes()),
            _ => false,
        };
        if found {
            self.pos = self.pos + 1;
        }
        found
    }

    fn expect_keyword(&mut self, keyword: &str) -> (r: Result<(), ParseError>)
        requires
            old(self).wf(),
        ensures
            final(self).wf(),
            ({
                let p = p_keyword(old(self).tokens_view(), old(self).place() as int, keyword@);
                match r {
                    Ok(v) => went(p, *old(self), *final(self), v),
                    Err(e) => erred(p, *old(self), *final(self), e),
                }
            }),
    {
        if self.consume_keyword(keyword) {
            Ok(())
        } else {
            let message = join3("expected keyword '", keyword, "'");
            Err(self.error(message.as_str()))
        }
    }

    fn expect_oper(&mut self, oper: &str) -> (r: Result<(), ParseError>)
        requires
            old(self).wf(),
        ensures
            final(self).wf(),
            ({
                let p = p_oper(old(self).tokens_view(), old(self).place() as int, oper@);
                match r {
                    Ok(v) => went(p, *old(self), *final(self), v),
                    Err(e) => erred(p, *old(self), *final(self), e),
                }
            }),
    {
        if self.consume_oper(oper) {
            Ok(())
        } else {
            let message = join3("expected operator '", oper, "'");
            Err(self.error(message.as_str()))
        }
    }

    fn expect_ident(&mut self) -> (r: Result<String, ParseError>)
        requires
            old(self).wf(),
        ensures
            final(self).wf(),
            ({
                let p = p_ident(old(self).tokens_view(), old(self).place() as int);
                match r {
                    Ok(v) => went(p, *old(self), *final(self), v@),
                    Err(e) => erred(p, *old(self), *final(self), e),
                }
            }),
    {
        assert(self.pos < self.tokens@.len() ==> self.tokens_view()[self.pos as int]
            == self.tokens@[self.pos as int]@);
        let found = match self.peek() {
            Some(TokenType::Ident(bytes)) => Some(text_from_bytes(bytes.as_slice())),
            _ => None,
        };
        match found {
            Some(s) => {
                self.pos = self.pos + 1;
                Ok(s)
            },
            None => Err(self.error("expected identifier")),
        }
    }

    fn consume_const(&mut self) -> (r: Option<String>)
        requires
            old(self).wf(),
        ensures
            final(self).wf(),
            final(self).tokens_view() == old(self).tokens_view(),
            label(r) == const_at(old(self).tokens_view(), old(self).place() as int),
            r is Some ==> final(self).place() == old(self).place() + 1,
            r is None ==> final(self).place() == old(self).place(),
    {
        assert(self.pos < self.tokens@.len() ==> self.tokens_view()[self.pos as int]
            == self.tokens@[self.pos as int]@);
        let found = match self.peek() {
            Some(TokenType::Const(bytes)) => Some(text_from_bytes(bytes.as_slice())),
            _ => None,
        };
        if found.is_some() {
            self.pos = self.pos + 1;
        }
        found
    }

    fn expect_const_string(&mut self) -> (r: Result<String, ParseError>)
        requires
            old(self).wf(),
        ensures
            final(self).wf(),
            final(self).tokens_view() == old(self).tokens_view(),
            ({
                let c = const_at(old(self).tokens_view(), old(self).place() as int);
                match r {
                    Ok(v) => c == Some(v@) && final(self).place() == old(self).place() + 1,
                    Err(e) => c is None && e.pos == old(self).place() && e.message@
                        == "expected constant"@,
                }
            }),
    {
        match self.consume_const() {
            Some(s) => Ok(s),
            None => Err(self.error("expected constant")),
        }
    }

    fn next_ident_is_alias(&self) -> (r: bool)
        ensures
            r == alias_at(self.tokens_view(), self.place() as int),
    {
        assert(self.pos < self.tokens@.len() ==> self.tokens_view()[self.pos as int]
            == self.tokens@[self.pos as int]@);
        match self.peek() {
            Some(TokenType::Ident(bytes)) => {
                let ident = text_from_bytes(bytes.as_slice());
                !is_clause_keyword(ident.as_str())
            },
            _ => false,
        }
    }

    fn consume_semicolons(&mut self)
        requires
            old(self).wf(),
        ensures
            final(self).tokens_view() == old(self).tokens_view(),
            final(self).place() == p_semicolons(old(self).tokens_view(), old(self).place() as int),
            old(self).place() <= final(self).place(),
            final(self).wf(),
    {
        let ghost t = self.tokens_view();
        let ghost start = self.place() as int;
        let mut more = true;
        while more
            invariant
                self.wf(),
                self.tokens_view() == t,
                start <= self.place(),
                p_semicolons(t, start) == p_semicolons(t, self.place() as int),
                !more ==> self.place() == p_semicolons(t, start),
            decreases t.len() - self.place() + (if more {
                1int
            } else {
                0int
            }),
        {
            more = self.consume_oper(";");
        }
    }

    fn parse_alias(&mut self) -> (r: Result<Option<String>, ParseError>)
        requires
            old(self).wf(),
        ensures
            final(self).wf(),
            ({
                let p = p_alias(old(self).tokens_view(), old(self).place() as int);
                match r {
                    Ok(v) => moved(p, *old(self), *final(self), label(v)),
                    Err(e) => erred(p, *old(self), *final(self), e),
                }
            }),
    {
        if self.consume_keyword("as") {
            match self.expect_ident() {
                Ok(a) => Ok(Some(a)),
                Err(e) => Err(e),
            }
        } else if self.next_ident_is_alias() {
            match self.expect_ident() {
                Ok(a) => Ok(Some(a)),
                Err(e) => Err(e),
            }
        } else {
            Ok(None)
        }
    }

    // -- Expressions -------------------------------------------

    fn consume_binary(&mut self, level: usize) -> (r: Option<BinaryOp>)
        requires
            old(self).wf(),
            level <= 4,
        ensures
            final(self).wf(),
            final(self).tokens_view() == old(self).tokens_view(),
            r == binary_at(old(self).tokens_view(), old(self).place() as int, level as nat),
            r is Some ==> final(self).place() == old(self).place() + 1,
            r is None ==> final(self).place() == old(self).place(),
    {
        if level == 0 {
            if self.consume_oper("*") {
                Some(BinaryOp::Multiply)
            } else if self.consume_oper("/") {
                Some(BinaryOp::Divide)
            } else {
                None
            }
        } else if level == 1 {
            if self.consume_oper("+") {
                Some(BinaryOp::Add)
            } else if self.consume_oper("-") {
                Some(BinaryOp::Subtract)
            } else {
                None
            }
        } else if level == 2 {
            self.consume_comparison_op()
        } else if level == 3 {
            if self.consume_keyword("and") {
                Some(BinaryOp::And)
            } else {
                None
            }
        } else if self.consume_keyword("or") {
            Some(BinaryOp::Or)
        } else {
            None
        }
    }

    fn consume_comparison_op(&mut self) -> (r: Option<BinaryOp>)
        requires
            old(self).wf(),
        ensures
            final(self).wf(),
            final(self).tokens_view() == old(self).tokens_view(),
            r == binary_at(old(self).tokens_view(), old(self).place() as int, 2),
            r is Some ==> final(self).place() == old(self).place() + 1,
            r is None ==> final(self).place() == old(self).place(),
    {
        if self.consume_oper("=") {
            Some(BinaryOp::Eq)
        } else if self.consume_oper("==") {
            Some(BinaryOp::Eq)
        } else if self.consume_oper("!=") {
            Some(BinaryOp::Ne)
        } else if self.consume_oper("<>") {
            Some(BinaryOp::Ne)
        } else if self.consume_oper("<=") {
            Some(BinaryOp::Le)
        } else if self.consume_oper(">=") {
            Some(BinaryOp::Ge)
        } else if self.consume_oper("<") {
            Some(BinaryOp::Lt)
        } else if self.consume_oper(">") {
            Some(BinaryOp::Gt)
        } else {
            None
        }
    }

    /// Reads an expression.
    pub fn parse_expr(&mut self) -> (r: Result<Expr, ParseError>)
        requires
            old(self).wf(),
        ensures
            final(self).wf(),
            ({
                let p = p_expr(old(self).tokens_view(), old(self).place() as int);
                match r {
                    Ok(v) => went(p, *old(self), *final(self), v@),
                    Err(e) => erred(p, *old(self), *final(self), e),
                }
            }),
        decreases old(self).tokens_view().len() - old(self).place(), 8nat,
    {
        self.parse_level(4)
    }

    /// Reads operands with operators of a level between them.
    fn parse_level(&mut self, level: usize) -> (r: Result<Expr, ParseError>)
        requires
            old(self).wf(),
            level <= 4,
        ensures
            final(self).wf(),
            ({
                let p = p_level(old(self).tokens_view(), old(self).place() as int, level as nat);
                match r {
                    Ok(v) => went(p, *old(self), *final(self), v@),
                    Err(e) => erred(p, *old(self), *final(self), e),
                }
            }),
        decreases old(self).tokens_view().len() - old(self).place(), 3 + level,
    {
        let ghost t = self.tokens_view();
        let ghost start = self.place() as int;
        let first = if level == 0 {
            self.parse_unary()
        } else {
            self.parse_level(level - 1)
        };
        let mut expr = match first {
            Ok(e) => e,
            Err(e) => return Err(e),
        };
        loop
            invariant
                self.wf(),
                level <= 4,
                t == old(self).tokens_view(),
                start == old(self).place(),
                self.tokens_view() == t,
                start < self.place() <= t.len(),
                p_level(t, start, level as nat) == p_rest(
                    t,
                    self.place() as int,
                    level as nat,
                    expr@,
                ),
            decreases t.len() - self.place(),
        {
            let op = match self.consume_binary(level) {
                Some(op) => op,
                None => return Ok(expr),
            };
            let next = if level == 0 {
                self.parse_unary()
            } else {
                self.parse_level(level - 1)
            };
            let right = match next {
                Ok(e) => e,
                Err(e) => return Err(e),
            };
            let ghost l = expr@;
            let ghost r = right@;
            expr = Expr::Binary { left: Box::new(expr), op, right: Box::new(right) };
            assert(expr@ == (ExprView::Binary { left: Box::new(l), op, right: Box::new(r) }));
        }
    }

    fn parse_unary(&mut self) -> (r: Result<Expr, ParseError>)
        requires
            old(self).wf(),
        ensures
            final(self).wf(),
            ({
                let p = p_unary(old(self).tokens_view(), old(self).place() as int);
                match r {
                    Ok(v) => went(p, *old(self), *final(self), v@),
                    Err(e) => erred(p, *old(self), *final(self), e),
                }
            }),
        decreases old(self).tokens_view().len() - old(self).place(), 2nat,
    {
        let op = if self.consume_keyword("not") {
            Some(UnaryOp::Not)
        } else if self.consume_oper("-") {
            Some(UnaryOp::Negate)
        } else if self.consume_oper("+") {
            Some(UnaryOp::Positive)
        } else {
            None
        };
        match op {
            Some(op) => match self.parse_unary() {
                Ok(e) => Ok(Expr::Unary { op, expr: Box::new(e) }),
                Err(e) => Err(e),
            },
            None => self.parse_primary(),
        }
    }

    fn parse_primary(&mut self) -> (r: Result<Expr, ParseError>)
        requires
            old(self).wf(),
        ensures
            final(self).wf(),
            ({
                let p = p_primary(old(self).tokens_view(), old(self).place() as int);
                match r {
                    Ok(v) => went(p, *old(self), *final(self), v@),
                    Err(e) => erred(p, *old(self), *final(self), e),
                }
            }),
        decreases old(self).tokens_view().len() - old(self).place(), 1nat,
    {
        broadcast use call_view;

        let ghost t = self.tokens_view();
        let ghost start = self.place() as int;
        if self.consume_oper("(") {
            let expr = match self.parse_expr() {
                Ok(e) => e,
                Err(e) => return Err(e),
            };
            match self.expect_oper(")") {
                Ok(_) => {},
                Err(e) => return Err(e),
            }
            return Ok(expr);
        }
        if self.consume_keyword("null") {
            return Ok(Expr::Literal(Literal::Null));
        }
        if let Some(value) = self.consume_const() {
            return Ok(Expr::Literal(literal(value)));
        }
        let name = match self.expect_ident() {
            Ok(s) => s,
            Err(e) => return Err(e),
        };
        if self.consume_oper("(") {
            let args = match self.parse_args() {
                Ok(v) => v,
                Err(e) => return Err(e),
            };
            match self.expect_oper(")") {
                Ok(_) => {},
                Err(e) => return Err(e),
            }
            return Ok(Expr::FunctionCall { name, args });
        }
        if self.consume_oper(".") {
            match self.expect_ident() {
                Ok(column) => Ok(Expr::Column(ColumnRef { table: Some(name), name: column })),
                Err(e) => Err(e),
            }
        } else {
            Ok(Expr::Column(ColumnRef { table: None, name }))
        }
    }

    /// Reads expressions with commas between them, or none before a closing
    /// bracket.
    fn parse_args(&mut self) -> (r: Result<Vec<Expr>, ParseError>)
        requires
            old(self).wf(),
        ensures
            final(self).wf(),
            ({
                let p = p_args(old(self).tokens_view(), old(self).place() as int);
                match r {
                    Ok(v) => moved(p, *old(self), *final(self), expr_views(v@)),
                    Err(e) => erred(p, *old(self), *final(self), e),
                }
            }),
        decreases old(self).tokens_view().len() - old(self).place(), 9nat,
    {
        let ghost t = self.tokens_view();
        let ghost start = self.place() as int;
        let mut exprs: Vec<Expr> = Vec::new();
        if self.check_oper(")") {
            assert(expr_views(exprs@) =~= seq![]);
            return Ok(exprs);
        }
        proof {
            assert(expr_views(exprs@) =~= seq![]);
            prepend_nothing(p_exprs(t, start));
        }
        loop
            invariant
                self.wf(),
                t == old(self).tokens_view(),
                start == old(self).place(),
                self.tokens_view() == t,
                start <= self.place() <= t.len(),
                p_args(t, start) == prepend(expr_views(exprs@), p_exprs(t, self.place() as int)),
            decreases t.len() - self.place(),
        {
            let ghost before = exprs@;
            let ghost here = self.place() as int;
            let e = match self.parse_expr() {
                Ok(e) => e,
                Err(e) => return Err(e),
            };
            let ghost ev = e@;
            exprs.push(e);
            proof {
                assert(expr_views(exprs@) =~= expr_views(before).push(ev));
                prepend_push(
                    expr_views(before),
                    ev,
                    p_exprs(t, self.place() + 1int),
                );
            }
            if !self.consume_oper(",") {
                return Ok(exprs);
            }
        }
    }
}

/// What a constant is.
fn literal(value: String) -> (r: Literal)
    ensures
        r@ == literal_of(value@),
{
    if has_point(value.as_str()) && fraction(value.as_str()) {
        return Literal::Real(shorten(value.as_str()));
    }
    match parse_integer(value.as_str()) {
        Some(n) => Literal::Integer(n),
        None => Literal::Text(value),
    }
}

/// Whether a word starts or is part of a clause.
pub fn is_clause_keyword(ident: &str) -> (r: bool)
    ensures
        r == clause_word(ident@),
{
    names_match(ident, "from") || names_match(ident, "where") || names_match(ident, "order")
        || names_match(ident, "by") || names_match(ident, "limit") || names_match(ident, "group")
        || names_match(ident, "having") || names_match(ident, "join") || names_match(ident, "inner")
        || names_match(ident, "left") || names_match(ident, "right") || names_match(ident, "full")
        || names_match(ident, "cross") || names_match(ident, "outer") || names_match(ident, "on")
        || names_match(ident, "using") || names_match(ident, "set") || names_match(ident, "values")
        || names_match(ident, "asc") || names_match(ident, "desc")
}

impl Parser {
    // -- Parts of statements -----------------------------------

    fn parse_table_name(&mut self) -> (r: Result<TableName, ParseError>)
        requires
            old(self).wf(),
        ensures
            final(self).wf(),
            ({
                let p = p_table_name(old(self).tokens_view(), old(self).place() as int);
                match r {
                    Ok(v) => went(p, *old(self), *final(self), v@),
                    Err(e) => erred(p, *old(self), *final(self), e),
                }
            }),
    {
        let first = match self.expect_ident() {
            Ok(v) => v,
            Err(e) => return Err(e),
        };
        if self.consume_oper(".") {
            match self.expect_ident() {
                Ok(name) => Ok(TableName { schema: Some(first), name }),
                Err(e) => Err(e),
            }
        } else {
            Ok(TableName { schema: None, name: first })
        }
    }

    fn parse_type_name(&mut self) -> (r: Result<String, ParseError>)
        requires
            old(self).wf(),
        ensures
            final(self).wf(),
            ({
                let p = p_type_name(old(self).tokens_view(), old(self).place() as int);
                match r {
                    Ok(v) => went(p, *old(self), *final(self), v@),
                    Err(e) => erred(p, *old(self), *final(self), e),
                }
            }),
    {
        let ty = match self.expect_ident() {
            Ok(v) => v,
            Err(e) => return Err(e),
        };
        let mut ty = ty;
        if self.consume_oper("(") {
            let arg = match self.expect_const_string() {
                Ok(s) => s,
                Err(e) => return Err(e),
            };
            match self.expect_oper(")") {
                Ok(_) => {},
                Err(e) => return Err(e),
            }
            ty.append("(");
            ty.append(arg.as_str());
            ty.append(")");
        }
        Ok(ty)
    }

    /// Reads a column of a table.
    fn parse_column_def(&mut self) -> (r: Result<ColumnDef, ParseError>)
        requires
            old(self).wf(),
        ensures
            final(self).wf(),
            ({
                let p = p_column_def(old(self).tokens_view(), old(self).place() as int);
                match r {
                    Ok(v) => went(p, *old(self), *final(self), v@),
                    Err(e) => erred(p, *old(self), *final(self), e),
                }
            }),
    {
        let name = match self.expect_ident() {
            Ok(v) => v,
            Err(e) => return Err(e),
        };
        let col_type = match self.parse_type_name() {
            Ok(v) => v,
            Err(e) => return Err(e),
        };
        let ghost t = self.tokens_view();
        let ghost start = self.place() as int;
        let mut nullable = true;
        let mut is_primary_key = false;
        while !self.is_eof() && !self.check_oper(",") && !self.check_oper(")")
            invariant
                self.wf(),
                t == old(self).tokens_view(),
                self.tokens_view() == t,
                start <= self.place() <= t.len(),
                old(self).place() < start,
                p_ident(t, old(self).place() as int) matches Ok((n, j)) && n == name@ && (
                p_type_name(t, j) matches Ok((c, k)) && c == col_type@ && k == start),
                p_column_rules(t, start, true, false) == p_column_rules(
                    t,
                    self.place() as int,
                    nullable,
                    is_primary_key,
                ),
            decreases t.len() - self.place(),
        {
            if self.consume_keyword("primary") {
                match self.expect_keyword("key") {
                    Ok(_) => {},
                    Err(e) => return Err(e),
                }
                is_primary_key = true;
                nullable = false;
            } else if self.consume_keyword("not") {
                match self.expect_keyword("null") {
                    Ok(_) => {},
                    Err(e) => return Err(e),
                }
                nullable = false;
            } else if self.consume_keyword("null") {
                nullable = true;
            } else {
                return Err(self.error("expected column constraint"));
            }
        }
        Ok(ColumnDef { name, col_type, nullable, is_primary_key })
    }

    /// Reads columns with commas between them.
    fn parse_column_defs(&mut self) -> (r: Result<Vec<ColumnDef>, ParseError>)
        requires
            old(self).wf(),
        ensures
            final(self).wf(),
            ({
                let p = list_of(|n: int| p_column_def(old(self).tokens_view(), n), old(self).tokens_view(), old(self).place() as int);
                match r {
                    Ok(v) => went(p, *old(self), *final(self), column_def_views(v@)),
                    Err(e) => erred(p, *old(self), *final(self), e),
                }
            }),
    {
        let ghost t = self.tokens_view();
        let ghost start = self.place() as int;
        let ghost f = |n: int| p_column_def(t, n);
        let mut items: Vec<ColumnDef> = Vec::new();
        proof {
            assert(column_def_views(items@) =~= seq![]);
            prepend_nothing(list_of(f, t, start));
        }
        loop
            invariant
                self.wf(),
                t == old(self).tokens_view(),
                start == old(self).place(),
                f == (|n: int| p_column_def(t, n)),
                self.tokens_view() == t,
                start <= self.place() <= t.len(),
                list_of(f, t, start) == prepend(
                    column_def_views(items@),
                    list_of(f, t, self.place() as int),
                ),
            decreases t.len() - self.place(),
        {
            let ghost before = items@;
            let ghost here = self.place() as int;
            let e = match self.parse_column_def() {
                Ok(e) => e,
                Err(e) => return Err(e),
            };
            items.push(e);
            proof {
                let ev = column_def_views(items@).last();
                assert(f(here) == p_column_def(t, here));
                assert(column_def_views(items@) =~= column_def_views(before).push(ev));
                prepend_push(column_def_views(before), ev, list_of(f, t, self.place() + 1int));
            }
            if !self.consume_oper(",") {
                return Ok(items);
            }
        }
    }

    /// Reads columns up to a closing bracket.
    fn parse_table_columns(&mut self) -> (r: Result<Vec<ColumnDef>, ParseError>)
        requires
            old(self).wf(),
        ensures
            final(self).wf(),
            ({
                let p = in_brackets(|n: int| p_column_def(old(self).tokens_view(), n), old(self).tokens_view(), old(self).place() as int);
                match r {
                    Ok(v) => went(p, *old(self), *final(self), column_def_views(v@)),
                    Err(e) => erred(p, *old(self), *final(self), e),
                }
            }),
    {
        let mut items: Vec<ColumnDef> = Vec::new();
        assert(column_def_views(items@) =~= seq![]);
        if !self.check_oper(")") {
            items = match self.parse_column_defs() {
                Ok(v) => v,
                Err(e) => return Err(e),
            };
        }
        match self.expect_oper(")") {
            Ok(_) => Ok(items),
            Err(e) => Err(e),
        }
    }

    /// Reads names with commas between them.
    fn parse_idents(&mut self) -> (r: Result<Vec<String>, ParseError>)
        requires
            old(self).wf(),
        ensures
            final(self).wf(),
            ({
                let p = list_of(|n: int| p_ident(old(self).tokens_view(), n), old(self).tokens_view(), old(self).place() as int);
                match r {
                    Ok(v) => went(p, *old(self), *final(self), texts(v@)),
                    Err(e) => erred(p, *old(self), *final(self), e),
                }
            }),
    {
        let ghost t = self.tokens_view();
        let ghost start = self.place() as int;
        let ghost f = |n: int| p_ident(t, n);
        let mut items: Vec<String> = Vec::new();
        proof {
            assert(texts(items@) =~= seq![]);
            prepend_nothing(list_of(f, t, start));
        }
        loop
            invariant
                self.wf(),
                t == old(self).tokens_view(),
                start == old(self).place(),
                f == (|n: int| p_ident(t, n)),
                self.tokens_view() == t,
                start <= self.place() <= t.len(),
                list_of(f, t, start) == prepend(
                    texts(items@),
                    list_of(f, t, self.place() as int),
                ),
            decreases t.len() - self.place(),
        {
            let ghost before = items@;
            let ghost here = self.place() as int;
            let e = match self.expect_ident() {
                Ok(e) => e,
                Err(e) => return Err(e),
            };
            items.push(e);
            proof {
                let ev = texts(items@).last();
                assert(f(here) == p_ident(t, here));
                assert(texts(items@) =~= texts(before).push(ev));
                prepend_push(texts(before), ev, list_of(f, t, self.place() + 1int));
            }
            if !self.consume_oper(",") {
                return Ok(items);
            }
        }
    }

    /// Reads names up to a closing bracket.
    fn parse_names(&mut self) -> (r: Result<Vec<String>, ParseError>)
        requires
            old(self).wf(),
        ensures
            final(self).wf(),
            ({
                let p = in_brackets(|n: int| p_ident(old(self).tokens_view(), n), old(self).tokens_view(), old(self).place() as int);
                match r {
                    Ok(v) => went(p, *old(self), *final(self), texts(v@)),
                    Err(e) => erred(p, *old(self), *final(self), e),
                }
            }),
    {
        let mut items: Vec<String> = Vec::new();
        assert(texts(items@) =~= seq![]);
        if !self.check_oper(")") {
            items = match self.parse_idents() {
                Ok(v) => v,
                Err(e) => return Err(e),
            };
        }
        match self.expect_oper(")") {
            Ok(_) => Ok(items),
            Err(e) => Err(e),
        }
    }

    fn parse_select_item(&mut self) -> (r: Result<SelectItem, ParseError>)
        requires
            old(self).wf(),
        ensures
            final(self).wf(),
            ({
                let p = p_select_item(old(self).tokens_view(), old(self).place() as int);
                match r {
                    Ok(v) => went(p, *old(self), *final(self), v@),
                    Err(e) => erred(p, *old(self), *final(self), e),
                }
            }),
    {
        let kind = if self.consume_oper("*") {
            SelectItemKind::Wildcard
        } else {
            match self.parse_expr() {
                Ok(e) => SelectItemKind::Expr(e),
                Err(e) => return Err(e),
            }
        };
        match self.parse_alias() {
            Ok(alias) => Ok(SelectItem { kind, alias }),
            Err(e) => Err(e),
        }
    }

    /// Reads the columns of a result.
    fn parse_select_items(&mut self) -> (r: Result<Vec<SelectItem>, ParseError>)
        requires
            old(self).wf(),
        ensures
            final(self).wf(),
            ({
                let p = list_of(|n: int| p_select_item(old(self).tokens_view(), n), old(self).tokens_view(), old(self).place() as int);
                match r {
                    Ok(v) => went(p, *old(self), *final(self), select_item_views(v@)),
                    Err(e) => erred(p, *old(self), *final(self), e),
                }
            }),
    {
        let ghost t = self.tokens_view();
        let ghost start = self.place() as int;
        let ghost f = |n: int| p_select_item(t, n);
        let mut items: Vec<SelectItem> = Vec::new();
        proof {
            assert(select_item_views(items@) =~= seq![]);
            prepend_nothing(list_of(f, t, start));
        }
        loop
            invariant
                self.wf(),
                t == old(self).tokens_view(),
                start == old(self).place(),
                f == (|n: int| p_select_item(t, n)),
                self.tokens_view() == t,
                start <= self.place() <= t.len(),
                list_of(f, t, start) == prepend(
                    select_item_views(items@),
                    list_of(f, t, self.place() as int),
                ),
            decreases t.len() - self.place(),
        {
            let ghost before = items@;
            let ghost here = self.place() as int;
            let e = match self.parse_select_item() {
                Ok(e) => e,
                Err(e) => return Err(e),
            };
            items.push(e);
            proof {
                let ev = select_item_views(items@).last();
                assert(f(here) == p_select_item(t, here));
                assert(select_item_views(items@) =~= select_item_views(before).push(ev));
                prepend_push(select_item_views(before), ev, list_of(f, t, self.place() + 1int));
            }
            if !self.consume_oper(",") {
                return Ok(items);
            }
        }
    }

    fn parse_order_by_item(&mut self) -> (r: Result<OrderByItem, ParseError>)
        requires
            old(self).wf(),
        ensures
            final(self).wf(),
            ({
                let p = p_order_item(old(self).tokens_view(), old(self).place() as int);
                match r {
                    Ok(v) => went(p, *old(self), *final(self), v@),
                    Err(e) => erred(p, *old(self), *final(self), e),
                }
            }),
    {
        let expr = match self.parse_expr() {
            Ok(v) => v,
            Err(e) => return Err(e),
        };
        let direction = if self.consume_keyword("desc") {
            OrderDirection::Desc
        } else {
            self.consume_keyword("asc");
            OrderDirection::Asc
        };
        Ok(OrderByItem { expr, direction })
    }

    /// Reads what rows are ordered by.
    fn parse_order_by_items(&mut self) -> (r: Result<Vec<OrderByItem>, ParseError>)
        requires
            old(self).wf(),
        ensures
            final(self).wf(),
            ({
                let p = list_of(|n: int| p_order_item(old(self).tokens_view(), n), old(self).tokens_view(), old(self).place() as int);
                match r {
                    Ok(v) => went(p, *old(self), *final(self), order_by_item_views(v@)),
                    Err(e) => erred(p, *old(self), *final(self), e),
                }
            }),
    {
        let ghost t = self.tokens_view();
        let ghost start = self.place() as int;
        let ghost f = |n: int| p_order_item(t, n);
        let mut items: Vec<OrderByItem> = Vec::new();
        proof {
            assert(order_by_item_views(items@) =~= seq![]);
            prepend_nothing(list_of(f, t, start));
        }
        loop
            invariant
                self.wf(),
                t == old(self).tokens_view(),
                start == old(self).place(),
                f == (|n: int| p_order_item(t, n)),
                self.tokens_view() == t,
                start <= self.place() <= t.len(),
                list_of(f, t, start) == prepend(
                    order_by_item_views(items@),
                    list_of(f, t, self.place() as int),
                ),
            decreases t.len() - self.place(),
        {
            let ghost before = items@;
            let ghost here = self.place() as int;
            let e = match self.parse_order_by_item() {
                Ok(e) => e,
                Err(e) => return Err(e),
            };
            items.push(e);
            proof {
                let ev = order_by_item_views(items@).last();
                assert(f(here) == p_order_item(t, here));
                assert(order_by_item_views(items@) =~= order_by_item_views(before).push(ev));
                prepend_push(order_by_item_views(before), ev, list_of(f, t, self.place() + 1int));
            }
            if !self.consume_oper(",") {
                return Ok(items);
            }
        }
    }

    fn parse_assignment(&mut self) -> (r: Result<Assignment, ParseError>)
        requires
            old(self).wf(),
        ensures
            final(self).wf(),
            ({
                let p = p_assignment(old(self).tokens_view(), old(self).place() as int);
                match r {
                    Ok(v) => went(p, *old(self), *final(self), v@),
                    Err(e) => erred(p, *old(self), *final(self), e),
                }
            }),
    {
        let column = match self.expect_ident() {
            Ok(v) => v,
            Err(e) => return Err(e),
        };
        match self.expect_oper("=") {
            Ok(_) => {},
            Err(e) => return Err(e),
        }
        let value = match self.parse_expr() {
            Ok(v) => v,
            Err(e) => return Err(e),
        };
        Ok(Assignment { column, value })
    }

    /// Reads what columns are set to.
    fn parse_assignments(&mut self) -> (r: Result<Vec<Assignment>, ParseError>)
        requires
            old(self).wf(),
        ensures
            final(self).wf(),
            ({
                let p = list_of(|n: int| p_assignment(old(self).tokens_view(), n), old(self).tokens_view(), old(self).place() as int);
                match r {
                    Ok(v) => went(p, *old(self), *final(self), assignment_views(v@)),
                    Err(e) => erred(p, *old(self), *final(self), e),
                }
            }),
    {
        let ghost t = self.tokens_view();
        let ghost start = self.place() as int;
        let ghost f = |n: int| p_assignment(t, n);
        let mut items: Vec<Assignment> = Vec::new();
        proof {
            assert(assignment_views(items@) =~= seq![]);
            prepend_nothing(list_of(f, t, start));
        }
        loop
            invariant
                self.wf(),
                t == old(self).tokens_view(),
                start == old(self).place(),
                f == (|n: int| p_assignment(t, n)),
                self.tokens_view() == t,
                start <= self.place() <= t.len(),
                list_of(f, t, start) == prepend(
                    assignment_views(items@),
                    list_of(f, t, self.place() as int),
                ),
            decreases t.len() - self.place(),
        {
            let ghost before = items@;
            let ghost here = self.place() as int;
            let e = match self.parse_assignment() {
                Ok(e) => e,
                Err(e) => return Err(e),
            };
            items.push(e);
            proof {
                let ev = assignment_views(items@).last();
                assert(f(here) == p_assignment(t, here));
                assert(assignment_views(items@) =~= assignment_views(before).push(ev));
                prepend_push(assignment_views(before), ev, list_of(f, t, self.place() + 1int));
            }
            if !self.consume_oper(",") {
                return Ok(items);
            }
        }
    }

    fn parse_row(&mut self) -> (r: Result<Vec<Expr>, ParseError>)
        requires
            old(self).wf(),
        ensures
            final(self).wf(),
            ({
                let p = p_row(old(self).tokens_view(), old(self).place() as int);
                match r {
                    Ok(v) => went(p, *old(self), *final(self), expr_views(v@)),
                    Err(e) => erred(p, *old(self), *final(self), e),
                }
            }),
    {
        match self.expect_oper("(") {
            Ok(_) => {},
            Err(e) => return Err(e),
        }
        let row = match self.parse_args() {
            Ok(v) => v,
            Err(e) => return Err(e),
        };
        match self.expect_oper(")") {
            Ok(_) => {},
            Err(e) => return Err(e),
        }
        Ok(row)
    }

    /// Reads rows with commas between them.
    fn parse_rows(&mut self) -> (r: Result<Vec<Vec<Expr>>, ParseError>)
        requires
            old(self).wf(),
        ensures
            final(self).wf(),
            ({
                let p = list_of(|n: int| p_row(old(self).tokens_view(), n), old(self).tokens_view(), old(self).place() as int);
                match r {
                    Ok(v) => went(p, *old(self), *final(self), expr_lists(v@)),
                    Err(e) => erred(p, *old(self), *final(self), e),
                }
            }),
    {
        let ghost t = self.tokens_view();
        let ghost start = self.place() as int;
        let ghost f = |n: int| p_row(t, n);
        let mut items: Vec<Vec<Expr>> = Vec::new();
        proof {
            assert(expr_lists(items@) =~= seq![]);
            prepend_nothing(list_of(f, t, start));
        }
        loop
            invariant
                self.wf(),
                t == old(self).tokens_view(),
                start == old(self).place(),
                f == (|n: int| p_row(t, n)),
                self.tokens_view() == t,
                start <= self.place() <= t.len(),
                list_of(f, t, start) == prepend(
                    expr_lists(items@),
                    list_of(f, t, self.place() as int),
                ),
            decreases t.len() - self.place(),
        {
            let ghost before = items@;
            let ghost here = self.place() as int;
            let e = match self.parse_row() {
                Ok(e) => e,
                Err(e) => return Err(e),
            };
            items.push(e);
            proof {
                let ev = expr_lists(items@).last();
                assert(f(here) == p_row(t, here));
                assert(expr_lists(items@) =~= expr_lists(before).push(ev));
                prepend_push(expr_lists(before), ev, list_of(f, t, self.place() + 1int));
            }
            if !self.consume_oper(",") {
                return Ok(items);
            }
        }
    }

    fn parse_join_type(&mut self) -> (r: Result<Option<JoinType>, ParseError>)
        requires
            old(self).wf(),
        ensures
            final(self).wf(),
            r matches Ok(Some(_)) ==> final(self).place() > old(self).place(),
            ({
                let p = p_join_type(old(self).tokens_view(), old(self).place() as int);
                match r {
                    Ok(v) => moved(p, *old(self), *final(self), v),
                    Err(e) => erred(p, *old(self), *final(self), e),
                }
            }),
    {
        if self.consume_keyword("join") {
            return Ok(Some(JoinType::Inner));
        }
        if self.consume_keyword("inner") {
            return match self.expect_keyword("join") {
                Ok(_) => Ok(Some(JoinType::Inner)),
                Err(e) => Err(e),
            };
        }
        if self.consume_keyword("left") {
            self.consume_keyword("outer");
            return match self.expect_keyword("join") {
                Ok(_) => Ok(Some(JoinType::Left)),
                Err(e) => Err(e),
            };
        }
        if self.consume_keyword("right") {
            self.consume_keyword("outer");
            return match self.expect_keyword("join") {
                Ok(_) => Ok(Some(JoinType::Right)),
                Err(e) => Err(e),
            };
        }
        if self.consume_keyword("full") {
            self.consume_keyword("outer");
            return match self.expect_keyword("join") {
                Ok(_) => Ok(Some(JoinType::Full)),
                Err(e) => Err(e),
            };
        }
        if self.consume_keyword("cross") {
            return match self.expect_keyword("join") {
                Ok(_) => Ok(Some(JoinType::Cross)),
                Err(e) => Err(e),
            };
        }
        Ok(None)
    }

    fn parse_constraint(&mut self) -> (r: Result<JoinConstraint, ParseError>)
        requires
            old(self).wf(),
        ensures
            final(self).wf(),
            ({
                let p = p_constraint(old(self).tokens_view(), old(self).place() as int);
                match r {
                    Ok(v) => moved(p, *old(self), *final(self), v@),
                    Err(e) => erred(p, *old(self), *final(self), e),
                }
            }),
    {
        if self.consume_keyword("on") {
            match self.parse_expr() {
                Ok(e) => Ok(JoinConstraint::On(e)),
                Err(e) => Err(e),
            }
        } else if self.consume_keyword("using") {
            match self.expect_oper("(") {
                Ok(_) => {},
                Err(e) => return Err(e),
            }
            match self.parse_names() {
                Ok(v) => Ok(JoinConstraint::Using(v)),
                Err(e) => Err(e),
            }
        } else {
            Ok(JoinConstraint::Unconstrained)
        }
    }

    fn parse_table_primary(&mut self) -> (r: Result<TableRef, ParseError>)
        requires
            old(self).wf(),
        ensures
            final(self).wf(),
            ({
                let p = p_table_primary(old(self).tokens_view(), old(self).place() as int);
                match r {
                    Ok(v) => went(p, *old(self), *final(self), v@),
                    Err(e) => erred(p, *old(self), *final(self), e),
                }
            }),
    {
        broadcast use table_ref_parts;

        let name = match self.parse_table_name() {
            Ok(v) => v,
            Err(e) => return Err(e),
        };
        let alias = match self.parse_alias() {
            Ok(v) => v,
            Err(e) => return Err(e),
        };
        let joins: Vec<JoinClause> = Vec::new();
        assert(join_clause_views(joins@) =~= seq![]);
        Ok(TableRef { name, alias, joins })
    }

    fn parse_join(&mut self, join_type: JoinType) -> (r: Result<JoinClause, ParseError>)
        requires
            old(self).wf(),
        ensures
            final(self).wf(),
            ({
                let p = p_join(old(self).tokens_view(), old(self).place() as int, join_type);
                match r {
                    Ok(v) => went(p, *old(self), *final(self), v@),
                    Err(e) => erred(p, *old(self), *final(self), e),
                }
            }),
    {
        let table = match self.parse_table_primary() {
            Ok(v) => v,
            Err(e) => return Err(e),
        };
        let constraint = match self.parse_constraint() {
            Ok(v) => v,
            Err(e) => return Err(e),
        };
        Ok(JoinClause { join_type, table, constraint })
    }

    /// Reads the tables of a query.
    fn parse_table_ref(&mut self) -> (r: Result<TableRef, ParseError>)
        requires
            old(self).wf(),
        ensures
            final(self).wf(),
            ({
                let p = p_table_ref(old(self).tokens_view(), old(self).place() as int);
                match r {
                    Ok(v) => went(p, *old(self), *final(self), v@),
                    Err(e) => erred(p, *old(self), *final(self), e),
                }
            }),
    {
        broadcast use table_ref_parts;

        let ghost t = self.tokens_view();
        let ghost begin = self.place() as int;
        let table = match self.parse_table_primary() {
            Ok(v) => v,
            Err(e) => return Err(e),
        };
        let ghost start = self.place() as int;
        let ghost first = table@;
        let mut joins: Vec<JoinClause> = Vec::new();
        proof {
            assert(join_clause_views(joins@) =~= seq![]);
            prepend_nothing(p_joins(t, start));
        }
        loop
            invariant
                self.wf(),
                t == old(self).tokens_view(),
                begin == old(self).place(),
                self.tokens_view() == t,
                begin < start <= self.place() <= t.len(),
                first == table@,
                p_table_primary(t, begin) == Ok::<(TableRefView, int), (int, Seq<char>)>(
                    (first, start),
                ),
                p_joins(t, start) == prepend(
                    join_clause_views(joins@),
                    p_joins(t, self.place() as int),
                ),
            decreases t.len() - self.place(),
        {
            broadcast use table_ref_parts;

            let ghost before = joins@;
            match self.parse_join_type() {
                Err(e) => return Err(e),
                Ok(None) => {
                    assert(join_clause_views(joins@) + Seq::<
                        crate::sql::ast::JoinClauseView,
                    >::empty() =~= join_clause_views(joins@));
                    let TableRef { name, alias, joins: _ } = table;
                    return Ok(TableRef { name, alias, joins });
                },
                Ok(Some(join_type)) => {
                    let clause = match self.parse_join(join_type) {
                        Ok(c) => c,
                        Err(e) => return Err(e),
                    };
                    joins.push(clause);
                    proof {
                        let ev = join_clause_views(joins@).last();
                        assert(join_clause_views(joins@) =~= join_clause_views(before).push(ev));
                        prepend_push(
                            join_clause_views(before),
                            ev,
                            p_joins(t, self.place() as int),
                        );
                    }
                },
            }
        }
    }

    /// Reads an expression behind a keyword, where the keyword is there.
    fn parse_clause(&mut self, keyword: &str) -> (r: Result<Option<Expr>, ParseError>)
        requires
            old(self).wf(),
        ensures
            final(self).wf(),
            ({
                let p = p_clause(old(self).tokens_view(), old(self).place() as int, keyword@);
                match r {
                    Ok(v) => moved(p, *old(self), *final(self), (match v { Some(z) => Some(z@), None => None })),
                    Err(e) => erred(p, *old(self), *final(self), e),
                }
            }),
    {
        if self.consume_keyword(keyword) {
            match self.parse_expr() {
                Ok(e) => Ok(Some(e)),
                Err(e) => Err(e),
            }
        } else {
            Ok(None)
        }
    }

    // -- Statements --------------------------------------------

    fn parse_create(&mut self) -> (r: Result<Statement, ParseError>)
        requires
            old(self).wf(),
        ensures
            final(self).wf(),
            ({
                let p = p_create(old(self).tokens_view(), old(self).place() as int);
                match r {
                    Ok(v) => went(p, *old(self), *final(self), v@),
                    Err(e) => erred(p, *old(self), *final(self), e),
                }
            }),
    {
        match self.expect_keyword("table") {
            Ok(_) => {},
            Err(e) => return Err(e),
        }
        let name = match self.parse_table_name() {
            Ok(v) => v,
            Err(e) => return Err(e),
        };
        match self.expect_oper("(") {
            Ok(_) => {},
            Err(e) => return Err(e),
        }
        let columns = match self.parse_table_columns() {
            Ok(v) => v,
            Err(e) => return Err(e),
        };
        Ok(Statement::CreateTable(CreateTableStmt { name, columns }))
    }

    fn parse_drop(&mut self) -> (r: Result<Statement, ParseError>)
        requires
            old(self).wf(),
        ensures
            final(self).wf(),
            ({
                let p = p_drop(old(self).tokens_view(), old(self).place() as int);
                match r {
                    Ok(v) => went(p, *old(self), *final(self), v@),
                    Err(e) => erred(p, *old(self), *final(self), e),
                }
            }),
    {
        match self.expect_keyword("table") {
            Ok(_) => {},
            Err(e) => return Err(e),
        }
        let name = match self.parse_table_name() {
            Ok(v) => v,
            Err(e) => return Err(e),
        };
        Ok(Statement::DropTable(DropTableStmt { name }))
    }

    fn parse_insert(&mut self) -> (r: Result<Statement, ParseError>)
        requires
            old(self).wf(),
        ensures
            final(self).wf(),
            ({
                let p = p_insert(old(self).tokens_view(), old(self).place() as int);
                match r {
                    Ok(v) => went(p, *old(self), *final(self), v@),
                    Err(e) => erred(p, *old(self), *final(self), e),
                }
            }),
    {
        match self.expect_keyword("into") {
            Ok(_) => {},
            Err(e) => return Err(e),
        }
        let table = match self.parse_table_name() {
            Ok(v) => v,
            Err(e) => return Err(e),
        };
        let columns = if self.consume_oper("(") {
            match self.parse_names() {
                Ok(v) => Some(v),
                Err(e) => return Err(e),
            }
        } else {
            None
        };
        match self.expect_keyword("values") {
            Ok(_) => {},
            Err(e) => return Err(e),
        }
        let rows = match self.parse_rows() {
            Ok(v) => v,
            Err(e) => return Err(e),
        };
        Ok(Statement::Insert(InsertStmt { table, columns, rows }))
    }

    fn parse_select(&mut self) -> (r: Result<Statement, ParseError>)
        requires
            old(self).wf(),
        ensures
            final(self).wf(),
            ({
                let p = p_select(old(self).tokens_view(), old(self).place() as int);
                match r {
                    Ok(v) => went(p, *old(self), *final(self), v@),
                    Err(e) => erred(p, *old(self), *final(self), e),
                }
            }),
    {
        let projection = match self.parse_select_items() {
            Ok(v) => v,
            Err(e) => return Err(e),
        };
        let from = if self.consume_keyword("from") {
            match self.parse_table_ref() {
                Ok(r) => Some(r),
                Err(e) => return Err(e),
            }
        } else {
            None
        };
        let where_clause = match self.parse_clause("where") {
            Ok(v) => v,
            Err(e) => return Err(e),
        };
        let mut order_by: Vec<OrderByItem> = Vec::new();
        assert(order_by_item_views(order_by@) =~= seq![]);
        if self.consume_keyword("order") {
            match self.expect_keyword("by") {
                Ok(_) => {},
                Err(e) => return Err(e),
            }
            order_by = match self.parse_order_by_items() {
                Ok(v) => v,
                Err(e) => return Err(e),
            };
        }
        let limit = match self.parse_clause("limit") {
            Ok(v) => v,
            Err(e) => return Err(e),
        };
        Ok(Statement::Select(SelectStmt { projection, from, where_clause, order_by, limit }))
    }

    fn parse_update(&mut self) -> (r: Result<Statement, ParseError>)
        requires
            old(self).wf(),
        ensures
            final(self).wf(),
            ({
                let p = p_update(old(self).tokens_view(), old(self).place() as int);
                match r {
                    Ok(v) => went(p, *old(self), *final(self), v@),
                    Err(e) => erred(p, *old(self), *final(self), e),
                }
            }),
    {
        let table = match self.parse_table_name() {
            Ok(v) => v,
            Err(e) => return Err(e),
        };
        match self.expect_keyword("set") {
            Ok(_) => {},
            Err(e) => return Err(e),
        }
        let assignments = match self.parse_assignments() {
            Ok(v) => v,
            Err(e) => return Err(e),
        };
        let where_clause = match self.parse_clause("where") {
            Ok(v) => v,
            Err(e) => return Err(e),
        };
        Ok(Statement::Update(UpdateStmt { table, assignments, where_clause }))
    }

    fn parse_delete(&mut self) -> (r: Result<Statement, ParseError>)
        requires
            old(self).wf(),
        ensures
            final(self).wf(),
            ({
                let p = p_delete(old(self).tokens_view(), old(self).place() as int);
                match r {
                    Ok(v) => went(p, *old(self), *final(self), v@),
                    Err(e) => erred(p, *old(self), *final(self), e),
                }
            }),
    {
        match self.expect_keyword("from") {
            Ok(_) => {},
            Err(e) => return Err(e),
        }
        let table = match self.parse_table_name() {
            Ok(v) => v,
            Err(e) => return Err(e),
        };
        let where_clause = match self.parse_clause("where") {
            Ok(v) => v,
            Err(e) => return Err(e),
        };
        Ok(Statement::Delete(DeleteStmt { table, where_clause }))
    }

    /// Reads a statement.
    fn parse_statement(&mut self) -> (r: Result<Statement, ParseError>)
        requires
            old(self).wf(),
        ensures
            final(self).wf(),
            ({
                let p = p_statement(old(self).tokens_view(), old(self).place() as int);
                match r {
                    Ok(v) => went(p, *old(self), *final(self), v@),
                    Err(e) => erred(p, *old(self), *final(self), e),
                }
            }),
    {
        if self.consume_keyword("create") {
            self.parse_create()
        } else if self.consume_keyword("drop") {
            self.parse_drop()
        } else if self.consume_keyword("insert") {
            self.parse_insert()
        } else if self.consume_keyword("select") {
            self.parse_select()
        } else if self.consume_keyword("update") {
            self.parse_update()
        } else if self.consume_keyword("delete") {
            self.parse_delete()
        } else if self.consume_keyword("begin") {
            self.consume_keyword("transaction");
            Ok(Statement::Transaction(TransactionStmt { kind: TransactionKind::Begin }))
        } else if self.consume_keyword("commit") {
            self.consume_keyword("transaction");
            Ok(Statement::Transaction(TransactionStmt { kind: TransactionKind::Commit }))
        } else if self.consume_keyword("rollback") {
            self.consume_keyword("transaction");
            Ok(Statement::Transaction(TransactionStmt { kind: TransactionKind::Rollback }))
        } else {
            Err(self.error("expected statement"))
        }
    }

    /// Reads all statements.
    pub fn parse_root(&mut self) -> (r: Result<RootNode, ParseError>)
        requires
            old(self).wf(),
        ensures
            final(self).wf(),
            ({
                let p = p_root(old(self).tokens_view(), old(self).place() as int);
                match r {
                    Ok(v) => moved(p, *old(self), *final(self), v@),
                    Err(e) => erred(p, *old(self), *final(self), e),
                }
            }),
    {
        let ghost t = self.tokens_view();
        self.consume_semicolons();
        let ghost start = self.place() as int;
        let mut statements: Vec<Statement> = Vec::new();
        proof {
            assert(statement_views(statements@) =~= seq![]);
            prepend_nothing(p_statements(t, start));
        }
        while !self.is_eof()
            invariant
                self.wf(),
                t == old(self).tokens_view(),
                self.tokens_view() == t,
                old(self).place() <= start <= self.place() <= t.len(),
                start == p_semicolons(t, old(self).place() as int),
                p_statements(t, start) == prepend(
                    statement_views(statements@),
                    p_statements(t, self.place() as int),
                ),
            decreases t.len() - self.place(),
        {
            let ghost before = statements@;
            let s = match self.parse_statement() {
                Ok(s) => s,
                Err(e) => return Err(e),
            };
            statements.push(s);
            let ghost j = self.place() as int;
            if !self.consume_oper(";") && !self.is_eof() {
                return Err(self.error("expected ';' between statements"));
            }
            self.consume_semicolons();
            proof {
                let ev = statement_views(statements@).last();
                assert(statement_views(statements@) =~= statement_views(before).push(ev));
                prepend_push(
                    statement_views(before),
                    ev,
                    p_statements(t, self.place() as int),
                );
            }
        }
        assert(statement_views(statements@) + Seq::<crate::sql::ast::StatementView>::empty()
            =~= statement_views(statements@));
        Ok(RootNode { statements })
    }
}

} // verus!
