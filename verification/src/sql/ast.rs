//! What statements are made of.
use vstd::prelude::*;
use vstd::string::StringExecFns;

use crate::engine::bytes::{bytes_eq, copy_range};
use crate::sql::schema::{column_def_views, copy_column_defs, ColumnDef, ColumnDefView};

verus! {

/// Texts.
pub open spec fn texts(s: Seq<String>) -> Seq<Seq<char>> {
    Seq::new(s.len(), |i: int| s[i]@)
}

/// A text that may be missing.
pub open spec fn label(s: Option<String>) -> Option<Seq<char>> {
    match s {
        Some(z) => Some(z@),
        None => None,
    }
}

/// A copy.
pub fn copy_texts(v: &Vec<String>) -> (r: Vec<String>)
    ensures
        texts(r@) == texts(v@),
        r@.len() == v@.len(),
{
    let mut r: Vec<String> = Vec::new();
    let mut i: usize = 0;
    while i < v.len()
        invariant
            i <= v@.len(),
            r@.len() == i,
            forall|j: int| 0 <= j < i ==> (#[trigger] r@[j])@ == v@[j]@,
        decreases v.len() - i,
    {
        r.push(v[i].clone());
        i = i + 1;
    }
    assert(texts(r@) =~= texts(v@));
    r
}

/// Whether two are the same.
pub fn same_label(a: &Option<String>, b: &Option<String>) -> (r: bool)
    ensures
        r == (label(*a) == label(*b)),
{
    match (a, b) {
        (Some(x), Some(y)) => *x == *y,
        (None, None) => true,
        _ => false,
    }
}

/// Whether two lists are the same.
pub fn same_texts(a: &Vec<String>, b: &Vec<String>) -> (r: bool)
    ensures
        r == (texts(a@) == texts(b@)),
{
    let ghost x = texts(a@);
    let ghost y = texts(b@);
    if a.len() != b.len() {
        assert(x.len() != y.len());
        return false;
    }
    let mut i: usize = 0;
    while i < a.len()
        invariant
            i <= a@.len(),
            a@.len() == b@.len(),
            x == texts(a@),
            y == texts(b@),
            forall|j: int| 0 <= j < i ==> #[trigger] x[j] == y[j],
        decreases a.len() - i,
    {
        if a[i] != b[i] {
            assert(x[i as int] != y[i as int]);
            return false;
        }
        i = i + 1;
    }
    assert(x =~= y);
    true
}

/// What a transaction statement does.
#[derive(Clone, Copy, Debug, PartialEq, Eq, Structural)]
pub enum TransactionKind {
    Begin,
    Commit,
    Rollback,
}

/// Which way rows are ordered.
#[derive(Clone, Copy, Debug, PartialEq, Eq, Structural)]
pub enum OrderDirection {
    Asc,
    Desc,
}

/// How tables are joined.
#[derive(Clone, Copy, Debug, PartialEq, Eq, Structural)]
pub enum JoinType {
    Inner,
    Left,
    Right,
    Full,
    Cross,
}

/// An operator with one operand.
#[derive(Clone, Copy, Debug, PartialEq, Eq, Structural)]
pub enum UnaryOp {
    Not,
    Negate,
    Positive,
}

/// An operator with two operands.
#[derive(Clone, Copy, Debug, PartialEq, Eq, Structural)]
pub enum BinaryOp {
    Eq,
    Ne,
    Lt,
    Le,
    Gt,
    Ge,
    And,
    Or,
    Add,
    Subtract,
    Multiply,
    Divide,
}

/// The name of a table.
#[derive(Debug, PartialEq)]
pub struct TableName {
    pub schema: Option<String>,
    pub name: String,
}

/// The name of a table.
#[verifier::ext_equal]
pub struct TableNameView {
    pub schema: Option<Seq<char>>,
    pub name: Seq<char>,
}

/// What is in it.
pub open spec fn table_name_view(e: TableName) -> TableNameView {
    TableNameView { schema: match e.schema { Some(z) => Some(z@), None => None }, name: e.name@ }
}

impl View for TableName {
    type V = TableNameView;

    open spec fn view(&self) -> TableNameView {
        table_name_view(*self)
    }
}

/// A copy.
pub fn copy_table_name(e: &TableName) -> (r: TableName)
    ensures
        r@ == e@,
{
    let r = TableName {
        schema: match (&e.schema) { Some(z) => Some(z.clone()), None => None },
        name: (&e.name).clone(),
    };
    assert(r@ =~~= e@);
    r
}

impl Clone for TableName {
    fn clone(&self) -> (r: Self)
        ensures
            r@ == self@,
    {
        copy_table_name(self)
    }
}

/// Whether two are the same.
pub fn same_table_name(a: &TableName, b: &TableName) -> (r: bool)
    ensures
        r == (a@ == b@),
{
    let r = same_label((&a.schema), (&b.schema)) && *(&a.name) == *(&b.name);
    assert(r == (a@ =~~= b@));
    r
}

/// The name of a column.
#[derive(Debug, PartialEq)]
pub struct ColumnRef {
    pub table: Option<String>,
    pub name: String,
}

/// The name of a column.
#[verifier::ext_equal]
pub struct ColumnRefView {
    pub table: Option<Seq<char>>,
    pub name: Seq<char>,
}

/// What is in it.
pub open spec fn column_ref_view(e: ColumnRef) -> ColumnRefView {
    ColumnRefView { table: match e.table { Some(z) => Some(z@), None => None }, name: e.name@ }
}

impl View for ColumnRef {
    type V = ColumnRefView;

    open spec fn view(&self) -> ColumnRefView {
        column_ref_view(*self)
    }
}

/// A copy.
pub fn copy_column_ref(e: &ColumnRef) -> (r: ColumnRef)
    ensures
        r@ == e@,
{
    let r = ColumnRef {
        table: match (&e.table) { Some(z) => Some(z.clone()), None => None },
        name: (&e.name).clone(),
    };
    assert(r@ =~~= e@);
    r
}

impl Clone for ColumnRef {
    fn clone(&self) -> (r: Self)
        ensures
            r@ == self@,
    {
        copy_column_ref(self)
    }
}

/// Whether two are the same.
pub fn same_column_ref(a: &ColumnRef, b: &ColumnRef) -> (r: bool)
    ensures
        r == (a@ == b@),
{
    let r = same_label((&a.table), (&b.table)) && *(&a.name) == *(&b.name);
    assert(r == (a@ =~~= b@));
    r
}

/// A constant. A real is kept as it was written.
#[derive(Debug, PartialEq)]
pub enum Literal {
    Null,
    Integer(i64),
    Real(String),
    Text(String),
    Blob(Vec<u8>),
}

/// A constant.
#[verifier::ext_equal]
pub enum LiteralView {
    Null,
    Integer(i64),
    Real(Seq<char>),
    Text(Seq<char>),
    Blob(Seq<u8>),
}

/// What is in it.
pub open spec fn literal_view(e: Literal) -> LiteralView {
    match e {
        Literal::Null => LiteralView::Null,
        Literal::Integer(x0) => LiteralView::Integer(x0),
        Literal::Real(x0) => LiteralView::Real(x0@),
        Literal::Text(x0) => LiteralView::Text(x0@),
        Literal::Blob(x0) => LiteralView::Blob(x0@),
    }
}

impl View for Literal {
    type V = LiteralView;

    open spec fn view(&self) -> LiteralView {
        literal_view(*self)
    }
}

/// A copy.
pub fn copy_literal(e: &Literal) -> (r: Literal)
    ensures
        r@ == e@,
{
    let r = match e {
        Literal::Null => Literal::Null,
        Literal::Integer(x0) => Literal::Integer(*x0),
        Literal::Real(x0) => Literal::Real(x0.clone()),
        Literal::Text(x0) => Literal::Text(x0.clone()),
        Literal::Blob(x0) => Literal::Blob(copy_range(x0.as_slice(), 0, x0.len())),
    };
    assert(r@ =~~= e@);
    r
}

impl Clone for Literal {
    fn clone(&self) -> (r: Self)
        ensures
            r@ == self@,
    {
        copy_literal(self)
    }
}

/// Whether two are the same.
pub fn same_literal(a: &Literal, b: &Literal) -> (r: bool)
    ensures
        r == (a@ == b@),
{
    match (a, b) {
        (Literal::Null, Literal::Null) => true,
        (Literal::Integer(a_x0), Literal::Integer(b_x0)) => {
            let r = *a_x0 == *b_x0;
            assert(r == (a@ =~~= b@));
            r
        },
        (Literal::Real(a_x0), Literal::Real(b_x0)) => {
            let r = *a_x0 == *b_x0;
            assert(r == (a@ =~~= b@));
            r
        },
        (Literal::Text(a_x0), Literal::Text(b_x0)) => {
            let r = *a_x0 == *b_x0;
            assert(r == (a@ =~~= b@));
            r
        },
        (Literal::Blob(a_x0), Literal::Blob(b_x0)) => {
            let r = bytes_eq(a_x0.as_slice(), b_x0.as_slice());
            assert(r == (a@ =~~= b@));
            r
        },
        _ => false,
    }
}

/// An expression.
#[derive(Debug, PartialEq)]
pub enum Expr {
    Literal(Literal),
    Column(ColumnRef),
    Unary { op: UnaryOp, expr: Box<Expr> },
    Binary { left: Box<Expr>, op: BinaryOp, right: Box<Expr> },
    FunctionCall { name: String, args: Vec<Expr> },
}

/// An expression.
#[verifier::ext_equal]
pub enum ExprView {
    Literal(LiteralView),
    Column(ColumnRefView),
    Unary { op: UnaryOp, expr: Box<ExprView> },
    Binary { left: Box<ExprView>, op: BinaryOp, right: Box<ExprView> },
    FunctionCall { name: Seq<char>, args: Seq<ExprView> },
}

/// What is in it.
pub open spec fn expr_view(e: Expr) -> ExprView
    decreases e,
{
    match e {
        Expr::Literal(x0) => ExprView::Literal(literal_view(x0)),
        Expr::Column(x0) => ExprView::Column(column_ref_view(x0)),
        Expr::Unary { op, expr } => ExprView::Unary { op: op, expr: Box::new(expr_view(*expr)) },
        Expr::Binary { left, op, right } => ExprView::Binary {
            left: Box::new(expr_view(*left)),
            op: op,
            right: Box::new(expr_view(*right)),
        },
        Expr::FunctionCall { name, args } => ExprView::FunctionCall {
            name: name@,
            args: Seq::new(
                args@.len(),
                |i: int| if 0 <= i < args@.len() { expr_view(args@[i]) } else { arbitrary() },
            ),
        },
    }
}

impl View for Expr {
    type V = ExprView;

    open spec fn view(&self) -> ExprView {
        expr_view(*self)
    }
}

/// What is in each.
pub open spec fn expr_views(s: Seq<Expr>) -> Seq<ExprView> {
    Seq::new(s.len(), |i: int| expr_view(s[i]))
}

/// What is in a call.
pub broadcast proof fn call_view(name: String, args: Vec<Expr>)
    ensures
        #[trigger] expr_view(Expr::FunctionCall { name, args }) == (ExprView::FunctionCall {
            name: name@,
            args: expr_views(args@),
        }),
{
    let e = Expr::FunctionCall { name, args };
    assert(expr_view(e)->args =~= expr_views(args@));
}

/// A copy.
pub fn copy_expr(e: &Expr) -> (r: Expr)
    ensures
        r@ == e@,
    decreases e,
{
    broadcast use call_view;

    let r = match e {
        Expr::Literal(x0) => Expr::Literal(copy_literal(x0)),
        Expr::Column(x0) => Expr::Column(copy_column_ref(x0)),
        Expr::Unary { op, expr } => Expr::Unary { op: *op, expr: Box::new(copy_expr(&**expr)) },
        Expr::Binary { left, op, right } => Expr::Binary {
            left: Box::new(copy_expr(&**left)),
            op: *op,
            right: Box::new(copy_expr(&**right)),
        },
        Expr::FunctionCall { name, args } => Expr::FunctionCall {
            name: name.clone(),
            args: copy_exprs(args),
        },
    };
    assert(r@ =~~= e@);
    r
}

impl Clone for Expr {
    fn clone(&self) -> (r: Self)
        ensures
            r@ == self@,
    {
        copy_expr(self)
    }
}

/// A copy.
pub fn copy_exprs(v: &Vec<Expr>) -> (r: Vec<Expr>)
    ensures
        expr_views(r@) == expr_views(v@),
        r@.len() == v@.len(),
    decreases v,
{
    let mut r: Vec<Expr> = Vec::new();
    let mut i: usize = 0;
    while i < v.len()
        invariant
            i <= v@.len(),
            r@.len() == i,
            forall|j: int| 0 <= j < i ==> (#[trigger] r@[j])@ == v@[j]@,
            decreases_to!(v => v@),
        decreases v.len() - i,
    {
        r.push(copy_expr(&v[i]));
        i = i + 1;
    }
    assert(expr_views(r@) =~= expr_views(v@));
    r
}

/// Whether two are the same.
pub fn same_expr(a: &Expr, b: &Expr) -> (r: bool)
    ensures
        r == (a@ == b@),
    decreases a,
{
    broadcast use call_view;

    match (a, b) {
        (Expr::Literal(a_x0), Expr::Literal(b_x0)) => {
            let r = same_literal(a_x0, b_x0);
            assert(r == (a@ =~~= b@));
            r
        },
        (Expr::Column(a_x0), Expr::Column(b_x0)) => {
            let r = same_column_ref(a_x0, b_x0);
            assert(r == (a@ =~~= b@));
            r
        },
        (Expr::Unary { op: a_op, expr: a_expr }, Expr::Unary { op: b_op, expr: b_expr }) => {
            let r = *a_op == *b_op && same_expr(&**a_expr, &**b_expr);
            assert(r == (a@ =~~= b@));
            r
        },
        (Expr::Binary { left: a_left, op: a_op, right: a_right }, Expr::Binary { left: b_left, op: b_op, right: b_right }) => {
            let r = same_expr(&**a_left, &**b_left) && *a_op == *b_op && same_expr(
                &**a_right,
                &**b_right,
            );
            assert(r == (a@ =~~= b@));
            r
        },
        (Expr::FunctionCall { name: a_name, args: a_args }, Expr::FunctionCall { name: b_name, args: b_args }) => {
            let r = *a_name == *b_name && same_exprs(a_args, b_args);
            assert(r == (a@ =~~= b@));
            r
        },
        _ => false,
    }
}

/// Whether two lists are the same.
pub fn same_exprs(a: &Vec<Expr>, b: &Vec<Expr>) -> (r: bool)
    ensures
        r == (expr_views(a@) == expr_views(b@)),
    decreases a,
{
    let ghost x = expr_views(a@);
    let ghost y = expr_views(b@);
    if a.len() != b.len() {
        assert(x.len() != y.len());
        return false;
    }
    let mut i: usize = 0;
    while i < a.len()
        invariant
            i <= a@.len(),
            a@.len() == b@.len(),
            x == expr_views(a@),
            y == expr_views(b@),
            forall|j: int| 0 <= j < i ==> #[trigger] x[j] == y[j],
            decreases_to!(a => a@),
        decreases a.len() - i,
    {
        if !same_expr(&a[i], &b[i]) {
            assert(x[i as int] != y[i as int]);
            return false;
        }
        i = i + 1;
    }
    assert(x =~= y);
    true
}

/// Lists of expressions.
pub open spec fn expr_lists(s: Seq<Vec<Expr>>) -> Seq<Seq<ExprView>> {
    Seq::new(s.len(), |i: int| expr_views(s[i]@))
}

/// A copy.
pub fn copy_expr_lists(v: &Vec<Vec<Expr>>) -> (r: Vec<Vec<Expr>>)
    ensures
        expr_lists(r@) == expr_lists(v@),
{
    let mut r: Vec<Vec<Expr>> = Vec::new();
    let mut i: usize = 0;
    while i < v.len()
        invariant
            i <= v@.len(),
            r@.len() == i,
            forall|j: int| 0 <= j < i ==> expr_views((#[trigger] r@[j])@) == expr_views(v@[j]@),
        decreases v.len() - i,
    {
        r.push(copy_exprs(&v[i]));
        i = i + 1;
    }
    assert(expr_lists(r@) =~= expr_lists(v@));
    r
}

/// What joined rows have in common.
#[derive(Debug, PartialEq)]
pub enum JoinConstraint {
    On(Expr),
    Using(Vec<String>),
    Unconstrained,
}

/// What joined rows have in common.
#[verifier::ext_equal]
pub enum JoinConstraintView {
    On(ExprView),
    Using(Seq<Seq<char>>),
    Unconstrained,
}

/// What is in it.
pub open spec fn join_constraint_view(e: JoinConstraint) -> JoinConstraintView {
    match e {
        JoinConstraint::On(x0) => JoinConstraintView::On(expr_view(x0)),
        JoinConstraint::Using(x0) => JoinConstraintView::Using(texts(x0@)),
        JoinConstraint::Unconstrained => JoinConstraintView::Unconstrained,
    }
}

impl View for JoinConstraint {
    type V = JoinConstraintView;

    open spec fn view(&self) -> JoinConstraintView {
        join_constraint_view(*self)
    }
}

/// A copy.
pub fn copy_join_constraint(e: &JoinConstraint) -> (r: JoinConstraint)
    ensures
        r@ == e@,
{
    let r = match e {
        JoinConstraint::On(x0) => JoinConstraint::On(copy_expr(x0)),
        JoinConstraint::Using(x0) => JoinConstraint::Using(copy_texts(x0)),
        JoinConstraint::Unconstrained => JoinConstraint::Unconstrained,
    };
    assert(r@ =~~= e@);
    r
}

impl Clone for JoinConstraint {
    fn clone(&self) -> (r: Self)
        ensures
            r@ == self@,
    {
        copy_join_constraint(self)
    }
}

/// Whether two are the same.
pub fn same_join_constraint(a: &JoinConstraint, b: &JoinConstraint) -> (r: bool)
    ensures
        r == (a@ == b@),
{
    match (a, b) {
        (JoinConstraint::On(a_x0), JoinConstraint::On(b_x0)) => {
            let r = same_expr(a_x0, b_x0);
            assert(r == (a@ =~~= b@));
            r
        },
        (JoinConstraint::Using(a_x0), JoinConstraint::Using(b_x0)) => {
            let r = same_texts(a_x0, b_x0);
            assert(r == (a@ =~~= b@));
            r
        },
        (JoinConstraint::Unconstrained, JoinConstraint::Unconstrained) => true,
        _ => false,
    }
}

/// A table of a query, and those joined to it.
#[derive(Debug, PartialEq)]
pub struct TableRef {
    pub name: TableName,
    pub alias: Option<String>,
    pub joins: Vec<JoinClause>,
}

/// A table of a query, and those joined to it.
#[verifier::ext_equal]
pub struct TableRefView {
    pub name: TableNameView,
    pub alias: Option<Seq<char>>,
    pub joins: Seq<JoinClauseView>,
}

/// What is in it.
pub open spec fn table_ref_view(e: TableRef) -> TableRefView
    decreases e,
{
    TableRefView {
        name: table_name_view(e.name),
        alias: match e.alias { Some(z) => Some(z@), None => None },
        joins: Seq::new(
            e.joins@.len(),
            |i: int| if 0 <= i < e.joins@.len() { join_clause_view(e.joins@[i]) } else { arbitrary() },
        ),
    }
}

impl View for TableRef {
    type V = TableRefView;

    open spec fn view(&self) -> TableRefView {
        table_ref_view(*self)
    }
}

/// A copy.
pub fn copy_table_ref(e: &TableRef) -> (r: TableRef)
    ensures
        r@ == e@,
    decreases e,
{
    broadcast use table_ref_parts;

    let r = TableRef {
        name: copy_table_name((&e.name)),
        alias: match (&e.alias) { Some(z) => Some(z.clone()), None => None },
        joins: copy_join_clauses((&e.joins)),
    };
    assert(r@ =~~= e@);
    r
}

impl Clone for TableRef {
    fn clone(&self) -> (r: Self)
        ensures
            r@ == self@,
    {
        copy_table_ref(self)
    }
}

/// A table that is joined.
#[derive(Debug, PartialEq)]
pub struct JoinClause {
    pub join_type: JoinType,
    pub table: TableRef,
    pub constraint: JoinConstraint,
}

/// A table that is joined.
#[verifier::ext_equal]
pub struct JoinClauseView {
    pub join_type: JoinType,
    pub table: TableRefView,
    pub constraint: JoinConstraintView,
}

/// What is in it.
pub open spec fn join_clause_view(e: JoinClause) -> JoinClauseView
    decreases e,
{
    JoinClauseView {
        join_type: e.join_type,
        table: table_ref_view(e.table),
        constraint: join_constraint_view(e.constraint),
    }
}

impl View for JoinClause {
    type V = JoinClauseView;

    open spec fn view(&self) -> JoinClauseView {
        join_clause_view(*self)
    }
}

/// What is in each.
pub open spec fn join_clause_views(s: Seq<JoinClause>) -> Seq<JoinClauseView> {
    Seq::new(s.len(), |i: int| join_clause_view(s[i]))
}

/// A copy.
pub fn copy_join_clause(e: &JoinClause) -> (r: JoinClause)
    ensures
        r@ == e@,
    decreases e,
{
    let r = JoinClause {
        join_type: e.join_type,
        table: copy_table_ref((&e.table)),
        constraint: copy_join_constraint((&e.constraint)),
    };
    assert(r@ =~~= e@);
    r
}

impl Clone for JoinClause {
    fn clone(&self) -> (r: Self)
        ensures
            r@ == self@,
    {
        copy_join_clause(self)
    }
}

/// What is in a table of a query.
pub broadcast proof fn table_ref_parts(e: TableRef)
    ensures
        #[trigger] table_ref_view(e) == (TableRefView {
            name: table_name_view(e.name),
            alias: label(e.alias),
            joins: join_clause_views(e.joins@),
        }),
{
    assert(table_ref_view(e).joins =~= join_clause_views(e.joins@));
}

/// A copy.
pub fn copy_join_clauses(v: &Vec<JoinClause>) -> (r: Vec<JoinClause>)
    ensures
        join_clause_views(r@) == join_clause_views(v@),
        r@.len() == v@.len(),
    decreases v,
{
    let mut r: Vec<JoinClause> = Vec::new();
    let mut i: usize = 0;
    while i < v.len()
        invariant
            i <= v@.len(),
            r@.len() == i,
            forall|j: int| 0 <= j < i ==> (#[trigger] r@[j])@ == v@[j]@,
            decreases_to!(v => v@),
        decreases v.len() - i,
    {
        r.push(copy_join_clause(&v[i]));
        i = i + 1;
    }
    assert(join_clause_views(r@) =~= join_clause_views(v@));
    r
}

/// What a column of a result is.
#[derive(Debug, PartialEq)]
pub enum SelectItemKind {
    Expr(Expr),
    Wildcard,
}

/// What a column of a result is.
#[verifier::ext_equal]
pub enum SelectItemKindView {
    Expr(ExprView),
    Wildcard,
}

/// What is in it.
pub open spec fn select_item_kind_view(e: SelectItemKind) -> SelectItemKindView {
    match e {
        SelectItemKind::Expr(x0) => SelectItemKindView::Expr(expr_view(x0)),
        SelectItemKind::Wildcard => SelectItemKindView::Wildcard,
    }
}

impl View for SelectItemKind {
    type V = SelectItemKindView;

    open spec fn view(&self) -> SelectItemKindView {
        select_item_kind_view(*self)
    }
}

/// A copy.
pub fn copy_select_item_kind(e: &SelectItemKind) -> (r: SelectItemKind)
    ensures
        r@ == e@,
{
    let r = match e {
        SelectItemKind::Expr(x0) => SelectItemKind::Expr(copy_expr(x0)),
        SelectItemKind::Wildcard => SelectItemKind::Wildcard,
    };
    assert(r@ =~~= e@);
    r
}

impl Clone for SelectItemKind {
    fn clone(&self) -> (r: Self)
        ensures
            r@ == self@,
    {
        copy_select_item_kind(self)
    }
}

/// A column of a result.
#[derive(Debug, PartialEq)]
pub struct SelectItem {
    pub kind: SelectItemKind,
    pub alias: Option<String>,
}

/// A column of a result.
#[verifier::ext_equal]
pub struct SelectItemView {
    pub kind: SelectItemKindView,
    pub alias: Option<Seq<char>>,
}

/// What is in it.
pub open spec fn select_item_view(e: SelectItem) -> SelectItemView {
    SelectItemView {
        kind: select_item_kind_view(e.kind),
        alias: match e.alias { Some(z) => Some(z@), None => None },
    }
}

impl View for SelectItem {
    type V = SelectItemView;

    open spec fn view(&self) -> SelectItemView {
        select_item_view(*self)
    }
}

/// What is in each.
pub open spec fn select_item_views(s: Seq<SelectItem>) -> Seq<SelectItemView> {
    Seq::new(s.len(), |i: int| select_item_view(s[i]))
}

/// A copy.
pub fn copy_select_item(e: &SelectItem) -> (r: SelectItem)
    ensures
        r@ == e@,
{
    let r = SelectItem {
        kind: copy_select_item_kind((&e.kind)),
        alias: match (&e.alias) { Some(z) => Some(z.clone()), None => None },
    };
    assert(r@ =~~= e@);
    r
}

impl Clone for SelectItem {
    fn clone(&self) -> (r: Self)
        ensures
            r@ == self@,
    {
        copy_select_item(self)
    }
}

/// A copy.
pub fn copy_select_items(v: &Vec<SelectItem>) -> (r: Vec<SelectItem>)
    ensures
        select_item_views(r@) == select_item_views(v@),
        r@.len() == v@.len(),
{
    let mut r: Vec<SelectItem> = Vec::new();
    let mut i: usize = 0;
    while i < v.len()
        invariant
            i <= v@.len(),
            r@.len() == i,
            forall|j: int| 0 <= j < i ==> (#[trigger] r@[j])@ == v@[j]@,
        decreases v.len() - i,
    {
        r.push(copy_select_item(&v[i]));
        i = i + 1;
    }
    assert(select_item_views(r@) =~= select_item_views(v@));
    r
}

/// What a column is set to.
#[derive(Debug, PartialEq)]
pub struct Assignment {
    pub column: String,
    pub value: Expr,
}

/// What a column is set to.
#[verifier::ext_equal]
pub struct AssignmentView {
    pub column: Seq<char>,
    pub value: ExprView,
}

/// What is in it.
pub open spec fn assignment_view(e: Assignment) -> AssignmentView {
    AssignmentView { column: e.column@, value: expr_view(e.value) }
}

impl View for Assignment {
    type V = AssignmentView;

    open spec fn view(&self) -> AssignmentView {
        assignment_view(*self)
    }
}

/// What is in each.
pub open spec fn assignment_views(s: Seq<Assignment>) -> Seq<AssignmentView> {
    Seq::new(s.len(), |i: int| assignment_view(s[i]))
}

/// A copy.
pub fn copy_assignment(e: &Assignment) -> (r: Assignment)
    ensures
        r@ == e@,
{
    let r = Assignment { column: (&e.column).clone(), value: copy_expr((&e.value)) };
    assert(r@ =~~= e@);
    r
}

impl Clone for Assignment {
    fn clone(&self) -> (r: Self)
        ensures
            r@ == self@,
    {
        copy_assignment(self)
    }
}

/// A copy.
pub fn copy_assignments(v: &Vec<Assignment>) -> (r: Vec<Assignment>)
    ensures
        assignment_views(r@) == assignment_views(v@),
        r@.len() == v@.len(),
{
    let mut r: Vec<Assignment> = Vec::new();
    let mut i: usize = 0;
    while i < v.len()
        invariant
            i <= v@.len(),
            r@.len() == i,
            forall|j: int| 0 <= j < i ==> (#[trigger] r@[j])@ == v@[j]@,
        decreases v.len() - i,
    {
        r.push(copy_assignment(&v[i]));
        i = i + 1;
    }
    assert(assignment_views(r@) =~= assignment_views(v@));
    r
}

/// What rows are ordered by.
#[derive(Debug, PartialEq)]
pub struct OrderByItem {
    pub expr: Expr,
    pub direction: OrderDirection,
}

/// What rows are ordered by.
#[verifier::ext_equal]
pub struct OrderByItemView {
    pub expr: ExprView,
    pub direction: OrderDirection,
}

/// What is in it.
pub open spec fn order_by_item_view(e: OrderByItem) -> OrderByItemView {
    OrderByItemView { expr: expr_view(e.expr), direction: e.direction }
}

impl View for OrderByItem {
    type V = OrderByItemView;

    open spec fn view(&self) -> OrderByItemView {
        order_by_item_view(*self)
    }
}

/// What is in each.
pub open spec fn order_by_item_views(s: Seq<OrderByItem>) -> Seq<OrderByItemView> {
    Seq::new(s.len(), |i: int| order_by_item_view(s[i]))
}

/// A copy.
pub fn copy_order_by_item(e: &OrderByItem) -> (r: OrderByItem)
    ensures
        r@ == e@,
{
    let r = OrderByItem { expr: copy_expr((&e.expr)), direction: e.direction };
    assert(r@ =~~= e@);
    r
}

impl Clone for OrderByItem {
    fn clone(&self) -> (r: Self)
        ensures
            r@ == self@,
    {
        copy_order_by_item(self)
    }
}

/// A copy.
pub fn copy_order_by_items(v: &Vec<OrderByItem>) -> (r: Vec<OrderByItem>)
    ensures
        order_by_item_views(r@) == order_by_item_views(v@),
        r@.len() == v@.len(),
{
    let mut r: Vec<OrderByItem> = Vec::new();
    let mut i: usize = 0;
    while i < v.len()
        invariant
            i <= v@.len(),
            r@.len() == i,
            forall|j: int| 0 <= j < i ==> (#[trigger] r@[j])@ == v@[j]@,
        decreases v.len() - i,
    {
        r.push(copy_order_by_item(&v[i]));
        i = i + 1;
    }
    assert(order_by_item_views(r@) =~= order_by_item_views(v@));
    r
}

/// Whether two are the same.
pub fn same_order_by_item(a: &OrderByItem, b: &OrderByItem) -> (r: bool)
    ensures
        r == (a@ == b@),
{
    let r = same_expr((&a.expr), (&b.expr)) && *(&a.direction) == *(&b.direction);
    assert(r == (a@ =~~= b@));
    r
}

/// Whether two lists are the same.
pub fn same_order_by_items(a: &Vec<OrderByItem>, b: &Vec<OrderByItem>) -> (r: bool)
    ensures
        r == (order_by_item_views(a@) == order_by_item_views(b@)),
{
    let ghost x = order_by_item_views(a@);
    let ghost y = order_by_item_views(b@);
    if a.len() != b.len() {
        assert(x.len() != y.len());
        return false;
    }
    let mut i: usize = 0;
    while i < a.len()
        invariant
            i <= a@.len(),
            a@.len() == b@.len(),
            x == order_by_item_views(a@),
            y == order_by_item_views(b@),
            forall|j: int| 0 <= j < i ==> #[trigger] x[j] == y[j],
        decreases a.len() - i,
    {
        if !same_order_by_item(&a[i], &b[i]) {
            assert(x[i as int] != y[i as int]);
            return false;
        }
        i = i + 1;
    }
    assert(x =~= y);
    true
}

/// Makes a table.
#[derive(Debug, PartialEq)]
pub struct CreateTableStmt {
    pub name: TableName,
    pub columns: Vec<ColumnDef>,
}

/// Makes a table.
#[verifier::ext_equal]
pub struct CreateTableStmtView {
    pub name: TableNameView,
    pub columns: Seq<ColumnDefView>,
}

/// What is in it.
pub open spec fn create_table_stmt_view(e: CreateTableStmt) -> CreateTableStmtView {
    CreateTableStmtView { name: table_name_view(e.name), columns: column_def_views(e.columns@) }
}

impl View for CreateTableStmt {
    type V = CreateTableStmtView;

    open spec fn view(&self) -> CreateTableStmtView {
        create_table_stmt_view(*self)
    }
}

/// A copy.
pub fn copy_create_table_stmt(e: &CreateTableStmt) -> (r: CreateTableStmt)
    ensures
        r@ == e@,
{
    let r = CreateTableStmt {
        name: copy_table_name((&e.name)),
        columns: copy_column_defs((&e.columns)),
    };
    assert(r@ =~~= e@);
    r
}

impl Clone for CreateTableStmt {
    fn clone(&self) -> (r: Self)
        ensures
            r@ == self@,
    {
        copy_create_table_stmt(self)
    }
}

/// Removes a table.
#[derive(Debug, PartialEq)]
pub struct DropTableStmt {
    pub name: TableName,
}

/// Removes a table.
#[verifier::ext_equal]
pub struct DropTableStmtView {
    pub name: TableNameView,
}

/// What is in it.
pub open spec fn drop_table_stmt_view(e: DropTableStmt) -> DropTableStmtView {
    DropTableStmtView { name: table_name_view(e.name) }
}

impl View for DropTableStmt {
    type V = DropTableStmtView;

    open spec fn view(&self) -> DropTableStmtView {
        drop_table_stmt_view(*self)
    }
}

/// A copy.
pub fn copy_drop_table_stmt(e: &DropTableStmt) -> (r: DropTableStmt)
    ensures
        r@ == e@,
{
    let r = DropTableStmt { name: copy_table_name((&e.name)) };
    assert(r@ =~~= e@);
    r
}

impl Clone for DropTableStmt {
    fn clone(&self) -> (r: Self)
        ensures
            r@ == self@,
    {
        copy_drop_table_stmt(self)
    }
}

/// Puts rows into a table.
#[derive(Debug, PartialEq)]
pub struct InsertStmt {
    pub table: TableName,
    pub columns: Option<Vec<String>>,
    pub rows: Vec<Vec<Expr>>,
}

/// Puts rows into a table.
#[verifier::ext_equal]
pub struct InsertStmtView {
    pub table: TableNameView,
    pub columns: Option<Seq<Seq<char>>>,
    pub rows: Seq<Seq<ExprView>>,
}

/// What is in it.
pub open spec fn insert_stmt_view(e: InsertStmt) -> InsertStmtView {
    InsertStmtView {
        table: table_name_view(e.table),
        columns: match e.columns { Some(z) => Some(texts(z@)), None => None },
        rows: expr_lists(e.rows@),
    }
}

impl View for InsertStmt {
    type V = InsertStmtView;

    open spec fn view(&self) -> InsertStmtView {
        insert_stmt_view(*self)
    }
}

/// A copy.
pub fn copy_insert_stmt(e: &InsertStmt) -> (r: InsertStmt)
    ensures
        r@ == e@,
{
    let r = InsertStmt {
        table: copy_table_name((&e.table)),
        columns: match (&e.columns) { Some(z) => Some(copy_texts(z)), None => None },
        rows: copy_expr_lists((&e.rows)),
    };
    assert(r@ =~~= e@);
    r
}

impl Clone for InsertStmt {
    fn clone(&self) -> (r: Self)
        ensures
            r@ == self@,
    {
        copy_insert_stmt(self)
    }
}

/// A query.
#[derive(Debug, PartialEq)]
pub struct SelectStmt {
    pub projection: Vec<SelectItem>,
    pub from: Option<TableRef>,
    pub where_clause: Option<Expr>,
    pub order_by: Vec<OrderByItem>,
    pub limit: Option<Expr>,
}

/// A query.
#[verifier::ext_equal]
pub struct SelectStmtView {
    pub projection: Seq<SelectItemView>,
    pub from: Option<TableRefView>,
    pub where_clause: Option<ExprView>,
    pub order_by: Seq<OrderByItemView>,
    pub limit: Option<ExprView>,
}

/// What is in it.
pub open spec fn select_stmt_view(e: SelectStmt) -> SelectStmtView {
    SelectStmtView {
        projection: select_item_views(e.projection@),
        from: match e.from { Some(z) => Some(table_ref_view(z)), None => None },
        where_clause: match e.where_clause { Some(z) => Some(expr_view(z)), None => None },
        order_by: order_by_item_views(e.order_by@),
        limit: match e.limit { Some(z) => Some(expr_view(z)), None => None },
    }
}

impl View for SelectStmt {
    type V = SelectStmtView;

    open spec fn view(&self) -> SelectStmtView {
        select_stmt_view(*self)
    }
}

/// A copy.
pub fn copy_select_stmt(e: &SelectStmt) -> (r: SelectStmt)
    ensures
        r@ == e@,
{
    let r = SelectStmt {
        projection: copy_select_items((&e.projection)),
        from: match (&e.from) { Some(z) => Some(copy_table_ref(z)), None => None },
        where_clause: match (&e.where_clause) { Some(z) => Some(copy_expr(z)), None => None },
        order_by: copy_order_by_items((&e.order_by)),
        limit: match (&e.limit) { Some(z) => Some(copy_expr(z)), None => None },
    };
    assert(r@ =~~= e@);
    r
}

impl Clone for SelectStmt {
    fn clone(&self) -> (r: Self)
        ensures
            r@ == self@,
    {
        copy_select_stmt(self)
    }
}

/// Changes rows of a table.
#[derive(Debug, PartialEq)]
pub struct UpdateStmt {
    pub table: TableName,
    pub assignments: Vec<Assignment>,
    pub where_clause: Option<Expr>,
}

/// Changes rows of a table.
#[verifier::ext_equal]
pub struct UpdateStmtView {
    pub table: TableNameView,
    pub assignments: Seq<AssignmentView>,
    pub where_clause: Option<ExprView>,
}

/// What is in it.
pub open spec fn update_stmt_view(e: UpdateStmt) -> UpdateStmtView {
    UpdateStmtView {
        table: table_name_view(e.table),
        assignments: assignment_views(e.assignments@),
        where_clause: match e.where_clause { Some(z) => Some(expr_view(z)), None => None },
    }
}

impl View for UpdateStmt {
    type V = UpdateStmtView;

    open spec fn view(&self) -> UpdateStmtView {
        update_stmt_view(*self)
    }
}

/// A copy.
pub fn copy_update_stmt(e: &UpdateStmt) -> (r: UpdateStmt)
    ensures
        r@ == e@,
{
    let r = UpdateStmt {
        table: copy_table_name((&e.table)),
        assignments: copy_assignments((&e.assignments)),
        where_clause: match (&e.where_clause) { Some(z) => Some(copy_expr(z)), None => None },
    };
    assert(r@ =~~= e@);
    r
}

impl Clone for UpdateStmt {
    fn clone(&self) -> (r: Self)
        ensures
            r@ == self@,
    {
        copy_update_stmt(self)
    }
}

/// Takes rows out of a table.
#[derive(Debug, PartialEq)]
pub struct DeleteStmt {
    pub table: TableName,
    pub where_clause: Option<Expr>,
}

/// Takes rows out of a table.
#[verifier::ext_equal]
pub struct DeleteStmtView {
    pub table: TableNameView,
    pub where_clause: Option<ExprView>,
}

/// What is in it.
pub open spec fn delete_stmt_view(e: DeleteStmt) -> DeleteStmtView {
    DeleteStmtView {
        table: table_name_view(e.table),
        where_clause: match e.where_clause { Some(z) => Some(expr_view(z)), None => None },
    }
}

impl View for DeleteStmt {
    type V = DeleteStmtView;

    open spec fn view(&self) -> DeleteStmtView {
        delete_stmt_view(*self)
    }
}

/// A copy.
pub fn copy_delete_stmt(e: &DeleteStmt) -> (r: DeleteStmt)
    ensures
        r@ == e@,
{
    let r = DeleteStmt {
        table: copy_table_name((&e.table)),
        where_clause: match (&e.where_clause) { Some(z) => Some(copy_expr(z)), None => None },
    };
    assert(r@ =~~= e@);
    r
}

impl Clone for DeleteStmt {
    fn clone(&self) -> (r: Self)
        ensures
            r@ == self@,
    {
        copy_delete_stmt(self)
    }
}

/// Begins or ends a transaction.
#[derive(Clone, Copy, Debug, PartialEq, Eq, Structural)]
pub struct TransactionStmt {
    pub kind: TransactionKind,
}

/// A statement.
#[derive(Debug, PartialEq)]
pub enum Statement {
    CreateTable(CreateTableStmt),
    DropTable(DropTableStmt),
    Insert(InsertStmt),
    Select(SelectStmt),
    Update(UpdateStmt),
    Delete(DeleteStmt),
    Transaction(TransactionStmt),
}

/// A statement.
#[verifier::ext_equal]
pub enum StatementView {
    CreateTable(CreateTableStmtView),
    DropTable(DropTableStmtView),
    Insert(InsertStmtView),
    Select(SelectStmtView),
    Update(UpdateStmtView),
    Delete(DeleteStmtView),
    Transaction(TransactionStmt),
}

/// What is in it.
pub open spec fn statement_view(e: Statement) -> StatementView {
    match e {
        Statement::CreateTable(x0) => StatementView::CreateTable(create_table_stmt_view(x0)),
        Statement::DropTable(x0) => StatementView::DropTable(drop_table_stmt_view(x0)),
        Statement::Insert(x0) => StatementView::Insert(insert_stmt_view(x0)),
        Statement::Select(x0) => StatementView::Select(select_stmt_view(x0)),
        Statement::Update(x0) => StatementView::Update(update_stmt_view(x0)),
        Statement::Delete(x0) => StatementView::Delete(delete_stmt_view(x0)),
        Statement::Transaction(x0) => StatementView::Transaction(x0),
    }
}

impl View for Statement {
    type V = StatementView;

    open spec fn view(&self) -> StatementView {
        statement_view(*self)
    }
}

/// What is in each.
pub open spec fn statement_views(s: Seq<Statement>) -> Seq<StatementView> {
    Seq::new(s.len(), |i: int| statement_view(s[i]))
}

/// A copy.
pub fn copy_statement(e: &Statement) -> (r: Statement)
    ensures
        r@ == e@,
{
    let r = match e {
        Statement::CreateTable(x0) => Statement::CreateTable(copy_create_table_stmt(x0)),
        Statement::DropTable(x0) => Statement::DropTable(copy_drop_table_stmt(x0)),
        Statement::Insert(x0) => Statement::Insert(copy_insert_stmt(x0)),
        Statement::Select(x0) => Statement::Select(copy_select_stmt(x0)),
        Statement::Update(x0) => Statement::Update(copy_update_stmt(x0)),
        Statement::Delete(x0) => Statement::Delete(copy_delete_stmt(x0)),
        Statement::Transaction(x0) => Statement::Transaction(*x0),
    };
    assert(r@ =~~= e@);
    r
}

impl Clone for Statement {
    fn clone(&self) -> (r: Self)
        ensures
            r@ == self@,
    {
        copy_statement(self)
    }
}

/// A copy.
pub fn copy_statements(v: &Vec<Statement>) -> (r: Vec<Statement>)
    ensures
        statement_views(r@) == statement_views(v@),
        r@.len() == v@.len(),
{
    let mut r: Vec<Statement> = Vec::new();
    let mut i: usize = 0;
    while i < v.len()
        invariant
            i <= v@.len(),
            r@.len() == i,
            forall|j: int| 0 <= j < i ==> (#[trigger] r@[j])@ == v@[j]@,
        decreases v.len() - i,
    {
        r.push(copy_statement(&v[i]));
        i = i + 1;
    }
    assert(statement_views(r@) =~= statement_views(v@));
    r
}

/// All statements of a text.
#[derive(Debug, PartialEq)]
pub struct RootNode {
    pub statements: Vec<Statement>,
}

/// All statements of a text.
#[verifier::ext_equal]
pub struct RootNodeView {
    pub statements: Seq<StatementView>,
}

/// What is in it.
pub open spec fn root_node_view(e: RootNode) -> RootNodeView {
    RootNodeView { statements: statement_views(e.statements@) }
}

impl View for RootNode {
    type V = RootNodeView;

    open spec fn view(&self) -> RootNodeView {
        root_node_view(*self)
    }
}

/// A copy.
pub fn copy_root_node(e: &RootNode) -> (r: RootNode)
    ensures
        r@ == e@,
{
    let r = RootNode { statements: copy_statements((&e.statements)) };
    assert(r@ =~~= e@);
    r
}

impl Clone for RootNode {
    fn clone(&self) -> (r: Self)
        ensures
            r@ == self@,
    {
        copy_root_node(self)
    }
}

impl TableName {
    /// A table without a schema.
    pub fn new(name: &str) -> (r: Self)
        ensures
            r@ == (TableNameView { schema: None, name: name@ }),
    {
        TableName { schema: None, name: String::from_str(name) }
    }
}

impl ColumnRef {
    /// A column without a table.
    pub fn new(name: &str) -> (r: Self)
        ensures
            r@ == (ColumnRefView { table: None, name: name@ }),
    {
        ColumnRef { table: None, name: String::from_str(name) }
    }
}

impl RootNode {
    /// All statements of a text.
    pub fn new(statements: Vec<Statement>) -> (r: Self)
        ensures
            r@ == (RootNodeView { statements: statement_views(statements@) }),
    {
        RootNode { statements }
    }
}

} // verus!
