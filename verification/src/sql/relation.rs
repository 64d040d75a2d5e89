//! Queries as relational algebra.
use vstd::prelude::*;
use vstd::string::StringExecFns;

use crate::sql::ast::{
    copy_expr, copy_join_constraint, copy_order_by_items, copy_table_name, expr_view,
    join_clause_views, join_constraint_view, order_by_item_views, same_expr, same_label,
    select_item_views, table_name_view, table_ref_parts, Expr, ExprView, JoinConstraint,
    JoinConstraintView, JoinType, OrderByItem, OrderByItemView, SelectItem, SelectItemKind,
    SelectItemKindView, SelectItemView, SelectStmt, SelectStmtView, TableName, TableNameView,
    TableRef, TableRefView,
};

verus! {

/// Why a query is no relation.
#[derive(Debug, PartialEq)]
pub struct RelationError {
    pub message: String,
}

impl RelationError {
    fn new(message: &str) -> (r: Self)
        ensures
            r.message@ == message@,
    {
        RelationError { message: String::from_str(message) }
    }

    /// What the error says.
    pub fn text(&self) -> (r: String)
        ensures
            r@ == "relation error: "@ + self.message@,
    {
        let mut s = String::from_str("relation error: ");
        s.append(self.message.as_str());
        s
    }
}

/// A column of a result.
#[derive(Debug, PartialEq)]
pub enum ProjectionItem {
    Expr { expr: Expr, alias: Option<String> },
    Wildcard,
}

/// A column of a result.
#[verifier::ext_equal]
pub enum ProjectionItemView {
    Expr { expr: ExprView, alias: Option<Seq<char>> },
    Wildcard,
}

/// What is in it.
pub open spec fn projection_item_view(e: ProjectionItem) -> ProjectionItemView {
    match e {
        ProjectionItem::Expr { expr, alias } => ProjectionItemView::Expr {
            expr: expr_view(expr),
            alias: match alias { Some(z) => Some(z@), None => None },
        },
        ProjectionItem::Wildcard => ProjectionItemView::Wildcard,
    }
}

impl View for ProjectionItem {
    type V = ProjectionItemView;

    open spec fn view(&self) -> ProjectionItemView {
        projection_item_view(*self)
    }
}

/// What is in each.
pub open spec fn projection_item_views(s: Seq<ProjectionItem>) -> Seq<ProjectionItemView> {
    Seq::new(s.len(), |i: int| projection_item_view(s[i]))
}

/// A copy.
pub fn copy_projection_item(e: &ProjectionItem) -> (r: ProjectionItem)
    ensures
        r@ == e@,
{
    let r = match e {
        ProjectionItem::Expr { expr, alias } => ProjectionItem::Expr {
            expr: copy_expr(expr),
            alias: match alias { Some(z) => Some(z.clone()), None => None },
        },
        ProjectionItem::Wildcard => ProjectionItem::Wildcard,
    };
    assert(r@ =~~= e@);
    r
}

impl Clone for ProjectionItem {
    fn clone(&self) -> (r: Self)
        ensures
            r@ == self@,
    {
        copy_projection_item(self)
    }
}

/// A copy.
pub fn copy_projection_items(v: &Vec<ProjectionItem>) -> (r: Vec<ProjectionItem>)
    ensures
        projection_item_views(r@) == projection_item_views(v@),
        r@.len() == v@.len(),
{
    let mut r: Vec<ProjectionItem> = Vec::new();
    let mut i: usize = 0;
    while i < v.len()
        invariant
            i <= v@.len(),
            r@.len() == i,
            forall|j: int| 0 <= j < i ==> (#[trigger] r@[j])@ == v@[j]@,
        decreases v.len() - i,
    {
        r.push(copy_projection_item(&v[i]));
        i = i + 1;
    }
    assert(projection_item_views(r@) =~= projection_item_views(v@));
    r
}

/// Whether two are the same.
pub fn same_projection_item(a: &ProjectionItem, b: &ProjectionItem) -> (r: bool)
    ensures
        r == (a@ == b@),
{
    match (a, b) {
        (ProjectionItem::Expr { expr: a_expr, alias: a_alias }, ProjectionItem::Expr { expr: b_expr, alias: b_alias }) => {
            let r = same_expr(a_expr, b_expr) && same_label(a_alias, b_alias);
            assert(r == (a@ =~~= b@));
            r
        },
        (ProjectionItem::Wildcard, ProjectionItem::Wildcard) => true,
        _ => false,
    }
}

/// Whether two lists are the same.
pub fn same_projection_items(a: &Vec<ProjectionItem>, b: &Vec<ProjectionItem>) -> (r: bool)
    ensures
        r == (projection_item_views(a@) == projection_item_views(b@)),
{
    let ghost x = projection_item_views(a@);
    let ghost y = projection_item_views(b@);
    if a.len() != b.len() {
        assert(x.len() != y.len());
        return false;
    }
    let mut i: usize = 0;
    while i < a.len()
        invariant
            i <= a@.len(),
            a@.len() == b@.len(),
            x == projection_item_views(a@),
            y == projection_item_views(b@),
            forall|j: int| 0 <= j < i ==> #[trigger] x[j] == y[j],
        decreases a.len() - i,
    {
        if !same_projection_item(&a[i], &b[i]) {
            assert(x[i as int] != y[i as int]);
            return false;
        }
        i = i + 1;
    }
    assert(x =~= y);
    true
}

/// Relational algebra.
#[derive(Debug, PartialEq)]
pub enum RelationExpr {
    OneRow,
    TableScan { table: TableName, alias: Option<String> },
    Projection { input: Box<RelationExpr>, items: Vec<ProjectionItem> },
    Selection { input: Box<RelationExpr>, predicate: Expr },
    Join {
        left: Box<RelationExpr>,
        right: Box<RelationExpr>,
        join_type: JoinType,
        constraint: JoinConstraint,
    },
    Order { input: Box<RelationExpr>, items: Vec<OrderByItem> },
    Limit { input: Box<RelationExpr>, count: Expr },
}

/// Relational algebra.
#[verifier::ext_equal]
pub enum RelationExprView {
    OneRow,
    TableScan { table: TableNameView, alias: Option<Seq<char>> },
    Projection { input: Box<RelationExprView>, items: Seq<ProjectionItemView> },
    Selection { input: Box<RelationExprView>, predicate: ExprView },
    Join {
        left: Box<RelationExprView>,
        right: Box<RelationExprView>,
        join_type: JoinType,
        constraint: JoinConstraintView,
    },
    Order { input: Box<RelationExprView>, items: Seq<OrderByItemView> },
    Limit { input: Box<RelationExprView>, count: ExprView },
}

/// What is in it.
pub open spec fn relation_expr_view(e: RelationExpr) -> RelationExprView
    decreases e,
{
    match e {
        RelationExpr::OneRow => RelationExprView::OneRow,
        RelationExpr::TableScan { table, alias } => RelationExprView::TableScan {
            table: table_name_view(table),
            alias: match alias { Some(z) => Some(z@), None => None },
        },
        RelationExpr::Projection { input, items } => RelationExprView::Projection {
            input: Box::new(relation_expr_view(*input)),
            items: projection_item_views(items@),
        },
        RelationExpr::Selection { input, predicate } => RelationExprView::Selection {
            input: Box::new(relation_expr_view(*input)),
            predicate: expr_view(predicate),
        },
        RelationExpr::Join { left, right, join_type, constraint } => RelationExprView::Join {
            left: Box::new(relation_expr_view(*left)),
            right: Box::new(relation_expr_view(*right)),
            join_type: join_type,
            constraint: join_constraint_view(constraint),
        },
        RelationExpr::Order { input, items } => RelationExprView::Order {
            input: Box::new(relation_expr_view(*input)),
            items: order_by_item_views(items@),
        },
        RelationExpr::Limit { input, count } => RelationExprView::Limit {
            input: Box::new(relation_expr_view(*input)),
            count: expr_view(count),
        },
    }
}

impl View for RelationExpr {
    type V = RelationExprView;

    open spec fn view(&self) -> RelationExprView {
        relation_expr_view(*self)
    }
}

/// A copy.
pub fn copy_relation_expr(e: &RelationExpr) -> (r: RelationExpr)
    ensures
        r@ == e@,
    decreases e,
{
    let r = match e {
        RelationExpr::OneRow => RelationExpr::OneRow,
        RelationExpr::TableScan { table, alias } => RelationExpr::TableScan {
            table: copy_table_name(table),
            alias: match alias { Some(z) => Some(z.clone()), None => None },
        },
        RelationExpr::Projection { input, items } => RelationExpr::Projection {
            input: Box::new(copy_relation_expr(&**input)),
            items: copy_projection_items(items),
        },
        RelationExpr::Selection { input, predicate } => RelationExpr::Selection {
            input: Box::new(copy_relation_expr(&**input)),
            predicate: copy_expr(predicate),
        },
        RelationExpr::Join { left, right, join_type, constraint } => RelationExpr::Join {
            left: Box::new(copy_relation_expr(&**left)),
            right: Box::new(copy_relation_expr(&**right)),
            join_type: *join_type,
            constraint: copy_join_constraint(constraint),
        },
        RelationExpr::Order { input, items } => RelationExpr::Order {
            input: Box::new(copy_relation_expr(&**input)),
            items: copy_order_by_items(items),
        },
        RelationExpr::Limit { input, count } => RelationExpr::Limit {
            input: Box::new(copy_relation_expr(&**input)),
            count: copy_expr(count),
        },
    };
    assert(r@ =~~= e@);
    r
}

impl Clone for RelationExpr {
    fn clone(&self) -> (r: Self)
        ensures
            r@ == self@,
    {
        copy_relation_expr(self)
    }
}

// -- From queries ----------------------------------------------

/// The columns of a result as a projection.
pub open spec fn lower_items(items: Seq<SelectItemView>) -> Seq<ProjectionItemView> {
    Seq::new(
        items.len(),
        |i: int|
            match items[i].kind {
                SelectItemKindView::Expr(expr) => ProjectionItemView::Expr {
                    expr,
                    alias: items[i].alias,
                },
                SelectItemKindView::Wildcard => ProjectionItemView::Wildcard,
            },
    )
}

/// Whether a join is of a kind that takes no constraint and has one.
pub open spec fn crossed(join_type: JoinType, constraint: JoinConstraintView) -> bool {
    join_type == JoinType::Cross && !(constraint is Unconstrained)
}

/// The tables of a query, joined from the left.
pub open spec fn lower_table(t: TableRefView) -> Result<RelationExprView, Seq<char>>
    decreases t, t.joins.len() + 1,
{
    lower_joins(t, t.joins.len())
}

/// A table with the first `n` of those joined to it.
pub open spec fn lower_joins(t: TableRefView, n: nat) -> Result<RelationExprView, Seq<char>>
    decreases t, n,
{
    if n == 0 || n > t.joins.len() {
        Ok(RelationExprView::TableScan { table: t.name, alias: t.alias })
    } else {
        let j = t.joins[n - 1];
        match lower_joins(t, (n - 1) as nat) {
            Ok(left) => if crossed(j.join_type, j.constraint) {
                Err("CROSS JOIN cannot have ON or USING constraint"@)
            } else {
                match lower_table(j.table) {
                    Ok(right) => Ok(
                        RelationExprView::Join {
                            left: Box::new(left),
                            right: Box::new(right),
                            join_type: j.join_type,
                            constraint: j.constraint,
                        },
                    ),
                    Err(e) => Err(e),
                }
            },
            Err(e) => Err(e),
        }
    }
}

/// A query: its tables, the rows that are wanted, their columns, their order and
/// how many.
pub open spec fn lower_select(s: SelectStmtView) -> Result<RelationExprView, Seq<char>> {
    let source = match s.from {
        Some(t) => lower_table(t),
        None => Ok(RelationExprView::OneRow),
    };
    match source {
        Ok(r) => {
            let chosen = match s.where_clause {
                Some(predicate) => RelationExprView::Selection { input: Box::new(r), predicate },
                None => r,
            };
            let shown = RelationExprView::Projection {
                input: Box::new(chosen),
                items: lower_items(s.projection),
            };
            let ordered = if s.order_by.len() > 0 {
                RelationExprView::Order { input: Box::new(shown), items: s.order_by }
            } else {
                shown
            };
            Ok(
                match s.limit {
                    Some(count) => RelationExprView::Limit { input: Box::new(ordered), count },
                    None => ordered,
                },
            )
        },
        Err(e) => Err(e),
    }
}

impl RelationExpr {
    /// A query.
    pub fn from_select(select: &SelectStmt) -> (r: Result<Self, RelationError>)
        ensures
            match r {
                Ok(v) => lower_select(select@) == Ok::<RelationExprView, Seq<char>>(v@),
                Err(e) => lower_select(select@) == Err::<RelationExprView, Seq<char>>(e.message@),
            },
    {
        select_to_relation(select)
    }

    /// The columns `items` of it.
    pub fn project(self, items: Vec<ProjectionItem>) -> (r: Self)
        ensures
            r@ == (RelationExprView::Projection {
                input: Box::new(self@),
                items: projection_item_views(items@),
            }),
    {
        RelationExpr::Projection { input: Box::new(self), items }
    }

    /// The rows of it for which a predicate holds.
    pub fn select(self, predicate: Expr) -> (r: Self)
        ensures
            r@ == (RelationExprView::Selection { input: Box::new(self@), predicate: predicate@ }),
    {
        RelationExpr::Selection { input: Box::new(self), predicate }
    }

    /// Its rows in an order.
    pub fn order(self, items: Vec<OrderByItem>) -> (r: Self)
        ensures
            r@ == (RelationExprView::Order {
                input: Box::new(self@),
                items: order_by_item_views(items@),
            }),
    {
        RelationExpr::Order { input: Box::new(self), items }
    }

    /// The first rows of it.
    pub fn limit(self, count: Expr) -> (r: Self)
        ensures
            r@ == (RelationExprView::Limit { input: Box::new(self@), count: count@ }),
    {
        RelationExpr::Limit { input: Box::new(self), count }
    }
}

/// A query as relational algebra.
pub fn select_to_relation(select: &SelectStmt) -> (r: Result<RelationExpr, RelationError>)
    ensures
        match r {
            Ok(v) => lower_select(select@) == Ok::<RelationExprView, Seq<char>>(v@),
            Err(e) => lower_select(select@) == Err::<RelationExprView, Seq<char>>(e.message@),
        },
{
    let source = match &select.from {
        Some(from) => match table_ref_to_relation(from) {
            Ok(r) => r,
            Err(e) => return Err(e),
        },
        None => RelationExpr::OneRow,
    };
    let chosen = match &select.where_clause {
        Some(predicate) => source.select(predicate.clone()),
        None => source,
    };
    let shown = chosen.project(projection_items(&select.projection));
    let ordered = if select.order_by.len() > 0 {
        shown.order(copy_order_by_items(&select.order_by))
    } else {
        shown
    };
    Ok(
        match &select.limit {
            Some(count) => ordered.limit(count.clone()),
            None => ordered,
        },
    )
}

/// The tables of a query, joined from the left.
pub fn table_ref_to_relation(table_ref: &TableRef) -> (r: Result<RelationExpr, RelationError>)
    ensures
        match r {
            Ok(v) => lower_table(table_ref@) == Ok::<RelationExprView, Seq<char>>(v@),
            Err(e) => lower_table(table_ref@) == Err::<RelationExprView, Seq<char>>(e.message@),
        },
    decreases table_ref,
{
    broadcast use table_ref_parts;

    let mut relation = RelationExpr::TableScan {
        table: table_ref.name.clone(),
        alias: match &table_ref.alias {
            Some(a) => Some(a.clone()),
            None => None,
        },
    };
    let ghost t = table_ref@;
    let mut i: usize = 0;
    while i < table_ref.joins.len()
        invariant
            t == table_ref@,
            t.joins == join_clause_views(table_ref.joins@),
            i <= table_ref.joins@.len(),
            lower_joins(t, i as nat) == Ok::<RelationExprView, Seq<char>>(relation@),
            decreases_to!(table_ref => table_ref.joins@),
        decreases table_ref.joins.len() - i,
    {
        let join = &table_ref.joins[i];
        assert(t.joins[i as int] == join@);
        proof {
            stops_early(t, (i + 1) as nat);
        }
        let constrained = match &join.constraint {
            JoinConstraint::Unconstrained => false,
            _ => true,
        };
        if join.join_type == JoinType::Cross && constrained {
            return Err(RelationError::new("CROSS JOIN cannot have ON or USING constraint"));
        }
        let right = match table_ref_to_relation(&join.table) {
            Ok(r) => r,
            Err(e) => return Err(e),
        };
        relation = RelationExpr::Join {
            left: Box::new(relation),
            right: Box::new(right),
            join_type: join.join_type,
            constraint: join.constraint.clone(),
        };
        i = i + 1;
    }
    Ok(relation)
}

/// An error in the first joins is the error of all.
proof fn stops_early(t: TableRefView, n: nat)
    requires
        n <= t.joins.len(),
    ensures
        lower_joins(t, n) is Err ==> lower_table(t) == lower_joins(t, n),
    decreases t.joins.len() - n,
{
    if n < t.joins.len() {
        stops_early(t, n + 1);
    }
}

/// The columns of a result as a projection.
pub fn projection_items(items: &Vec<SelectItem>) -> (r: Vec<ProjectionItem>)
    ensures
        projection_item_views(r@) == lower_items(select_item_views(items@)),
{
    let mut r: Vec<ProjectionItem> = Vec::new();
    let mut i: usize = 0;
    while i < items.len()
        invariant
            i <= items@.len(),
            r@.len() == i,
            forall|j: int|
                0 <= j < i ==> (#[trigger] r@[j])@ == lower_items(select_item_views(items@))[j],
        decreases items.len() - i,
    {
        let item = &items[i];
        assert(select_item_views(items@)[i as int] == item@);
        let alias = match &item.alias {
            Some(a) => Some(a.clone()),
            None => None,
        };
        match &item.kind {
            SelectItemKind::Expr(expr) => r.push(
                ProjectionItem::Expr { expr: expr.clone(), alias },
            ),
            SelectItemKind::Wildcard => r.push(ProjectionItem::Wildcard),
        }
        i = i + 1;
    }
    assert(projection_item_views(r@) =~= lower_items(select_item_views(items@)));
    r
}

} // verus!
