//! Plans: how the rows of a query are found.
use vstd::prelude::*;

use crate::sql::ast::{
    copy_expr, copy_join_constraint, copy_order_by_items, copy_table_name, expr_view,
    join_constraint_view, order_by_item_views, same_order_by_items, table_name_view, Expr, ExprView,
    JoinConstraint, JoinConstraintView, JoinType, OrderByItem, OrderByItemView, TableName,
    TableNameView,
};
use crate::sql::relation::{
    copy_projection_items, projection_item_views, ProjectionItem, ProjectionItemView,
};

verus! {

/// What holds of the rows of a plan.
#[derive(Debug, PartialEq)]
pub struct PhysicalProperties {
    pub ordering: Vec<OrderByItem>,
}

/// What holds of the rows of a plan.
#[verifier::ext_equal]
pub struct PhysicalPropertiesView {
    pub ordering: Seq<OrderByItemView>,
}

/// What is in it.
pub open spec fn physical_properties_view(e: PhysicalProperties) -> PhysicalPropertiesView {
    PhysicalPropertiesView { ordering: order_by_item_views(e.ordering@) }
}

impl View for PhysicalProperties {
    type V = PhysicalPropertiesView;

    open spec fn view(&self) -> PhysicalPropertiesView {
        physical_properties_view(*self)
    }
}

/// A copy.
pub fn copy_physical_properties(e: &PhysicalProperties) -> (r: PhysicalProperties)
    ensures
        r@ == e@,
{
    let r = PhysicalProperties { ordering: copy_order_by_items((&e.ordering)) };
    assert(r@ =~~= e@);
    r
}

impl Clone for PhysicalProperties {
    fn clone(&self) -> (r: Self)
        ensures
            r@ == self@,
    {
        copy_physical_properties(self)
    }
}

/// What is asked of the rows of a plan.
#[derive(Debug, PartialEq)]
pub struct RequiredProperties {
    pub ordering: Vec<OrderByItem>,
}

/// What is asked of the rows of a plan.
#[verifier::ext_equal]
pub struct RequiredPropertiesView {
    pub ordering: Seq<OrderByItemView>,
}

/// What is in it.
pub open spec fn required_properties_view(e: RequiredProperties) -> RequiredPropertiesView {
    RequiredPropertiesView { ordering: order_by_item_views(e.ordering@) }
}

impl View for RequiredProperties {
    type V = RequiredPropertiesView;

    open spec fn view(&self) -> RequiredPropertiesView {
        required_properties_view(*self)
    }
}

/// A copy.
pub fn copy_required_properties(e: &RequiredProperties) -> (r: RequiredProperties)
    ensures
        r@ == e@,
{
    let r = RequiredProperties { ordering: copy_order_by_items((&e.ordering)) };
    assert(r@ =~~= e@);
    r
}

impl Clone for RequiredProperties {
    fn clone(&self) -> (r: Self)
        ensures
            r@ == self@,
    {
        copy_required_properties(self)
    }
}

/// How rows are found.
#[derive(Debug, PartialEq)]
pub enum PhysicalPlanNode {
    OneRow,
    SeqScan { table: TableName, alias: Option<String> },
    Filter { predicate: Expr, input: Box<PhysicalPlan> },
    Project { items: Vec<ProjectionItem>, input: Box<PhysicalPlan> },
    NestedLoopJoin {
        join_type: JoinType,
        constraint: JoinConstraint,
        left: Box<PhysicalPlan>,
        right: Box<PhysicalPlan>,
    },
    HashJoin {
        join_type: JoinType,
        constraint: JoinConstraint,
        left: Box<PhysicalPlan>,
        right: Box<PhysicalPlan>,
    },
    Sort { items: Vec<OrderByItem>, input: Box<PhysicalPlan> },
    Limit { count: Expr, input: Box<PhysicalPlan> },
}

/// How rows are found.
#[verifier::ext_equal]
pub enum PhysicalPlanNodeView {
    OneRow,
    SeqScan { table: TableNameView, alias: Option<Seq<char>> },
    Filter { predicate: ExprView, input: Box<PhysicalPlanView> },
    Project { items: Seq<ProjectionItemView>, input: Box<PhysicalPlanView> },
    NestedLoopJoin {
        join_type: JoinType,
        constraint: JoinConstraintView,
        left: Box<PhysicalPlanView>,
        right: Box<PhysicalPlanView>,
    },
    HashJoin {
        join_type: JoinType,
        constraint: JoinConstraintView,
        left: Box<PhysicalPlanView>,
        right: Box<PhysicalPlanView>,
    },
    Sort { items: Seq<OrderByItemView>, input: Box<PhysicalPlanView> },
    Limit { count: ExprView, input: Box<PhysicalPlanView> },
}

/// What is in it.
pub open spec fn physical_plan_node_view(e: PhysicalPlanNode) -> PhysicalPlanNodeView
    decreases e,
{
    match e {
        PhysicalPlanNode::OneRow => PhysicalPlanNodeView::OneRow,
        PhysicalPlanNode::SeqScan { table, alias } => PhysicalPlanNodeView::SeqScan {
            table: table_name_view(table),
            alias: match alias { Some(z) => Some(z@), None => None },
        },
        PhysicalPlanNode::Filter { predicate, input } => PhysicalPlanNodeView::Filter {
            predicate: expr_view(predicate),
            input: Box::new(physical_plan_view(*input)),
        },
        PhysicalPlanNode::Project { items, input } => PhysicalPlanNodeView::Project {
            items: projection_item_views(items@),
            input: Box::new(physical_plan_view(*input)),
        },
        PhysicalPlanNode::NestedLoopJoin { join_type, constraint, left, right } => PhysicalPlanNodeView::NestedLoopJoin {
            join_type: join_type,
            constraint: join_constraint_view(constraint),
            left: Box::new(physical_plan_view(*left)),
            right: Box::new(physical_plan_view(*right)),
        },
        PhysicalPlanNode::HashJoin { join_type, constraint, left, right } => PhysicalPlanNodeView::HashJoin {
            join_type: join_type,
            constraint: join_constraint_view(constraint),
            left: Box::new(physical_plan_view(*left)),
            right: Box::new(physical_plan_view(*right)),
        },
        PhysicalPlanNode::Sort { items, input } => PhysicalPlanNodeView::Sort {
            items: order_by_item_views(items@),
            input: Box::new(physical_plan_view(*input)),
        },
        PhysicalPlanNode::Limit { count, input } => PhysicalPlanNodeView::Limit {
            count: expr_view(count),
            input: Box::new(physical_plan_view(*input)),
        },
    }
}

impl View for PhysicalPlanNode {
    type V = PhysicalPlanNodeView;

    open spec fn view(&self) -> PhysicalPlanNodeView {
        physical_plan_node_view(*self)
    }
}

/// A copy.
pub fn copy_physical_plan_node(e: &PhysicalPlanNode) -> (r: PhysicalPlanNode)
    ensures
        r@ == e@,
    decreases e,
{
    let r = match e {
        PhysicalPlanNode::OneRow => PhysicalPlanNode::OneRow,
        PhysicalPlanNode::SeqScan { table, alias } => PhysicalPlanNode::SeqScan {
            table: copy_table_name(table),
            alias: match alias { Some(z) => Some(z.clone()), None => None },
        },
        PhysicalPlanNode::Filter { predicate, input } => PhysicalPlanNode::Filter {
            predicate: copy_expr(predicate),
            input: Box::new(copy_physical_plan(&**input)),
        },
        PhysicalPlanNode::Project { items, input } => PhysicalPlanNode::Project {
            items: copy_projection_items(items),
            input: Box::new(copy_physical_plan(&**input)),
        },
        PhysicalPlanNode::NestedLoopJoin { join_type, constraint, left, right } => PhysicalPlanNode::NestedLoopJoin {
            join_type: *join_type,
            constraint: copy_join_constraint(constraint),
            left: Box::new(copy_physical_plan(&**left)),
            right: Box::new(copy_physical_plan(&**right)),
        },
        PhysicalPlanNode::HashJoin { join_type, constraint, left, right } => PhysicalPlanNode::HashJoin {
            join_type: *join_type,
            constraint: copy_join_constraint(constraint),
            left: Box::new(copy_physical_plan(&**left)),
            right: Box::new(copy_physical_plan(&**right)),
        },
        PhysicalPlanNode::Sort { items, input } => PhysicalPlanNode::Sort {
            items: copy_order_by_items(items),
            input: Box::new(copy_physical_plan(&**input)),
        },
        PhysicalPlanNode::Limit { count, input } => PhysicalPlanNode::Limit {
            count: copy_expr(count),
            input: Box::new(copy_physical_plan(&**input)),
        },
    };
    assert(r@ =~~= e@);
    r
}

impl Clone for PhysicalPlanNode {
    fn clone(&self) -> (r: Self)
        ensures
            r@ == self@,
    {
        copy_physical_plan_node(self)
    }
}

/// A way to find rows, with its cost and the number of rows, given as the bits of
/// reals.
#[derive(Debug, PartialEq)]
pub struct PhysicalPlan {
    pub node: PhysicalPlanNode,
    pub cost: u64,
    pub rows: u64,
    pub properties: PhysicalProperties,
}

/// A way to find rows, with its cost and the number of rows.
#[verifier::ext_equal]
pub struct PhysicalPlanView {
    pub node: PhysicalPlanNodeView,
    pub cost: u64,
    pub rows: u64,
    pub properties: PhysicalPropertiesView,
}

/// What is in it.
pub open spec fn physical_plan_view(e: PhysicalPlan) -> PhysicalPlanView
    decreases e,
{
    PhysicalPlanView {
        node: physical_plan_node_view(e.node),
        cost: e.cost,
        rows: e.rows,
        properties: physical_properties_view(e.properties),
    }
}

impl View for PhysicalPlan {
    type V = PhysicalPlanView;

    open spec fn view(&self) -> PhysicalPlanView {
        physical_plan_view(*self)
    }
}

/// A copy.
pub fn copy_physical_plan(e: &PhysicalPlan) -> (r: PhysicalPlan)
    ensures
        r@ == e@,
    decreases e,
{
    let r = PhysicalPlan {
        node: copy_physical_plan_node((&e.node)),
        cost: e.cost,
        rows: e.rows,
        properties: copy_physical_properties((&e.properties)),
    };
    assert(r@ =~~= e@);
    r
}

impl Clone for PhysicalPlan {
    fn clone(&self) -> (r: Self)
        ensures
            r@ == self@,
    {
        copy_physical_plan(self)
    }
}

impl RequiredProperties {
    /// Nothing is asked.
    pub fn any() -> (r: Self)
        ensures
            r@.ordering == Seq::<OrderByItemView>::empty(),
    {
        let r = RequiredProperties { ordering: Vec::new() };
        assert(r@.ordering =~= Seq::<OrderByItemView>::empty());
        r
    }

    /// An order is asked.
    pub fn ordered(ordering: Vec<OrderByItem>) -> (r: Self)
        ensures
            r@.ordering == order_by_item_views(ordering@),
    {
        RequiredProperties { ordering }
    }
}

impl Default for RequiredProperties {
    fn default() -> (r: Self)
        ensures
            r@.ordering == Seq::<OrderByItemView>::empty(),
    {
        RequiredProperties::any()
    }
}

/// Whether rows are in an order that is asked: in that very order, where one is
/// asked.
pub open spec fn satisfied(p: PhysicalPropertiesView, r: RequiredPropertiesView) -> bool {
    r.ordering.len() == 0 || p.ordering == r.ordering
}

impl PhysicalProperties {
    /// Nothing holds.
    pub fn any() -> (r: Self)
        ensures
            r@.ordering == Seq::<OrderByItemView>::empty(),
    {
        let r = PhysicalProperties { ordering: Vec::new() };
        assert(r@.ordering =~= Seq::<OrderByItemView>::empty());
        r
    }

    /// Rows are in an order.
    pub fn ordered(ordering: Vec<OrderByItem>) -> (r: Self)
        ensures
            r@.ordering == order_by_item_views(ordering@),
    {
        PhysicalProperties { ordering }
    }

    /// Whether rows are in an order that is asked.
    pub fn satisfies(&self, required: &RequiredProperties) -> (r: bool)
        ensures
            r == satisfied(self@, required@),
    {
        required.ordering.len() == 0 || same_order_by_items(&self.ordering, &required.ordering)
    }
}

impl Default for PhysicalProperties {
    fn default() -> (r: Self)
        ensures
            r@.ordering == Seq::<OrderByItemView>::empty(),
    {
        PhysicalProperties::any()
    }
}

} // verus!
