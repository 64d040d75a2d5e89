//! The search for the cheapest plan.
use vstd::prelude::*;
use vstd::string::StringExecFns;

use crate::sql::ast::{
    copy_expr, copy_join_constraint, copy_order_by_items, copy_table_name, order_by_item_views,
    same_order_by_items, JoinConstraint, JoinConstraintView, JoinType,
};
use crate::sql::cost::{
    equality, estimate_join_rows, estimate_sort_cost, is_at_most, is_equality_constraint, is_known,
    is_less, join_rows, larger, larger_of, plus, price, priced, product, real_le, real_lt,
    real_order, smaller, smaller_of, sort_cost, sum, times, usual_config, OptimizerConfig,
    LIMIT_COST, ONE, ONE_ROW_COST, SELECTIVITY, ZERO,
};
use crate::sql::memo::{
    copy_memo_exprs, count_up, explored, expr_ok, inserted, memo_expr_views, memo_ok, one_more,
    GroupView, LogicalOp, LogicalOpView, Memo, MemoExpr, MemoExprView,
};
use crate::sql::plan::{
    copy_physical_plan, copy_required_properties, satisfied, PhysicalPlan, PhysicalPlanNode,
    PhysicalPlanNodeView, PhysicalPlanView, PhysicalProperties, PhysicalPropertiesView,
    RequiredProperties, RequiredPropertiesView,
};
use crate::sql::reals::{Answers, Asked, RealAnswers, RealQuestion, RealQuestionView};
use crate::sql::relation::{copy_projection_items, RelationExpr, RelationExprView};
use crate::sql::soundness::{answers, best_plan_answers};

verus! {

/// What a search has done.
#[derive(Clone, Copy, Debug, PartialEq, Eq, Structural)]
pub struct OptimizerStats {
    pub explored_expressions: usize,
    pub pruned_expressions: usize,
    pub applied_enforcers: usize,
    pub applied_rules: usize,
}

/// Nothing has been done.
pub open spec fn no_stats() -> OptimizerStats {
    OptimizerStats {
        explored_expressions: 0,
        pruned_expressions: 0,
        applied_enforcers: 0,
        applied_rules: 0,
    }
}

impl Default for OptimizerStats {
    fn default() -> (r: Self)
        ensures
            r == no_stats(),
    {
        OptimizerStats {
            explored_expressions: 0,
            pruned_expressions: 0,
            applied_enforcers: 0,
            applied_rules: 0,
        }
    }
}

/// Why there is no plan.
#[derive(Debug, PartialEq)]
pub struct OptimizeError {
    pub message: String,
}

impl OptimizeError {
    /// The error in words.
    pub fn text(&self) -> (r: String)
        ensures
            r@ == "optimizer error: "@ + self.message@,
    {
        let mut s = String::from_str("optimizer error: ");
        s.append(self.message.as_str());
        s
    }
}

// -- Lower bounds ----------------------------------------------

/// What a relation costs at least, without those it is over.
pub open spec fn least_cost(cfg: OptimizerConfig, op: LogicalOpView) -> u64 {
    match op {
        LogicalOpView::OneRow => ONE_ROW_COST,
        LogicalOpView::TableScan { table, alias } => cfg.seq_scan_startup_cost,
        LogicalOpView::Projection { items } => cfg.projection_cost,
        LogicalOpView::Selection { predicate } => cfg.predicate_cost,
        LogicalOpView::Join { join_type, constraint } => cfg.hash_join_tuple_cost,
        LogicalOpView::Order { items } => ZERO,
        LogicalOpView::Limit { count } => ZERO,
    }
}

/// What the relations of a group cost at least.
pub open spec fn lower_bound_group(
    r: Answers,
    cfg: OptimizerConfig,
    m: Seq<GroupView>,
    g: int,
) -> Asked<u64>
    decreases g, 3int, 0int,
{
    lower_bound_all(r, cfg, m, g, m[g].expressions)
}

/// What the cheapest of some relations of group `g` costs at least.
pub open spec fn lower_bound_all(
    r: Answers,
    cfg: OptimizerConfig,
    m: Seq<GroupView>,
    g: int,
    es: Seq<MemoExprView>,
) -> Asked<u64>
    decreases g, 2int, es.len(),
{
    if es.len() == 0 {
        Ok(0x7ff0000000000000)
    } else {
        match lower_bound_all(r, cfg, m, g, es.drop_last()) {
            Err(q) => Err(q),
            Ok(a) => match lower_bound_expr(r, cfg, m, g, es.last()) {
                Err(q) => Err(q),
                Ok(b) => Ok(smaller(a, b)),
            },
        }
    }
}

/// What a relation of group `g` costs at least.
pub open spec fn lower_bound_expr(
    r: Answers,
    cfg: OptimizerConfig,
    m: Seq<GroupView>,
    g: int,
    e: MemoExprView,
) -> Asked<u64>
    decreases g, 1int, 0int,
{
    match lower_bound_below(r, cfg, m, g, e.children) {
        Err(q) => Err(q),
        Ok(below) => plus(r, below, least_cost(cfg, e.op)),
    }
}

/// What groups before `g` cost at least together.
pub open spec fn lower_bound_below(
    r: Answers,
    cfg: OptimizerConfig,
    m: Seq<GroupView>,
    g: int,
    kids: Seq<usize>,
) -> Asked<u64>
    decreases g, 0int, kids.len(),
{
    if kids.len() == 0 {
        Ok(ZERO)
    } else {
        match lower_bound_below(r, cfg, m, g, kids.drop_last()) {
            Err(q) => Err(q),
            Ok(a) => {
                let last = if kids.last() < g {
                    lower_bound_group(r, cfg, m, kids.last() as int)
                } else {
                    Ok(ZERO)
                };
                match last {
                    Err(q) => Err(q),
                    Ok(b) => plus(r, a, b),
                }
            },
        }
    }
}

// -- The search ------------------------------------------------

/// The best plans that are known of each group, by what was asked of them, and
/// what has been done.
#[verifier::ext_equal]
pub struct SearchView {
    pub best: Seq<Seq<(RequiredPropertiesView, Option<PhysicalPlanView>)>>,
    pub stats: OptimizerStats,
}

/// A plan, where there is one, and what is known then.
pub type Found = (Option<PhysicalPlanView>, SearchView);

/// Nothing is asked.
pub open spec fn nothing_asked() -> RequiredPropertiesView {
    RequiredPropertiesView { ordering: seq![] }
}

/// A plan whose rows are in no known order.
pub open spec fn unordered() -> PhysicalPropertiesView {
    PhysicalPropertiesView { ordering: seq![] }
}

/// A plan with its rows sorted.
pub open spec fn sorted_plan(
    plan: PhysicalPlanView,
    req: RequiredPropertiesView,
    cost: u64,
) -> PhysicalPlanView {
    PhysicalPlanView {
        node: PhysicalPlanNodeView::Sort { items: req.ordering, input: Box::new(plan) },
        cost,
        rows: plan.rows,
        properties: PhysicalPropertiesView { ordering: req.ordering },
    }
}

/// A plan with what was asked of it, where that is within a bound: it is sorted
/// where it has to be.
pub open spec fn enforced(
    r: Answers,
    cfg: OptimizerConfig,
    plan: PhysicalPlanView,
    req: RequiredPropertiesView,
    bound: u64,
    s: SearchView,
) -> Asked<Found> {
    if satisfied(plan.properties, req) {
        Ok(
            (
                if real_le(plan.cost, bound) {
                    Some(plan)
                } else {
                    None
                },
                s,
            ),
        )
    } else {
        match sort_cost(r, plan.rows, cfg.sort_cost_factor) {
            Err(q) => Err(q),
            Ok(sorting) => match plus(r, plan.cost, sorting) {
                Err(q) => Err(q),
                Ok(cost) => if real_lt(bound, cost) {
                    Ok((None, pruned(s)))
                } else {
                    Ok((Some(sorted_plan(plan, req, cost)), enforcer_applied(s)))
                },
            },
        }
    }
}

/// One more plan was sorted.
pub open spec fn enforcer_applied(s: SearchView) -> SearchView {
    SearchView {
        stats: OptimizerStats {
            applied_enforcers: one_more(s.stats.applied_enforcers),
            ..s.stats
        },
        ..s
    }
}

/// One more relation was given up.
pub open spec fn pruned(s: SearchView) -> SearchView {
    SearchView {
        stats: OptimizerStats {
            pruned_expressions: one_more(s.stats.pruned_expressions),
            ..s.stats
        },
        ..s
    }
}

/// One more relation was looked at.
pub open spec fn looked_at(s: SearchView) -> SearchView {
    SearchView {
        stats: OptimizerStats {
            explored_expressions: one_more(s.stats.explored_expressions),
            ..s.stats
        },
        ..s
    }
}

/// What is known of the best plan of a group.
pub open spec fn remembered(
    known: Seq<(RequiredPropertiesView, Option<PhysicalPlanView>)>,
    req: RequiredPropertiesView,
) -> Option<Option<PhysicalPlanView>>
    decreases known.len(),
{
    if known.len() == 0 {
        None
    } else {
        match remembered(known.drop_last(), req) {
            Some(p) => Some(p),
            None => if known.last().0 == req {
                Some(known.last().1)
            } else {
                None
            },
        }
    }
}

/// A plan, if it is within a bound.
pub open spec fn affordable(p: Option<PhysicalPlanView>, bound: u64) -> Option<PhysicalPlanView> {
    match p {
        Some(plan) => if real_le(plan.cost, bound) {
            Some(plan)
        } else {
            None
        },
        None => None,
    }
}

/// The best plan of a group within a bound.
pub open spec fn best_of_group(
    r: Answers,
    cfg: OptimizerConfig,
    m: Seq<GroupView>,
    g: int,
    req: RequiredPropertiesView,
    bound: u64,
    s: SearchView,
) -> Asked<Found>
    decreases g, 3int, 0int,
{
    match remembered(s.best[g], req) {
        Some(p) => Ok((affordable(p, bound), s)),
        None => match best_of_all(r, cfg, m, g, m[g].expressions, req, bound, s) {
            Err(q) => Err(q),
            Ok(t) => Ok((t.plan, with_best(t.search, g, req, t.plan))),
        },
    }
}

/// What is known once the best plan of a group is.
pub open spec fn with_best(
    s: SearchView,
    g: int,
    req: RequiredPropertiesView,
    p: Option<PhysicalPlanView>,
) -> SearchView {
    SearchView { best: s.best.update(g, s.best[g].push((req, p))), ..s }
}

/// The best plan so far.
pub struct TrialView {
    pub plan: Option<PhysicalPlanView>,
    pub cost: u64,
    pub search: SearchView,
}

/// The best plan after one more was found.
pub open spec fn tried(t: TrialView, found: Found) -> TrialView {
    match found.0 {
        Some(plan) => if real_lt(plan.cost, t.cost) {
            TrialView { plan: found.0, cost: plan.cost, search: found.1 }
        } else {
            TrialView { search: found.1, ..t }
        },
        None => TrialView { search: found.1, ..t },
    }
}

/// The best plan of some relations of group `g`, within a bound.
pub open spec fn best_of_all(
    r: Answers,
    cfg: OptimizerConfig,
    m: Seq<GroupView>,
    g: int,
    es: Seq<MemoExprView>,
    req: RequiredPropertiesView,
    bound: u64,
    s: SearchView,
) -> Asked<TrialView>
    decreases g, 2int, es.len(),
{
    if es.len() == 0 {
        Ok(TrialView { plan: None, cost: bound, search: s })
    } else {
        match best_of_all(r, cfg, m, g, es.drop_last(), req, bound, s) {
            Err(q) => Err(q),
            Ok(t) => one_try(r, cfg, m, g, es.last(), req, t),
        }
    }
}

/// The best plan after one more relation of group `g` was looked at, or given up.
pub open spec fn one_try(
    r: Answers,
    cfg: OptimizerConfig,
    m: Seq<GroupView>,
    g: int,
    e: MemoExprView,
    req: RequiredPropertiesView,
    t: TrialView,
) -> Asked<TrialView>
    decreases g, 1int, 1int,
{
    match lower_bound_expr(r, cfg, m, g, e) {
        Err(q) => Err(q),
        Ok(least) => if real_le(t.cost, least) {
            Ok(TrialView { search: pruned(t.search), ..t })
        } else {
            match plan_of_expr(r, cfg, m, g, e, req, t.cost, looked_at(t.search)) {
                Err(q) => Err(q),
                Ok(found) => Ok(tried(t, found)),
            }
        },
    }
}

/// A plan for rows that a condition holds of.
pub open spec fn filter_plan(
    r: Answers,
    cfg: OptimizerConfig,
    predicate: crate::sql::ast::ExprView,
    child: PhysicalPlanView,
) -> Asked<PhysicalPlanView> {
    match times(r, child.rows, SELECTIVITY) {
        Err(q) => Err(q),
        Ok(share) => match priced(r, child.cost, child.rows, cfg.predicate_cost) {
            Err(q) => Err(q),
            Ok(cost) => Ok(
                PhysicalPlanView {
                    node: PhysicalPlanNodeView::Filter { predicate, input: Box::new(child) },
                    cost,
                    rows: larger(share, ONE),
                    properties: child.properties,
                },
            ),
        },
    }
}

/// A plan for computed columns.
pub open spec fn project_plan(
    r: Answers,
    cfg: OptimizerConfig,
    items: Seq<crate::sql::relation::ProjectionItemView>,
    child: PhysicalPlanView,
) -> Asked<PhysicalPlanView> {
    match priced(r, child.cost, child.rows, cfg.projection_cost) {
        Err(q) => Err(q),
        Ok(cost) => Ok(
            PhysicalPlanView {
                node: PhysicalPlanNodeView::Project { items, input: Box::new(child) },
                cost,
                rows: child.rows,
                properties: child.properties,
            },
        ),
    }
}

/// A plan for the first rows.
pub open spec fn limit_plan(
    r: Answers,
    cfg: OptimizerConfig,
    count: crate::sql::ast::ExprView,
    child: PhysicalPlanView,
) -> Asked<PhysicalPlanView> {
    match times(r, child.rows, cfg.limit_selectivity) {
        Err(q) => Err(q),
        Ok(share) => {
            let rows = larger(share, ONE);
            match priced(r, child.cost, rows, LIMIT_COST) {
                Err(q) => Err(q),
                Ok(cost) => Ok(
                    PhysicalPlanView {
                        node: PhysicalPlanNodeView::Limit { count, input: Box::new(child) },
                        cost,
                        rows,
                        properties: child.properties,
                    },
                ),
            }
        },
    }
}

/// A plan for a single row.
pub open spec fn one_row_plan() -> PhysicalPlanView {
    PhysicalPlanView {
        node: PhysicalPlanNodeView::OneRow,
        cost: ONE_ROW_COST,
        rows: ONE,
        properties: unordered(),
    }
}

/// A plan for all rows of a table.
pub open spec fn scan_plan(
    r: Answers,
    cfg: OptimizerConfig,
    table: crate::sql::ast::TableNameView,
    alias: Option<Seq<char>>,
) -> Asked<PhysicalPlanView> {
    match priced(r, cfg.seq_scan_startup_cost, cfg.default_table_rows, cfg.row_read_cost) {
        Err(q) => Err(q),
        Ok(cost) => Ok(
            PhysicalPlanView {
                node: PhysicalPlanNodeView::SeqScan { table, alias },
                cost,
                rows: cfg.default_table_rows,
                properties: unordered(),
            },
        ),
    }
}

/// The node of a join.
pub open spec fn join_node(
    hash: bool,
    join_type: JoinType,
    constraint: JoinConstraintView,
    left: PhysicalPlanView,
    right: PhysicalPlanView,
) -> PhysicalPlanNodeView {
    if hash {
        PhysicalPlanNodeView::HashJoin {
            join_type,
            constraint,
            left: Box::new(left),
            right: Box::new(right),
        }
    } else {
        PhysicalPlanNodeView::NestedLoopJoin {
            join_type,
            constraint,
            left: Box::new(left),
            right: Box::new(right),
        }
    }
}

/// A plan for pairs of rows: all of them in turn, or those that are looked up.
pub open spec fn pair_plan(
    r: Answers,
    cfg: OptimizerConfig,
    hash: bool,
    join_type: JoinType,
    constraint: JoinConstraintView,
    left: PhysicalPlanView,
    right: PhysicalPlanView,
) -> Asked<PhysicalPlanView> {
    match join_rows(r, left.rows, right.rows, join_type, constraint) {
        Err(q) => Err(q),
        Ok(rows) => match plus(r, left.cost, right.cost) {
            Err(q) => Err(q),
            Ok(sides) => {
                let tuples = if hash {
                    plus(r, left.rows, right.rows)
                } else {
                    times(r, left.rows, right.rows)
                };
                match tuples {
                    Err(q) => Err(q),
                    Ok(n) => match priced(
                        r,
                        sides,
                        n,
                        if hash {
                            cfg.hash_join_tuple_cost
                        } else {
                            cfg.nested_loop_tuple_cost
                        },
                    ) {
                        Err(q) => Err(q),
                        Ok(cost) => Ok(
                            PhysicalPlanView {
                                node: join_node(hash, join_type, constraint, left, right),
                                cost,
                                rows,
                                properties: if hash {
                                    unordered()
                                } else {
                                    left.properties
                                },
                            },
                        ),
                    },
                }
            },
        },
    }
}

/// A plan of a relation of group `g` within a bound.
pub open spec fn plan_of_expr(
    r: Answers,
    cfg: OptimizerConfig,
    m: Seq<GroupView>,
    g: int,
    e: MemoExprView,
    req: RequiredPropertiesView,
    bound: u64,
    s: SearchView,
) -> Asked<Found>
    decreases g, 1int, 0int,
{
    match e.op {
        LogicalOpView::OneRow => enforced(r, cfg, one_row_plan(), req, bound, s),
        LogicalOpView::TableScan { table, alias } => match scan_plan(r, cfg, table, alias) {
            Err(q) => Err(q),
            Ok(plan) => enforced(r, cfg, plan, req, bound, s),
        },
        LogicalOpView::Join { join_type, constraint } => plan_of_join(
            r,
            cfg,
            m,
            g,
            e.children[0] as int,
            e.children[1] as int,
            join_type,
            constraint,
            req,
            bound,
            s,
        ),
        _ => {
            let kid = e.children[0] as int;
            let best = if kid < g {
                best_of_group(r, cfg, m, kid, asked_of_child(e.op, req), bound, s)
            } else {
                Ok((None, s))
            };
            match best {
                Err(q) => Err(q),
                Ok((None, t)) => Ok((None, t)),
                Ok((Some(child), t)) => match plan_over(r, cfg, e.op, child) {
                    Err(q) => Err(q),
                    Ok(plan) => enforced(r, cfg, plan, req, bound, t),
                },
            }
        },
    }
}

/// What is asked of the rows below a relation.
pub open spec fn asked_of_child(
    op: LogicalOpView,
    req: RequiredPropertiesView,
) -> RequiredPropertiesView {
    match op {
        LogicalOpView::Order { items } => RequiredPropertiesView { ordering: items },
        _ => req,
    }
}

/// A plan of a relation over one other.
pub open spec fn plan_over(
    r: Answers,
    cfg: OptimizerConfig,
    op: LogicalOpView,
    child: PhysicalPlanView,
) -> Asked<PhysicalPlanView> {
    match op {
        LogicalOpView::Selection { predicate } => filter_plan(r, cfg, predicate, child),
        LogicalOpView::Projection { items } => project_plan(r, cfg, items, child),
        LogicalOpView::Limit { count } => limit_plan(r, cfg, count, child),
        _ => Ok(child),
    }
}

/// Two plans, where there are both, and what is known then.
pub type Pair = (Option<(PhysicalPlanView, PhysicalPlanView)>, SearchView);

/// The best plans of two groups.
pub open spec fn best_of_both(
    r: Answers,
    cfg: OptimizerConfig,
    m: Seq<GroupView>,
    g: int,
    a: int,
    b: int,
    req: RequiredPropertiesView,
    bound: u64,
    s: SearchView,
) -> Asked<Pair>
    decreases g, 0int, 0int,
{
    if 0 <= a < g && 0 <= b < g {
        match best_of_group(r, cfg, m, a, req, bound, s) {
            Err(q) => Err(q),
            Ok((None, t)) => Ok((None, t)),
            Ok((Some(left), t)) => match best_of_group(r, cfg, m, b, nothing_asked(), bound, t) {
                Err(q) => Err(q),
                Ok((None, u)) => Ok((None, u)),
                Ok((Some(right), u)) => Ok((Some((left, right)), u)),
            },
        }
    } else {
        Ok((None, s))
    }
}

/// What is asked of the rows on the left of a join.
pub open spec fn asked_of_left(
    join_type: JoinType,
    req: RequiredPropertiesView,
) -> RequiredPropertiesView {
    if join_type == JoinType::Inner || join_type == JoinType::Cross {
        nothing_asked()
    } else {
        req
    }
}

/// A join of groups before `g` by one of the two plans, within a bound.
pub open spec fn join_by(
    r: Answers,
    cfg: OptimizerConfig,
    m: Seq<GroupView>,
    g: int,
    a: int,
    b: int,
    hash: bool,
    join_type: JoinType,
    constraint: JoinConstraintView,
    req: RequiredPropertiesView,
    bound: u64,
    s: SearchView,
) -> Asked<(bool, Found)>
    decreases g, 0int, 1int,
{
    let left_req = if hash {
        nothing_asked()
    } else {
        asked_of_left(join_type, req)
    };
    match best_of_both(r, cfg, m, g, a, b, left_req, bound, s) {
        Err(q) => Err(q),
        Ok((None, t)) => Ok((false, (None, t))),
        Ok((Some((left, right)), t)) => match pair_plan(
            r,
            cfg,
            hash,
            join_type,
            constraint,
            left,
            right,
        ) {
            Err(q) => Err(q),
            Ok(plan) => match enforced(r, cfg, plan, req, bound, t) {
                Err(q) => Err(q),
                Ok(found) => Ok((true, found)),
            },
        },
    }
}

/// What a hash join of two groups costs at least.
pub open spec fn least_hash_cost(
    r: Answers,
    cfg: OptimizerConfig,
    m: Seq<GroupView>,
    g: int,
    a: int,
    b: int,
) -> Asked<u64>
    decreases g, 0int, 0int,
{
    if 0 <= a < g && 0 <= b < g {
        match lower_bound_group(r, cfg, m, a) {
            Err(q) => Err(q),
            Ok(x) => match lower_bound_group(r, cfg, m, b) {
                Err(q) => Err(q),
                Ok(y) => match plus(r, x, y) {
                    Err(q) => Err(q),
                    Ok(z) => plus(r, z, cfg.hash_join_tuple_cost),
                },
            },
        }
    } else {
        Ok(ZERO)
    }
}

/// A plan of a join of groups before `g`, within a bound: a nested loop, or a hash
/// join where the join is an inner one by equal columns and that is not dearer.
pub open spec fn plan_of_join(
    r: Answers,
    cfg: OptimizerConfig,
    m: Seq<GroupView>,
    g: int,
    a: int,
    b: int,
    join_type: JoinType,
    constraint: JoinConstraintView,
    req: RequiredPropertiesView,
    bound: u64,
    s: SearchView,
) -> Asked<Found>
    decreases g, 0int, 2int,
{
    match join_by(r, cfg, m, g, a, b, false, join_type, constraint, req, bound, s) {
        Err(q) => Err(q),
        Ok((_, (looped, u))) => {
            let cost = match looped {
                Some(p) => p.cost,
                None => bound,
            };
            if !(join_type == JoinType::Inner && equality(constraint)) {
                Ok((looped, u))
            } else {
                match least_hash_cost(r, cfg, m, g, a, b) {
                    Err(q) => Err(q),
                    Ok(least) => if real_le(cost, least) {
                        Ok((looped, pruned(u)))
                    } else {
                        match join_by(
                            r,
                            cfg,
                            m,
                            g,
                            a,
                            b,
                            true,
                            join_type,
                            constraint,
                            req,
                            cost,
                            u,
                        ) {
                            Err(q) => Err(q),
                            Ok((false, found)) => Ok(found),
                            Ok((true, (Some(p), w))) => Ok((Some(p), w)),
                            Ok((true, (None, w))) => Ok((looped, w)),
                        }
                    },
                }
            }
        },
    }
}

/// What is known when a search begins.
pub open spec fn first_search(groups: nat, rules: usize) -> SearchView {
    SearchView {
        best: Seq::new(groups, |i: int| seq![]),
        stats: OptimizerStats { applied_rules: rules, ..no_stats() },
    }
}

/// The best plan of a relation within a bound, and what was done to find it.
pub open spec fn best_plan(
    r: Answers,
    cfg: OptimizerConfig,
    rel: RelationExprView,
    req: RequiredPropertiesView,
    bound: u64,
) -> Asked<Found> {
    let (m, root) = inserted(rel, seq![]);
    let (n, rules) = explored(m, 0, root as int);
    best_of_group(r, cfg, n, root as int, req, bound, first_search(n.len(), rules))
}

// -- Laws ------------------------------------------------------

/// Whether all plans that are known are as they were asked to be.
pub open spec fn as_asked(s: SearchView) -> bool {
    forall|g: int, k: int|
        0 <= g < s.best.len() && 0 <= k < s.best[g].len() ==> match (
        #[trigger] s.best[g][k]).1 {
            Some(p) => satisfied(p.properties, s.best[g][k].0),
            None => true,
        }
}

proof fn remembered_as_asked(
    known: Seq<(RequiredPropertiesView, Option<PhysicalPlanView>)>,
    req: RequiredPropertiesView,
)
    requires
        forall|k: int|
            0 <= k < known.len() ==> match (#[trigger] known[k]).1 {
                Some(p) => satisfied(p.properties, known[k].0),
                None => true,
            },
    ensures
        remembered(known, req) matches Some(Some(p)) ==> satisfied(p.properties, req),
    decreases known.len(),
{
    if known.len() > 0 {
        let f = known.drop_last();
        assert forall|k: int| 0 <= k < f.len() implies match (#[trigger] f[k]).1 {
            Some(p) => satisfied(p.properties, f[k].0),
            None => true,
        } by {
            assert(f[k] == known[k]);
        }
        remembered_as_asked(f, req);
        assert(known.last() == known[known.len() - 1]);
    }
}

/// A plan with what was asked of it is as asked.
proof fn enforced_as_asked(
    r: Answers,
    cfg: OptimizerConfig,
    plan: PhysicalPlanView,
    req: RequiredPropertiesView,
    bound: u64,
    s: SearchView,
)
    ensures
        enforced(r, cfg, plan, req, bound, s) matches Ok((p, t)) ==> t.best == s.best && (
        p matches Some(q) ==> satisfied(q.properties, req)),
{
}

/// The best plan of a group is as asked, and within the bound.
pub proof fn group_as_asked(
    r: Answers,
    cfg: OptimizerConfig,
    m: Seq<GroupView>,
    g: int,
    req: RequiredPropertiesView,
    bound: u64,
    s: SearchView,
)
    requires
        0 <= g < m.len(),
        s.best.len() == m.len(),
        memo_ok(m),
        as_asked(s),
    ensures
        best_of_group(r, cfg, m, g, req, bound, s) matches Ok((p, t)) ==> {
            &&& as_asked(t)
            &&& t.best.len() == m.len()
            &&& p matches Some(q) ==> satisfied(q.properties, req) && real_le(q.cost, bound)
        },
    decreases g, 3int, 0int,
{
    let known = s.best[g];
    assert forall|k: int| 0 <= k < known.len() implies match (#[trigger] known[k]).1 {
        Some(p) => satisfied(p.properties, known[k].0),
        None => true,
    } by {
        assert(s.best[g][k] == known[k]);
    }
    remembered_as_asked(known, req);
    if remembered(known, req) is None {
        all_as_asked(r, cfg, m, g, m[g].expressions, req, bound, s);
        if let Ok(t) = best_of_all(r, cfg, m, g, m[g].expressions, req, bound, s) {
            let b = t.search.best;
            let c = b.update(g, b[g].push((req, t.plan)));
            assert forall|h: int, k: int| 0 <= h < c.len() && 0 <= k < c[h].len() implies match (
            #[trigger] c[h][k]).1 {
                Some(p) => satisfied(p.properties, c[h][k].0),
                None => true,
            } by {
                if h != g {
                    assert(c[h] == b[h]);
                    assert(c[h][k] == b[h][k]);
                } else if k < b[g].len() {
                    assert(c[h][k] == b[h][k]);
                }
            }
            if t.plan is Some {
                real_order(t.plan->0.cost, bound, bound);
            }
        }
    }
}

proof fn all_as_asked(
    r: Answers,
    cfg: OptimizerConfig,
    m: Seq<GroupView>,
    g: int,
    es: Seq<MemoExprView>,
    req: RequiredPropertiesView,
    bound: u64,
    s: SearchView,
)
    requires
        0 <= g < m.len(),
        s.best.len() == m.len(),
        memo_ok(m),
        as_asked(s),
    ensures
        best_of_all(r, cfg, m, g, es, req, bound, s) matches Ok(t) ==> {
            &&& as_asked(t.search)
            &&& t.search.best.len() == m.len()
            &&& t.plan matches Some(q) ==> satisfied(q.properties, req) && real_lt(q.cost, bound)
                && t.cost == q.cost
            &&& t.plan is None ==> t.cost == bound
        },
    decreases g, 2int, es.len(),
{
    if es.len() > 0 {
        all_as_asked(r, cfg, m, g, es.drop_last(), req, bound, s);
        if let Ok(t) = best_of_all(r, cfg, m, g, es.drop_last(), req, bound, s) {
            let e = es.last();
            assert(best_of_all(r, cfg, m, g, es, req, bound, s) == one_try(
                r,
                cfg,
                m,
                g,
                e,
                req,
                t,
            ));
            if let Ok(least) = lower_bound_expr(r, cfg, m, g, e) {
                if !real_le(t.cost, least) {
                    expr_as_asked(r, cfg, m, g, e, req, t.cost, looked_at(t.search));
                    if let Ok((p, u)) = plan_of_expr(
                        r,
                        cfg,
                        m,
                        g,
                        e,
                        req,
                        t.cost,
                        looked_at(t.search),
                    ) {
                        if p is Some && real_lt(p->0.cost, t.cost) && t.plan is Some {
                            real_order(p->0.cost, t.cost, bound);
                            real_order(t.cost, bound, bound);
                        }
                    }
                }
            }
        }
    }
}

proof fn both_as_asked(
    r: Answers,
    cfg: OptimizerConfig,
    m: Seq<GroupView>,
    g: int,
    a: int,
    b: int,
    req: RequiredPropertiesView,
    bound: u64,
    s: SearchView,
)
    requires
        0 <= g < m.len(),
        0 <= a,
        0 <= b,
        s.best.len() == m.len(),
        memo_ok(m),
        as_asked(s),
    ensures
        best_of_both(r, cfg, m, g, a, b, req, bound, s) matches Ok((p, t)) ==> as_asked(t)
            && t.best.len() == m.len(),
    decreases g, 0int, 0int,
{
    if a < g && b < g {
        group_as_asked(r, cfg, m, a, req, bound, s);
        if let Ok((p, t)) = best_of_group(r, cfg, m, a, req, bound, s) {
            if p is Some {
                group_as_asked(r, cfg, m, b, nothing_asked(), bound, t);
            }
        }
    }
}

proof fn join_by_as_asked(
    r: Answers,
    cfg: OptimizerConfig,
    m: Seq<GroupView>,
    g: int,
    a: int,
    b: int,
    hash: bool,
    join_type: JoinType,
    constraint: JoinConstraintView,
    req: RequiredPropertiesView,
    bound: u64,
    s: SearchView,
)
    requires
        0 <= g < m.len(),
        0 <= a,
        0 <= b,
        s.best.len() == m.len(),
        memo_ok(m),
        as_asked(s),
    ensures
        join_by(r, cfg, m, g, a, b, hash, join_type, constraint, req, bound, s) matches Ok(
            (_, (p, t)),
        ) ==> {
            &&& as_asked(t)
            &&& t.best.len() == m.len()
            &&& p matches Some(q) ==> satisfied(q.properties, req)
        },
    decreases g, 0int, 1int,
{
    let left_req = if hash {
        nothing_asked()
    } else {
        asked_of_left(join_type, req)
    };
    both_as_asked(r, cfg, m, g, a, b, left_req, bound, s);
    if let Ok((Some((left, right)), t)) = best_of_both(r, cfg, m, g, a, b, left_req, bound, s) {
        if let Ok(plan) = pair_plan(r, cfg, hash, join_type, constraint, left, right) {
            enforced_as_asked(r, cfg, plan, req, bound, t);
        }
    }
}

proof fn join_as_asked(
    r: Answers,
    cfg: OptimizerConfig,
    m: Seq<GroupView>,
    g: int,
    a: int,
    b: int,
    join_type: JoinType,
    constraint: JoinConstraintView,
    req: RequiredPropertiesView,
    bound: u64,
    s: SearchView,
)
    requires
        0 <= g < m.len(),
        0 <= a,
        0 <= b,
        s.best.len() == m.len(),
        memo_ok(m),
        as_asked(s),
    ensures
        plan_of_join(r, cfg, m, g, a, b, join_type, constraint, req, bound, s) matches Ok(
            (p, t),
        ) ==> {
            &&& as_asked(t)
            &&& t.best.len() == m.len()
            &&& p matches Some(q) ==> satisfied(q.properties, req)
        },
    decreases g, 0int, 2int,
{
    join_by_as_asked(r, cfg, m, g, a, b, false, join_type, constraint, req, bound, s);
    if let Ok((_, (looped, u))) = join_by(
        r,
        cfg,
        m,
        g,
        a,
        b,
        false,
        join_type,
        constraint,
        req,
        bound,
        s,
    ) {
        let cost = match looped {
            Some(p) => p.cost,
            None => bound,
        };
        join_by_as_asked(r, cfg, m, g, a, b, true, join_type, constraint, req, cost, u);
    }
}

proof fn expr_as_asked(
    r: Answers,
    cfg: OptimizerConfig,
    m: Seq<GroupView>,
    g: int,
    e: MemoExprView,
    req: RequiredPropertiesView,
    bound: u64,
    s: SearchView,
)
    requires
        0 <= g < m.len(),
        s.best.len() == m.len(),
        memo_ok(m),
        as_asked(s),
    ensures
        plan_of_expr(r, cfg, m, g, e, req, bound, s) matches Ok((p, t)) ==> {
            &&& as_asked(t)
            &&& t.best.len() == m.len()
            &&& p matches Some(q) ==> satisfied(q.properties, req)
        },
    decreases g, 1int, 0int,
{
    match e.op {
        LogicalOpView::OneRow => {
            enforced_as_asked(r, cfg, one_row_plan(), req, bound, s);
        },
        LogicalOpView::TableScan { table, alias } => {
            if let Ok(plan) = scan_plan(r, cfg, table, alias) {
                enforced_as_asked(r, cfg, plan, req, bound, s);
            }
        },
        LogicalOpView::Join { join_type, constraint } => {
            join_as_asked(
                r,
                cfg,
                m,
                g,
                e.children[0] as int,
                e.children[1] as int,
                join_type,
                constraint,
                req,
                bound,
                s,
            );
        },
        _ => {
            let kid_req = asked_of_child(e.op, req);
            let kid = e.children[0] as int;
            if kid < g {
                group_as_asked(r, cfg, m, kid, kid_req, bound, s);
                if let Ok((Some(child), t)) = best_of_group(r, cfg, m, kid, kid_req, bound, s) {
                    if let Ok(plan) = plan_over(r, cfg, e.op, child) {
                        enforced_as_asked(r, cfg, plan, req, bound, t);
                    }
                }
            }
        },
    }
}

// -- Questions that are asked early ----------------------------

proof fn below_asks(r: Answers, cfg: OptimizerConfig, m: Seq<GroupView>, g: int, kids: Seq<usize>, n: int)
    requires
        0 <= n <= kids.len(),
        lower_bound_below(r, cfg, m, g, kids.take(n)) is Err,
    ensures
        lower_bound_below(r, cfg, m, g, kids) == lower_bound_below(r, cfg, m, g, kids.take(n)),
    decreases kids.len(),
{
    if n < kids.len() {
        assert(kids.drop_last().take(n) =~= kids.take(n));
        below_asks(r, cfg, m, g, kids.drop_last(), n);
    } else {
        assert(kids.take(n) =~= kids);
    }
}

proof fn bound_asks(
    r: Answers,
    cfg: OptimizerConfig,
    m: Seq<GroupView>,
    g: int,
    es: Seq<MemoExprView>,
    n: int,
)
    requires
        0 <= n <= es.len(),
        lower_bound_all(r, cfg, m, g, es.take(n)) is Err,
    ensures
        lower_bound_all(r, cfg, m, g, es) == lower_bound_all(r, cfg, m, g, es.take(n)),
    decreases es.len(),
{
    if n < es.len() {
        assert(es.drop_last().take(n) =~= es.take(n));
        bound_asks(r, cfg, m, g, es.drop_last(), n);
    } else {
        assert(es.take(n) =~= es);
    }
}

proof fn best_asks(
    r: Answers,
    cfg: OptimizerConfig,
    m: Seq<GroupView>,
    g: int,
    es: Seq<MemoExprView>,
    req: RequiredPropertiesView,
    bound: u64,
    s: SearchView,
    n: int,
)
    requires
        0 <= n <= es.len(),
        best_of_all(r, cfg, m, g, es.take(n), req, bound, s) is Err,
    ensures
        best_of_all(r, cfg, m, g, es, req, bound, s) == best_of_all(
            r,
            cfg,
            m,
            g,
            es.take(n),
            req,
            bound,
            s,
        ),
    decreases es.len(),
{
    if n < es.len() {
        assert(es.drop_last().take(n) =~= es.take(n));
        best_asks(r, cfg, m, g, es.drop_last(), req, bound, s, n);
    } else {
        assert(es.take(n) =~= es);
    }
}

// -- Searching -------------------------------------------------

/// What is in it.
pub open spec fn plan_option(p: Option<PhysicalPlan>) -> Option<PhysicalPlanView> {
    match p {
        Some(p) => Some(p@),
        None => None,
    }
}

/// What is known of the plans of a group.
pub open spec fn known_views(s: Seq<(RequiredProperties, Option<PhysicalPlan>)>) -> Seq<
    (RequiredPropertiesView, Option<PhysicalPlanView>),
> {
    Seq::new(s.len(), |i: int| (s[i].0@, plan_option(s[i].1)))
}

/// A search for the cheapest plan.
pub struct CascadesOptimizer {
    pub memo: Memo,
    pub config: OptimizerConfig,
    pub stats: OptimizerStats,
    pub best: Vec<Vec<(RequiredProperties, Option<PhysicalPlan>)>>,
}

/// What a search comes to: a plan, an error, or a question about reals that has to
/// be answered first.
#[derive(Debug)]
pub enum Planned {
    Plan(PhysicalPlan),
    Failed(OptimizeError),
    Needs(RealQuestion),
}

/// Whether a search for a plan comes to what it should.
pub open spec fn is_planned(x: Planned, v: Asked<Found>) -> bool {
    match v {
        Ok((Some(p), _)) => x matches Planned::Plan(plan) && plan@ == p,
        Ok((None, _)) => x matches Planned::Failed(e) && e.message@
            == "no physical plan found within cost bound"@,
        Err(q) => x matches Planned::Needs(y) && y@ == q,
    }
}

/// Whether a step of a search comes to what it should.
pub open spec fn is_found(
    x: Result<Option<PhysicalPlan>, RealQuestion>,
    s: SearchView,
    v: Asked<Found>,
) -> bool {
    match x {
        Ok(p) => v == Ok::<Found, RealQuestionView>((plan_option(p), s)),
        Err(q) => v == Err::<Found, RealQuestionView>(q@),
    }
}

/// Whether a plan is what it should be.
pub open spec fn is_plan(x: Result<PhysicalPlan, RealQuestion>, v: Asked<PhysicalPlanView>) -> bool {
    match x {
        Ok(p) => v == Ok::<PhysicalPlanView, RealQuestionView>(p@),
        Err(q) => v == Err::<PhysicalPlanView, RealQuestionView>(q@),
    }
}

fn copy_plan_option(p: &Option<PhysicalPlan>) -> (r: Option<PhysicalPlan>)
    ensures
        plan_option(r) == plan_option(*p),
{
    match p {
        Some(p) => Some(copy_physical_plan(p)),
        None => None,
    }
}

fn asks_the_same(a: &RequiredProperties, b: &RequiredProperties) -> (r: bool)
    ensures
        r == (a@ == b@),
{
    let r = same_order_by_items(&a.ordering, &b.ordering);
    assert(r ==> a@ =~= b@);
    r
}

proof fn remembered_stays(
    known: Seq<(RequiredPropertiesView, Option<PhysicalPlanView>)>,
    req: RequiredPropertiesView,
    n: int,
)
    requires
        0 <= n <= known.len(),
        remembered(known.take(n), req) is Some,
    ensures
        remembered(known, req) == remembered(known.take(n), req),
    decreases known.len(),
{
    if n < known.len() {
        assert(known.drop_last().take(n) =~= known.take(n));
        remembered_stays(known.drop_last(), req, n);
    } else {
        assert(known.take(n) =~= known);
    }
}

/// What is known of the best plan of a group.
fn recall<'a>(
    known: &'a Vec<(RequiredProperties, Option<PhysicalPlan>)>,
    required: &RequiredProperties,
) -> (r: Option<&'a Option<PhysicalPlan>>)
    ensures
        match r {
            Some(p) => remembered(known_views(known@), required@) == Some(plan_option(*p)),
            None => remembered(known_views(known@), required@) is None,
        },
{
    let ghost v = known_views(known@);
    let mut i: usize = 0;
    assert(v.take(0) =~= seq![]);
    while i < known.len()
        invariant
            i <= known@.len(),
            v == known_views(known@),
            remembered(v.take(i as int), required@) is None,
        decreases known.len() - i,
    {
        assert(v.take(i + 1).drop_last() =~= v.take(i as int));
        assert(v.take(i + 1).last() == v[i as int]);
        if asks_the_same(&known[i].0, required) {
            proof {
                remembered_stays(v, required@, i + 1);
            }
            return Some(&known[i].1);
        }
        i = i + 1;
    }
    assert(v.take(v.len() as int) =~= v);
    None
}

impl CascadesOptimizer {
    /// What is known so far.
    pub open spec fn search(&self) -> SearchView {
        SearchView {
            best: Seq::new(self.best@.len(), |i: int| known_views(self.best@[i]@)),
            stats: self.stats,
        }
    }

    /// The invariant of a search.
    pub open spec fn wf(&self) -> bool {
        memo_ok(self.memo@) && self.best@.len() == self.memo@.len()
    }

    /// Whether a search went on with the same groups.
    pub open spec fn goes_on(&self, o: &Self) -> bool {
        self.wf() && self.memo == o.memo && self.config == o.config
    }

    fn lower_bound_below(&self, g: usize, kids: &Vec<usize>, reals: &RealAnswers) -> (x: Result<
        u64,
        RealQuestion,
    >)
        requires
            memo_ok(self.memo@),
            g < self.memo@.len(),
            forall|i: int| 0 <= i < kids@.len() ==> #[trigger] kids@[i] < g,
        ensures
            is_known(x, lower_bound_below(reals.answers(), self.config, self.memo@, g as int, kids@),
            ),
        decreases g, 0int,
    {
        let mut total: u64 = ZERO;
        let mut i: usize = 0;
        assert(kids@.take(0) =~= seq![]);
        while i < kids.len()
            invariant
                memo_ok(self.memo@),
                g < self.memo@.len(),
                i <= kids@.len(),
                forall|i: int| 0 <= i < kids@.len() ==> #[trigger] kids@[i] < g,
                lower_bound_below(
                    reals.answers(),
                    self.config,
                    self.memo@,
                    g as int,
                    kids@.take(i as int),
                ) == Ok::<u64, RealQuestionView>(total),
            decreases kids.len() - i,
        {
            assert(kids@.take(i + 1).drop_last() =~= kids@.take(i as int));
            assert(kids@.take(i + 1).last() == kids@[i as int]);
            assert(kids@[i as int] < g);
            let bound: u64 = match self.lower_bound_group(kids[i], reals) {
                Ok(b) => b,
                Err(q) => {
                    proof {
                        below_asks(
                            reals.answers(),
                            self.config,
                            self.memo@,
                            g as int,
                            kids@,
                            i + 1,
                        );
                    }
                    return Err(q);
                },
            };
            total = match sum(reals, total, bound) {
                Ok(t) => t,
                Err(q) => {
                    proof {
                        below_asks(
                            reals.answers(),
                            self.config,
                            self.memo@,
                            g as int,
                            kids@,
                            i + 1,
                        );
                    }
                    return Err(q);
                },
            };
            i = i + 1;
        }
        assert(kids@.take(kids@.len() as int) =~= kids@);
        Ok(total)
    }

    fn lower_bound_expr(&self, g: usize, e: &MemoExpr, reals: &RealAnswers) -> (x: Result<
        u64,
        RealQuestion,
    >)
        requires
            memo_ok(self.memo@),
            g < self.memo@.len(),
            expr_ok(e@, g as int),
        ensures
            is_known(x, lower_bound_expr(reals.answers(), self.config, self.memo@, g as int, e@)),
        decreases g, 1int,
    {
        assert forall|i: int| 0 <= i < e.children@.len() implies #[trigger] e.children@[i] < g by {
            assert(e@.children[i] < g);
        }
        let below: u64 = match self.lower_bound_below(g, &e.children, reals) {
            Ok(b) => b,
            Err(q) => return Err(q),
        };
        let least: u64 = match &e.op {
            LogicalOp::OneRow => ONE_ROW_COST,
            LogicalOp::TableScan { table, alias } => self.config.seq_scan_startup_cost,
            LogicalOp::Projection { items } => self.config.projection_cost,
            LogicalOp::Selection { predicate } => self.config.predicate_cost,
            LogicalOp::Join { join_type, constraint } => self.config.hash_join_tuple_cost,
            LogicalOp::Order { items } => ZERO,
            LogicalOp::Limit { count } => ZERO,
        };
        sum(reals, below, least)
    }

    fn lower_bound_group(&self, g: usize, reals: &RealAnswers) -> (x: Result<u64, RealQuestion>)
        requires
            memo_ok(self.memo@),
            g < self.memo@.len(),
        ensures
            is_known(x, lower_bound_group(reals.answers(), self.config, self.memo@, g as int)),
        decreases g, 2int,
    {
        let es = &self.memo.groups[g].expressions;
        let ghost v = memo_expr_views(es@);
        assert(v == self.memo@[g as int].expressions);
        let mut least: u64 = 0x7ff0000000000000;
        let mut i: usize = 0;
        assert(v.take(0) =~= seq![]);
        while i < es.len()
            invariant
                memo_ok(self.memo@),
                g < self.memo@.len(),
                i <= es@.len(),
                v == memo_expr_views(es@),
                v == self.memo@[g as int].expressions,
                lower_bound_all(
                    reals.answers(),
                    self.config,
                    self.memo@,
                    g as int,
                    v.take(i as int),
                ) == Ok::<u64, RealQuestionView>(least),
            decreases es.len() - i,
        {
            assert(v.take(i + 1).drop_last() =~= v.take(i as int));
            assert(v.take(i + 1).last() == es@[i as int]@);
            assert(expr_ok(self.memo@[g as int].expressions[i as int], g as int));
            let bound: u64 = match self.lower_bound_expr(g, &es[i], reals) {
                Ok(b) => b,
                Err(q) => {
                    proof {
                        bound_asks(
                            reals.answers(),
                            self.config,
                            self.memo@,
                            g as int,
                            v,
                            i + 1,
                        );
                    }
                    return Err(q);
                },
            };
            least = smaller_of(least, bound);
            i = i + 1;
        }
        assert(v.take(v.len() as int) =~= v);
        Ok(least)
    }

    fn enforce(
        &mut self,
        plan: PhysicalPlan,
        required: &RequiredProperties,
        bound: u64,
        reals: &RealAnswers,
    ) -> (x: Result<Option<PhysicalPlan>, RealQuestion>)
        requires
            old(self).wf(),
        ensures
            final(self).goes_on(old(self)),
            is_found(
                x,
                final(self).search(),
                enforced(
                    reals.answers(),
                    old(self).config,
                    plan@,
                    required@,
                    bound,
                    old(self).search(),
                ),
            ),
    {
        let ghost s = self.search();
        if plan.properties.satisfies(required) {
            if is_at_most(plan.cost, bound) {
                return Ok(Some(plan));
            }
            return Ok(None);
        }
        let sorting: u64 = match estimate_sort_cost(
            reals,
            plan.rows,
            self.config.sort_cost_factor,
        ) {
            Ok(c) => c,
            Err(q) => return Err(q),
        };
        let cost: u64 = match sum(reals, plan.cost, sorting) {
            Ok(c) => c,
            Err(q) => return Err(q),
        };
        if is_less(bound, cost) {
            self.stats.pruned_expressions = count_up(self.stats.pruned_expressions);
            assert(self.search() =~= pruned(s));
            return Ok(None);
        }
        self.stats.applied_enforcers = count_up(self.stats.applied_enforcers);
        let rows: u64 = plan.rows;
        let sorted = PhysicalPlan {
            node: PhysicalPlanNode::Sort {
                items: copy_order_by_items(&required.ordering),
                input: Box::new(plan),
            },
            cost,
            rows,
            properties: PhysicalProperties::ordered(copy_order_by_items(&required.ordering)),
        };
        assert(self.search() =~= enforcer_applied(s));
        assert(sorted@.properties =~= PhysicalPropertiesView { ordering: required@.ordering });
        assert(sorted@ == sorted_plan(plan@, required@, cost));
        Ok(Some(sorted))
    }

    fn join_plan(
        &self,
        hash: bool,
        join_type: JoinType,
        constraint: &JoinConstraint,
        left: PhysicalPlan,
        right: PhysicalPlan,
        reals: &RealAnswers,
    ) -> (x: Result<PhysicalPlan, RealQuestion>)
        ensures
            is_plan(
                x,
                pair_plan(
                    reals.answers(),
                    self.config,
                    hash,
                    join_type,
                    constraint@,
                    left@,
                    right@,
                ),
            ),
    {
        let rows: u64 = match estimate_join_rows(
            reals,
            left.rows,
            right.rows,
            join_type,
            constraint,
        ) {
            Ok(n) => n,
            Err(q) => return Err(q),
        };
        let cost: u64 = match sum(reals, left.cost, right.cost) {
            Ok(c) => c,
            Err(q) => return Err(q),
        };
        let constraint = copy_join_constraint(constraint);
        if hash {
            let tuples: u64 = match sum(reals, left.rows, right.rows) {
                Ok(n) => n,
                Err(q) => return Err(q),
            };
            match price(reals, cost, tuples, self.config.hash_join_tuple_cost) {
                Ok(cost) => {
                    let p = PhysicalPlan {
                        node: PhysicalPlanNode::HashJoin {
                            join_type,
                            constraint,
                            left: Box::new(left),
                            right: Box::new(right),
                        },
                        cost,
                        rows,
                        properties: PhysicalProperties::any(),
                    };
                    assert(p@.properties =~= unordered());
                    Ok(p)
                },
                Err(q) => Err(q),
            }
        } else {
            let tuples: u64 = match product(reals, left.rows, right.rows) {
                Ok(n) => n,
                Err(q) => return Err(q),
            };
            match price(reals, cost, tuples, self.config.nested_loop_tuple_cost) {
                Ok(cost) => {
                    let properties = left.properties.clone();
                    Ok(
                        PhysicalPlan {
                            node: PhysicalPlanNode::NestedLoopJoin {
                                join_type,
                                constraint,
                                left: Box::new(left),
                                right: Box::new(right),
                            },
                            cost,
                            rows,
                            properties,
                        },
                    )
                },
                Err(q) => Err(q),
            }
        }
    }

    /// A plan of a relation over one other.
    fn plan_over(&self, op: &LogicalOp, child: PhysicalPlan, reals: &RealAnswers) -> (x: Result<
        PhysicalPlan,
        RealQuestion,
    >)
        ensures
            is_plan(x, plan_over(reals.answers(), self.config, op@, child@)),
    {
        let properties = child.properties.clone();
        match op {
            LogicalOp::Selection { predicate } => {
                let share: u64 = match product(reals, child.rows, SELECTIVITY) {
                    Ok(n) => n,
                    Err(q) => return Err(q),
                };
                let cost: u64 = match price(
                    reals,
                    child.cost,
                    child.rows,
                    self.config.predicate_cost,
                ) {
                    Ok(n) => n,
                    Err(q) => return Err(q),
                };
                Ok(
                    PhysicalPlan {
                        node: PhysicalPlanNode::Filter {
                            predicate: copy_expr(predicate),
                            input: Box::new(child),
                        },
                        cost,
                        rows: larger_of(share, ONE),
                        properties,
                    },
                )
            },
            LogicalOp::Projection { items } => {
                let cost: u64 = match price(
                    reals,
                    child.cost,
                    child.rows,
                    self.config.projection_cost,
                ) {
                    Ok(n) => n,
                    Err(q) => return Err(q),
                };
                let rows: u64 = child.rows;
                Ok(
                    PhysicalPlan {
                        node: PhysicalPlanNode::Project {
                            items: copy_projection_items(items),
                            input: Box::new(child),
                        },
                        cost,
                        rows,
                        properties,
                    },
                )
            },
            LogicalOp::Limit { count } => {
                let share: u64 = match product(reals, child.rows, self.config.limit_selectivity) {
                    Ok(n) => n,
                    Err(q) => return Err(q),
                };
                let rows: u64 = larger_of(share, ONE);
                let cost: u64 = match price(reals, child.cost, rows, LIMIT_COST) {
                    Ok(n) => n,
                    Err(q) => return Err(q),
                };
                Ok(
                    PhysicalPlan {
                        node: PhysicalPlanNode::Limit {
                            count: copy_expr(count),
                            input: Box::new(child),
                        },
                        cost,
                        rows,
                        properties,
                    },
                )
            },
            _ => Ok(child),
        }
    }
}


impl CascadesOptimizer {
    fn best_of_both(
        &mut self,
        g: usize,
        a: usize,
        b: usize,
        required: &RequiredProperties,
        bound: u64,
        reals: &RealAnswers,
    ) -> (x: Result<Option<(PhysicalPlan, PhysicalPlan)>, RealQuestion>)
        requires
            old(self).wf(),
            a < g < old(self).memo@.len(),
            b < g,
        ensures
            final(self).goes_on(old(self)),
            ({
                let v = best_of_both(
                    reals.answers(),
                    old(self).config,
                    old(self).memo@,
                    g as int,
                    a as int,
                    b as int,
                    required@,
                    bound,
                    old(self).search(),
                );
                match x {
                    Ok(None) => v == Ok::<Pair, RealQuestionView>((None, final(self).search())),
                    Ok(Some((l, r))) => v == Ok::<Pair, RealQuestionView>(
                        (Some((l@, r@)), final(self).search()),
                    ),
                    Err(q) => v == Err::<Pair, RealQuestionView>(q@),
                }
            }),
        decreases g, 0int,
    {
        let left = match self.optimize_group(a, required, bound, reals) {
            Err(q) => return Err(q),
            Ok(None) => return Ok(None),
            Ok(Some(p)) => p,
        };
        let any = RequiredProperties::any();
        assert(any@ =~= nothing_asked());
        match self.optimize_group(b, &any, bound, reals) {
            Err(q) => Err(q),
            Ok(None) => Ok(None),
            Ok(Some(right)) => Ok(Some((left, right))),
        }
    }

    fn implement_join(
        &mut self,
        g: usize,
        a: usize,
        b: usize,
        join_type: JoinType,
        constraint: &JoinConstraint,
        required: &RequiredProperties,
        bound: u64,
        reals: &RealAnswers,
    ) -> (x: Result<Option<PhysicalPlan>, RealQuestion>)
        requires
            old(self).wf(),
            a < g < old(self).memo@.len(),
            b < g,
        ensures
            final(self).goes_on(old(self)),
            is_found(
                x,
                final(self).search(),
                plan_of_join(
                    reals.answers(),
                    old(self).config,
                    old(self).memo@,
                    g as int,
                    a as int,
                    b as int,
                    join_type,
                    constraint@,
                    required@,
                    bound,
                    old(self).search(),
                ),
            ),
        decreases g, 1int,
    {
        let any = RequiredProperties::any();
        assert(any@ =~= nothing_asked());
        let inner = join_type == JoinType::Inner || join_type == JoinType::Cross;
        let left_required = if inner {
            &any
        } else {
            required
        };
        let mut looped: Option<PhysicalPlan> = None;
        let mut cost: u64 = bound;
        match self.best_of_both(g, a, b, left_required, bound, reals) {
            Err(q) => return Err(q),
            Ok(None) => {},
            Ok(Some((left, right))) => {
                let plan = match self.join_plan(false, join_type, constraint, left, right, reals) {
                    Err(q) => return Err(q),
                    Ok(p) => p,
                };
                match self.enforce(plan, required, bound, reals) {
                    Err(q) => return Err(q),
                    Ok(None) => {},
                    Ok(Some(p)) => {
                        cost = p.cost;
                        looped = Some(p);
                    },
                }
            },
        }
        if !(join_type == JoinType::Inner && is_equality_constraint(constraint)) {
            return Ok(looped);
        }
        let x: u64 = match self.lower_bound_group(a, reals) {
            Err(q) => return Err(q),
            Ok(n) => n,
        };
        let y: u64 = match self.lower_bound_group(b, reals) {
            Err(q) => return Err(q),
            Ok(n) => n,
        };
        let both: u64 = match sum(reals, x, y) {
            Err(q) => return Err(q),
            Ok(n) => n,
        };
        let least: u64 = match sum(reals, both, self.config.hash_join_tuple_cost) {
            Err(q) => return Err(q),
            Ok(n) => n,
        };
        let ghost u = self.search();
        if is_at_most(cost, least) {
            self.stats.pruned_expressions = count_up(self.stats.pruned_expressions);
            assert(self.search() =~= pruned(u));
            return Ok(looped);
        }
        let (left, right) = match self.best_of_both(g, a, b, &any, cost, reals) {
            Err(q) => return Err(q),
            Ok(None) => return Ok(None),
            Ok(Some(pair)) => pair,
        };
        let plan = match self.join_plan(true, join_type, constraint, left, right, reals) {
            Err(q) => return Err(q),
            Ok(p) => p,
        };
        match self.enforce(plan, required, cost, reals) {
            Err(q) => Err(q),
            Ok(None) => Ok(looped),
            Ok(Some(p)) => Ok(Some(p)),
        }
    }

    fn implement_expr(
        &mut self,
        g: usize,
        e: &MemoExpr,
        required: &RequiredProperties,
        bound: u64,
        reals: &RealAnswers,
    ) -> (x: Result<Option<PhysicalPlan>, RealQuestion>)
        requires
            old(self).wf(),
            g < old(self).memo@.len(),
            expr_ok(e@, g as int),
        ensures
            final(self).goes_on(old(self)),
            is_found(
                x,
                final(self).search(),
                plan_of_expr(
                    reals.answers(),
                    old(self).config,
                    old(self).memo@,
                    g as int,
                    e@,
                    required@,
                    bound,
                    old(self).search(),
                ),
            ),
        decreases g, 2int,
    {
        match &e.op {
            LogicalOp::OneRow => {
                let plan = PhysicalPlan {
                    node: PhysicalPlanNode::OneRow,
                    cost: ONE_ROW_COST,
                    rows: ONE,
                    properties: PhysicalProperties::any(),
                };
                assert(plan@.properties =~= unordered());
                self.enforce(plan, required, bound, reals)
            },
            LogicalOp::TableScan { table, alias } => {
                let rows: u64 = self.config.default_table_rows;
                let cost: u64 = match price(
                    reals,
                    self.config.seq_scan_startup_cost,
                    rows,
                    self.config.row_read_cost,
                ) {
                    Err(q) => return Err(q),
                    Ok(c) => c,
                };
                let alias = match alias {
                    Some(a) => Some(a.clone()),
                    None => None,
                };
                let plan = PhysicalPlan {
                    node: PhysicalPlanNode::SeqScan { table: copy_table_name(table), alias },
                    cost,
                    rows,
                    properties: PhysicalProperties::any(),
                };
                assert(plan@.properties =~= unordered());
                self.enforce(plan, required, bound, reals)
            },
            LogicalOp::Join { join_type, constraint } => {
                assert(e@.children[0] < g && e@.children[1] < g);
                self.implement_join(
                    g,
                    e.children[0],
                    e.children[1],
                    *join_type,
                    constraint,
                    required,
                    bound,
                    reals,
                )
            },
            _ => {
                assert(e@.children[0] < g);
                let found = match &e.op {
                    LogicalOp::Order { items } => {
                        let ordered = RequiredProperties::ordered(copy_order_by_items(items));
                        assert(ordered@ =~= RequiredPropertiesView {
                            ordering: order_by_item_views(items@),
                        });
                        self.optimize_group(e.children[0], &ordered, bound, reals)
                    },
                    _ => self.optimize_group(e.children[0], required, bound, reals),
                };
                let child = match found {
                    Err(q) => return Err(q),
                    Ok(None) => return Ok(None),
                    Ok(Some(p)) => p,
                };
                let plan = match self.plan_over(&e.op, child, reals) {
                    Err(q) => return Err(q),
                    Ok(p) => p,
                };
                self.enforce(plan, required, bound, reals)
            },
        }
    }

    /// Looks at one more relation, or gives it up; the cost of the best plan is
    /// handed back.
    fn try_expr(
        &mut self,
        g: usize,
        e: &MemoExpr,
        required: &RequiredProperties,
        plan: &mut Option<PhysicalPlan>,
        cost: u64,
        reals: &RealAnswers,
    ) -> (x: Result<u64, RealQuestion>)
        requires
            old(self).wf(),
            g < old(self).memo@.len(),
            expr_ok(e@, g as int),
        ensures
            final(self).goes_on(old(self)),
            ({
                let t = TrialView {
                    plan: plan_option(*old(plan)),
                    cost,
                    search: old(self).search(),
                };
                let v = one_try(
                    reals.answers(),
                    old(self).config,
                    old(self).memo@,
                    g as int,
                    e@,
                    required@,
                    t,
                );
                match x {
                    Ok(c) => v == Ok::<TrialView, RealQuestionView>(
                        TrialView {
                            plan: plan_option(*final(plan)),
                            cost: c,
                            search: final(self).search(),
                        },
                    ),
                    Err(q) => v == Err::<TrialView, RealQuestionView>(q@),
                }
            }),
        decreases g, 3int,
    {
        let least: u64 = match self.lower_bound_expr(g, e, reals) {
            Err(q) => return Err(q),
            Ok(n) => n,
        };
        let ghost t = self.search();
        if is_at_most(cost, least) {
            self.stats.pruned_expressions = count_up(self.stats.pruned_expressions);
            assert(self.search() =~= pruned(t));
            return Ok(cost);
        }
        self.stats.explored_expressions = count_up(self.stats.explored_expressions);
        assert(self.search() =~= looked_at(t));
        match self.implement_expr(g, e, required, cost, reals) {
            Err(q) => Err(q),
            Ok(None) => Ok(cost),
            Ok(Some(p)) => {
                if is_less(p.cost, cost) {
                    let c: u64 = p.cost;
                    *plan = Some(p);
                    Ok(c)
                } else {
                    Ok(cost)
                }
            },
        }
    }

    fn optimize_group(
        &mut self,
        g: usize,
        required: &RequiredProperties,
        bound: u64,
        reals: &RealAnswers,
    ) -> (x: Result<Option<PhysicalPlan>, RealQuestion>)
        requires
            old(self).wf(),
            g < old(self).memo@.len(),
        ensures
            final(self).goes_on(old(self)),
            is_found(
                x,
                final(self).search(),
                best_of_group(
                    reals.answers(),
                    old(self).config,
                    old(self).memo@,
                    g as int,
                    required@,
                    bound,
                    old(self).search(),
                ),
            ),
        decreases g, 4int,
    {
        let ghost s = self.search();
        assert(s.best[g as int] == known_views(self.best@[g as int]@));
        match recall(&self.best[g], required) {
            Some(p) => {
                match p {
                    Some(plan) => {
                        if is_at_most(plan.cost, bound) {
                            return Ok(Some(copy_physical_plan(plan)));
                        }
                        return Ok(None);
                    },
                    None => {
                        return Ok(None);
                    },
                }
            },
            None => {},
        }
        let es = copy_memo_exprs(&self.memo.groups[g].expressions);
        let ghost v = memo_expr_views(es@);
        assert(v == self.memo@[g as int].expressions);
        let mut plan: Option<PhysicalPlan> = None;
        let mut cost: u64 = bound;
        let mut i: usize = 0;
        assert(v.take(0) =~= seq![]);
        while i < es.len()
            invariant
                self.goes_on(old(self)),
                g < self.memo@.len(),
                s == old(self).search(),
                remembered(s.best[g as int], required@) is None,
                i <= es@.len(),
                v == memo_expr_views(es@),
                v == self.memo@[g as int].expressions,
                best_of_all(
                    reals.answers(),
                    self.config,
                    self.memo@,
                    g as int,
                    v.take(i as int),
                    required@,
                    bound,
                    s,
                ) == Ok::<TrialView, RealQuestionView>(
                    TrialView { plan: plan_option(plan), cost, search: self.search() },
                ),
            decreases es.len() - i,
        {
            assert(v.take(i + 1).drop_last() =~= v.take(i as int));
            assert(v.take(i + 1).last() == es@[i as int]@);
            assert(expr_ok(self.memo@[g as int].expressions[i as int], g as int));
            match self.try_expr(g, &es[i], required, &mut plan, cost, reals) {
                Ok(c) => {
                    cost = c;
                },
                Err(q) => {
                    proof {
                        best_asks(
                            reals.answers(),
                            self.config,
                            self.memo@,
                            g as int,
                            v,
                            required@,
                            bound,
                            s,
                            i + 1,
                        );
                    }
                    return Err(q);
                },
            }
            i = i + 1;
        }
        assert(v.take(v.len() as int) =~= v);
        let ghost t = self.search();
        let ghost k = self.best@[g as int]@;
        assert(t.best[g as int] == known_views(k));
        let entry = (copy_required_properties(required), copy_plan_option(&plan));
        self.best[g].push(entry);
        assert(self.best@[g as int]@ == k.push(entry));
        assert(known_views(k.push(entry)) =~= known_views(k).push(
            (required@, plan_option(plan)),
        ));
        assert(self.search() =~~= SearchView {
            best: t.best.update(g as int, t.best[g as int].push((required@, plan_option(plan)))),
            ..t
        });
        Ok(plan)
    }

    /// A search that has not begun.
    pub fn new(config: OptimizerConfig) -> (r: Self)
        ensures
            r.config == config,
            r.stats == no_stats(),
            r.memo@ == Seq::<GroupView>::empty(),
            r.best@.len() == 0,
    {
        CascadesOptimizer {
            memo: Memo::new(),
            config,
            stats: OptimizerStats::default(),
            best: Vec::new(),
        }
    }

    /// Finds the best plan of a relation within a bound, with rows as they are
    /// asked to be.
    pub fn optimize_with_required(
        &mut self,
        relation: &RelationExpr,
        required: RequiredProperties,
        bound: u64,
        reals: &RealAnswers,
    ) -> (x: Planned)
        ensures
            final(self).config == old(self).config,
            ({
                let v = best_plan(reals.answers(), old(self).config, relation@, required@, bound);
                &&& is_planned(x, v)
                &&& v matches Ok((_, s)) ==> final(self).stats == s.stats
            }),
            x matches Planned::Plan(p) ==> answers(p@, relation@) && satisfied(
                p@.properties,
                required@,
            ) && real_le(p@.cost, bound),
    {
        self.memo = Memo::new();
        self.best.clear();
        self.stats = OptimizerStats::default();
        let root: usize = self.memo.insert_relation(relation);
        let groups: usize = self.memo.groups.len();
        proof {
            assert(inserted(relation@, seq![]).0.len() == groups);
            best_plan_answers(reals.answers(), self.config, relation@, required@, bound);
        }
        let rules: usize = self.memo.explore_group(root, 0);
        self.stats.applied_rules = rules;
        let ghost n = self.memo@;
        while self.best.len() < self.memo.groups.len()
            invariant
                self.best@.len() <= self.memo@.len(),
                self.memo@ == n,
                self.config == old(self).config,
                self.stats == (OptimizerStats { applied_rules: rules, ..no_stats() }),
                forall|i: int| 0 <= i < self.best@.len() ==> (#[trigger] self.best@[i])@.len() == 0,
            decreases self.memo@.len() - self.best@.len(),
        {
            self.best.push(Vec::new());
        }
        let ghost s = first_search(n.len(), rules);
        assert forall|i: int| 0 <= i < self.best@.len() implies known_views(
            #[trigger] self.best@[i]@,
        ) == Seq::<(RequiredPropertiesView, Option<PhysicalPlanView>)>::empty() by {
            assert(known_views(self.best@[i]@) =~= Seq::<
                (RequiredPropertiesView, Option<PhysicalPlanView>),
            >::empty());
        }
        assert(self.search() =~~= s);
        proof {
            group_as_asked(reals.answers(), self.config, n, root as int, required@, bound, s);
        }
        match self.optimize_group(root, &required, bound, reals) {
            Err(q) => Planned::Needs(q),
            Ok(Some(p)) => Planned::Plan(p),
            Ok(None) => Planned::Failed(
                OptimizeError {
                    message: String::from_str("no physical plan found within cost bound"),
                },
            ),
        }
    }

    /// Finds the best plan of a relation.
    pub fn optimize(&mut self, relation: &RelationExpr, reals: &RealAnswers) -> (x: Planned)
        ensures
            final(self).config == old(self).config,
            ({
                let cfg = old(self).config;
                let v = best_plan(
                    reals.answers(),
                    cfg,
                    relation@,
                    nothing_asked(),
                    cfg.initial_upper_bound,
                );
                &&& is_planned(x, v)
                &&& v matches Ok((_, s)) ==> final(self).stats == s.stats
                &&& x matches Planned::Plan(p) ==> answers(p@, relation@) && real_le(
                    p@.cost,
                    cfg.initial_upper_bound,
                )
            }),
    {
        let any = RequiredProperties::any();
        assert(any@ =~= nothing_asked());
        self.optimize_with_required(relation, any, self.config.initial_upper_bound, reals)
    }

    /// Finds the best plan of a relation, with costs as usual.
    pub fn optimize_relation(relation: &RelationExpr, reals: &RealAnswers) -> (x: Planned)
        ensures
            is_planned(x, usual_plan(reals.answers(), relation@)),
            x matches Planned::Plan(p) ==> answers(p@, relation@),
    {
        let mut search = CascadesOptimizer::new(OptimizerConfig::default());
        search.optimize(relation, reals)
    }

    /// What the search has done.
    pub fn stats(&self) -> (r: &OptimizerStats)
        ensures
            *r == self.stats,
    {
        &self.stats
    }
}

/// The best plan of a relation, with costs as usual.
pub open spec fn usual_plan(r: Answers, rel: RelationExprView) -> Asked<Found> {
    let cfg = usual_config();
    best_plan(r, cfg, rel, nothing_asked(), cfg.initial_upper_bound)
}

} // verus!
