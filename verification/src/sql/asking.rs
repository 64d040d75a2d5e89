//! Asking comes to an end: a search asks finitely many questions.
use vstd::prelude::*;

use crate::sql::ast::{JoinConstraintView, JoinType};
use crate::sql::cost::{
    join_rows, number, plus, priced, sort_cost, times, OptimizerConfig, SELECTIVITY, LIMIT_COST,
    ONE, larger,
};
use crate::sql::memo::{explored, inserted, GroupView, LogicalOpView, MemoExprView};
use crate::sql::optimize::{
    asked_of_child, asked_of_left, best_of_all, best_of_both, best_of_group, best_plan, enforced,
    first_search, join_by, least_hash_cost, looked_at, lower_bound_all, lower_bound_below,
    lower_bound_expr, lower_bound_group, nothing_asked, one_row_plan, one_try, pair_plan,
    plan_of_expr, plan_of_join, plan_over, remembered, scan_plan, Found, SearchView, TrialView,
};
use crate::sql::plan::{PhysicalPlanView, RequiredPropertiesView};
use crate::sql::reals::{Answers, Asked, RealQuestionView};
use crate::sql::relation::RelationExprView;

verus! {

/// Whether all questions have answers.
pub open spec fn answers_all(f: Answers) -> bool {
    forall|q: RealQuestionView| (#[trigger] f(q)) is Some
}

/// Whether `r` holds some of the answers of `f`, and no others.
pub open spec fn part_of(r: Answers, f: Answers) -> bool {
    forall|q: RealQuestionView| (#[trigger] r(q)) is Some ==> r(q) == f(q)
}

/// Whether something that takes answers comes to `v`, or asks a question that has no
/// answer yet and is among `l`.
pub open spec fn settled<T>(
    x: Asked<T>,
    v: Asked<T>,
    r: Answers,
    l: Set<RealQuestionView>,
) -> bool {
    match x {
        Ok(_) => x == v,
        Err(q) => l.contains(q) && r(q) is None,
    }
}

proof fn number_asks(
    f: Answers,
    q: RealQuestionView,
) -> (l: Set<RealQuestionView>)
    requires
        answers_all(f),
    ensures
        l.finite(),
        number(f, q) is Ok,
        forall|r: Answers| #[trigger] part_of(r, f) ==> settled(
            number(r, q),
            number(f, q),
            r,
            l,
        ),
{
    let l = Set::<RealQuestionView>::empty().insert(q);
    assert(f(q) is Some);
    assert forall|r: Answers| #[trigger] part_of(r, f) implies settled(
        number(r, q),
        number(f, q),
        r,
        l,
    ) by {
        assert(r(q) is Some || r(q) is None);
    }
    l
}

proof fn priced_asks(
    f: Answers,
    a: u64,
    n: u64,
    p: u64,
) -> (l: Set<RealQuestionView>)
    requires
        answers_all(f),
    ensures
        l.finite(),
        priced(f, a, n, p) is Ok,
        forall|r: Answers| #[trigger] part_of(r, f) ==> settled(
            priced(r, a, n, p),
            priced(f, a, n, p),
            r,
            l,
        ),
{
    let l1 = number_asks(f, RealQuestionView::Product(n, p));
    let z = times(f, n, p)->Ok_0;
    let l2 = number_asks(f, RealQuestionView::Sum(a, z));
    let l = l1.union(l2);
    assert forall|r: Answers| #[trigger] part_of(r, f) implies settled(
        priced(r, a, n, p),
        priced(f, a, n, p),
        r,
        l,
    ) by {}
    l
}

proof fn join_rows_asks(
    f: Answers,
    a: u64,
    b: u64,
    t: JoinType,
    c: JoinConstraintView,
) -> (l: Set<RealQuestionView>)
    requires
        answers_all(f),
    ensures
        l.finite(),
        join_rows(f, a, b, t, c) is Ok,
        forall|r: Answers| #[trigger] part_of(r, f) ==> settled(
            join_rows(r, a, b, t, c),
            join_rows(f, a, b, t, c),
            r,
            l,
        ),
{
    let l1 = number_asks(f, RealQuestionView::Product(a, b));
    let l2 = number_asks(f, RealQuestionView::Sum(a, b));
    let pairs = times(f, a, b)->Ok_0;
    let l3 = number_asks(f, RealQuestionView::Product(pairs, SELECTIVITY));
    let l = l1.union(l2).union(l3);
    assert forall|r: Answers| #[trigger] part_of(r, f) implies settled(
        join_rows(r, a, b, t, c),
        join_rows(f, a, b, t, c),
        r,
        l,
    ) by {}
    l
}

proof fn sort_asks(
    f: Answers,
    rows: u64,
    factor: u64,
) -> (l: Set<RealQuestionView>)
    requires
        answers_all(f),
    ensures
        l.finite(),
        sort_cost(f, rows, factor) is Ok,
        forall|r: Answers| #[trigger] part_of(r, f) ==> settled(
            sort_cost(r, rows, factor),
            sort_cost(f, rows, factor),
            r,
            l,
        ),
{
    let l1 = number_asks(f, RealQuestionView::Log2(rows));
    let log = number(f, RealQuestionView::Log2(rows))->Ok_0;
    let l2 = number_asks(f, RealQuestionView::Product(rows, log));
    let steps = times(f, rows, log)->Ok_0;
    let l3 = number_asks(f, RealQuestionView::Product(steps, factor));
    let l = l1.union(l2).union(l3);
    assert forall|r: Answers| #[trigger] part_of(r, f) implies settled(
        sort_cost(r, rows, factor),
        sort_cost(f, rows, factor),
        r,
        l,
    ) by {}
    l
}

proof fn group_bound_asks(
    f: Answers,
    cfg: OptimizerConfig,
    m: Seq<GroupView>,
    g: int,
) -> (l: Set<RealQuestionView>)
    requires
        answers_all(f),
    ensures
        l.finite(),
        lower_bound_group(f, cfg, m, g) is Ok,
        forall|r: Answers| #[trigger] part_of(r, f) ==> settled(
            lower_bound_group(r, cfg, m, g),
            lower_bound_group(f, cfg, m, g),
            r,
            l,
        ),
    decreases g, 3int, 0int,
{
    let l = all_bound_asks(f, cfg, m, g, m[g].expressions);
    assert forall|r: Answers| #[trigger] part_of(r, f) implies settled(
        lower_bound_group(r, cfg, m, g),
        lower_bound_group(f, cfg, m, g),
        r,
        l,
    ) by {}
    l
}

proof fn all_bound_asks(
    f: Answers,
    cfg: OptimizerConfig,
    m: Seq<GroupView>,
    g: int,
    es: Seq<MemoExprView>,
) -> (l: Set<RealQuestionView>)
    requires
        answers_all(f),
    ensures
        l.finite(),
        lower_bound_all(f, cfg, m, g, es) is Ok,
        forall|r: Answers| #[trigger] part_of(r, f) ==> settled(
            lower_bound_all(r, cfg, m, g, es),
            lower_bound_all(f, cfg, m, g, es),
            r,
            l,
        ),
    decreases g, 2int, es.len(),
{
    let l = if es.len() == 0 {
        Set::<RealQuestionView>::empty()
    } else {
        let l1 = all_bound_asks(f, cfg, m, g, es.drop_last());
        let l2 = expr_bound_asks(f, cfg, m, g, es.last());
        l1.union(l2)
    };
    assert forall|r: Answers| #[trigger] part_of(r, f) implies settled(
        lower_bound_all(r, cfg, m, g, es),
        lower_bound_all(f, cfg, m, g, es),
        r,
        l,
    ) by {}
    l
}

proof fn expr_bound_asks(
    f: Answers,
    cfg: OptimizerConfig,
    m: Seq<GroupView>,
    g: int,
    e: MemoExprView,
) -> (l: Set<RealQuestionView>)
    requires
        answers_all(f),
    ensures
        l.finite(),
        lower_bound_expr(f, cfg, m, g, e) is Ok,
        forall|r: Answers| #[trigger] part_of(r, f) ==> settled(
            lower_bound_expr(r, cfg, m, g, e),
            lower_bound_expr(f, cfg, m, g, e),
            r,
            l,
        ),
    decreases g, 1int, 0int,
{
    let l1 = below_bound_asks(f, cfg, m, g, e.children);
    let below = lower_bound_below(f, cfg, m, g, e.children)->Ok_0;
    let l2 = number_asks(
        f,
        RealQuestionView::Sum(below, crate::sql::optimize::least_cost(cfg, e.op)),
    );
    let l = l1.union(l2);
    assert forall|r: Answers| #[trigger] part_of(r, f) implies settled(
        lower_bound_expr(r, cfg, m, g, e),
        lower_bound_expr(f, cfg, m, g, e),
        r,
        l,
    ) by {}
    l
}

proof fn below_bound_asks(
    f: Answers,
    cfg: OptimizerConfig,
    m: Seq<GroupView>,
    g: int,
    kids: Seq<usize>,
) -> (l: Set<RealQuestionView>)
    requires
        answers_all(f),
    ensures
        l.finite(),
        lower_bound_below(f, cfg, m, g, kids) is Ok,
        forall|r: Answers| #[trigger] part_of(r, f) ==> settled(
            lower_bound_below(r, cfg, m, g, kids),
            lower_bound_below(f, cfg, m, g, kids),
            r,
            l,
        ),
    decreases g, 0int, kids.len(),
{
    let l = if kids.len() == 0 {
        Set::<RealQuestionView>::empty()
    } else {
        let l1 = below_bound_asks(f, cfg, m, g, kids.drop_last());
        let a = lower_bound_below(f, cfg, m, g, kids.drop_last())->Ok_0;
        if kids.last() < g {
            let l2 = group_bound_asks(f, cfg, m, kids.last() as int);
            let b = lower_bound_group(f, cfg, m, kids.last() as int)->Ok_0;
            let l3 = number_asks(f, RealQuestionView::Sum(a, b));
            l1.union(l2).union(l3)
        } else {
            let l3 = number_asks(f, RealQuestionView::Sum(a, crate::sql::cost::ZERO));
            l1.union(l3)
        }
    };
    assert forall|r: Answers| #[trigger] part_of(r, f) implies settled(
        lower_bound_below(r, cfg, m, g, kids),
        lower_bound_below(f, cfg, m, g, kids),
        r,
        l,
    ) by {}
    l
}

proof fn enforced_asks(
    f: Answers,
    cfg: OptimizerConfig,
    plan: PhysicalPlanView,
    req: RequiredPropertiesView,
    bound: u64,
    s: SearchView,
) -> (l: Set<RealQuestionView>)
    requires
        answers_all(f),
    ensures
        l.finite(),
        enforced(f, cfg, plan, req, bound, s) is Ok,
        forall|r: Answers| #[trigger] part_of(r, f) ==> settled(
            enforced(r, cfg, plan, req, bound, s),
            enforced(f, cfg, plan, req, bound, s),
            r,
            l,
        ),
{
    let l1 = sort_asks(f, plan.rows, cfg.sort_cost_factor);
    let sorting = sort_cost(f, plan.rows, cfg.sort_cost_factor)->Ok_0;
    let l2 = number_asks(f, RealQuestionView::Sum(plan.cost, sorting));
    let l = l1.union(l2);
    assert forall|r: Answers| #[trigger] part_of(r, f) implies settled(
        enforced(r, cfg, plan, req, bound, s),
        enforced(f, cfg, plan, req, bound, s),
        r,
        l,
    ) by {}
    l
}

proof fn scan_asks(
    f: Answers,
    cfg: OptimizerConfig,
    table: crate::sql::ast::TableNameView,
    alias: Option<Seq<char>>,
) -> (l: Set<RealQuestionView>)
    requires
        answers_all(f),
    ensures
        l.finite(),
        scan_plan(f, cfg, table, alias) is Ok,
        forall|r: Answers| #[trigger] part_of(r, f) ==> settled(
            scan_plan(r, cfg, table, alias),
            scan_plan(f, cfg, table, alias),
            r,
            l,
        ),
{
    let l = priced_asks(
        f,
        cfg.seq_scan_startup_cost,
        cfg.default_table_rows,
        cfg.row_read_cost,
    );
    assert forall|r: Answers| #[trigger] part_of(r, f) implies settled(
        scan_plan(r, cfg, table, alias),
        scan_plan(f, cfg, table, alias),
        r,
        l,
    ) by {}
    l
}

proof fn over_asks(
    f: Answers,
    cfg: OptimizerConfig,
    op: LogicalOpView,
    child: PhysicalPlanView,
) -> (l: Set<RealQuestionView>)
    requires
        answers_all(f),
    ensures
        l.finite(),
        plan_over(f, cfg, op, child) is Ok,
        forall|r: Answers| #[trigger] part_of(r, f) ==> settled(
            plan_over(r, cfg, op, child),
            plan_over(f, cfg, op, child),
            r,
            l,
        ),
{
    let l = match op {
        LogicalOpView::Selection { predicate } => {
            let l1 = number_asks(f, RealQuestionView::Product(child.rows, SELECTIVITY));
            let l2 = priced_asks(f, child.cost, child.rows, cfg.predicate_cost);
            l1.union(l2)
        },
        LogicalOpView::Projection { items } => priced_asks(
            f,
            child.cost,
            child.rows,
            cfg.projection_cost,
        ),
        LogicalOpView::Limit { count } => {
            let l1 = number_asks(f, RealQuestionView::Product(child.rows, cfg.limit_selectivity));
            let share = times(f, child.rows, cfg.limit_selectivity)->Ok_0;
            let l2 = priced_asks(f, child.cost, larger(share, ONE), LIMIT_COST);
            l1.union(l2)
        },
        _ => Set::<RealQuestionView>::empty(),
    };
    assert forall|r: Answers| #[trigger] part_of(r, f) implies settled(
        plan_over(r, cfg, op, child),
        plan_over(f, cfg, op, child),
        r,
        l,
    ) by {}
    l
}

proof fn pair_asks(
    f: Answers,
    cfg: OptimizerConfig,
    hash: bool,
    join_type: JoinType,
    constraint: JoinConstraintView,
    left: PhysicalPlanView,
    right: PhysicalPlanView,
) -> (l: Set<RealQuestionView>)
    requires
        answers_all(f),
    ensures
        l.finite(),
        pair_plan(f, cfg, hash, join_type, constraint, left, right) is Ok,
        forall|r: Answers| #[trigger] part_of(r, f) ==> settled(
            pair_plan(r, cfg, hash, join_type, constraint, left, right),
            pair_plan(f, cfg, hash, join_type, constraint, left, right),
            r,
            l,
        ),
{
    let l1 = join_rows_asks(f, left.rows, right.rows, join_type, constraint);
    let l2 = number_asks(f, RealQuestionView::Sum(left.cost, right.cost));
    let sides = plus(f, left.cost, right.cost)->Ok_0;
    let l3 = number_asks(f, RealQuestionView::Sum(left.rows, right.rows));
    let l4 = number_asks(f, RealQuestionView::Product(left.rows, right.rows));
    let n = if hash {
        plus(f, left.rows, right.rows)->Ok_0
    } else {
        times(f, left.rows, right.rows)->Ok_0
    };
    let l5 = priced_asks(
        f,
        sides,
        n,
        if hash {
            cfg.hash_join_tuple_cost
        } else {
            cfg.nested_loop_tuple_cost
        },
    );
    let l = l1.union(l2).union(l3).union(l4).union(l5);
    assert forall|r: Answers| #[trigger] part_of(r, f) implies settled(
        pair_plan(r, cfg, hash, join_type, constraint, left, right),
        pair_plan(f, cfg, hash, join_type, constraint, left, right),
        r,
        l,
    ) by {}
    l
}

proof fn group_asks(
    f: Answers,
    cfg: OptimizerConfig,
    m: Seq<GroupView>,
    g: int,
    req: RequiredPropertiesView,
    bound: u64,
    s: SearchView,
) -> (l: Set<RealQuestionView>)
    requires
        answers_all(f),
    ensures
        l.finite(),
        best_of_group(f, cfg, m, g, req, bound, s) is Ok,
        forall|r: Answers| #[trigger] part_of(r, f) ==> settled(
            best_of_group(r, cfg, m, g, req, bound, s),
            best_of_group(f, cfg, m, g, req, bound, s),
            r,
            l,
        ),
    decreases g, 3int, 0int,
{
    let l = match remembered(s.best[g], req) {
        Some(_) => Set::<RealQuestionView>::empty(),
        None => all_asks(f, cfg, m, g, m[g].expressions, req, bound, s),
    };
    assert forall|r: Answers| #[trigger] part_of(r, f) implies settled(
        best_of_group(r, cfg, m, g, req, bound, s),
        best_of_group(f, cfg, m, g, req, bound, s),
        r,
        l,
    ) by {}
    l
}

proof fn all_asks(
    f: Answers,
    cfg: OptimizerConfig,
    m: Seq<GroupView>,
    g: int,
    es: Seq<MemoExprView>,
    req: RequiredPropertiesView,
    bound: u64,
    s: SearchView,
) -> (l: Set<RealQuestionView>)
    requires
        answers_all(f),
    ensures
        l.finite(),
        best_of_all(f, cfg, m, g, es, req, bound, s) is Ok,
        forall|r: Answers| #[trigger] part_of(r, f) ==> settled(
            best_of_all(r, cfg, m, g, es, req, bound, s),
            best_of_all(f, cfg, m, g, es, req, bound, s),
            r,
            l,
        ),
    decreases g, 2int, es.len(),
{
    let l = if es.len() == 0 {
        Set::<RealQuestionView>::empty()
    } else {
        let l1 = all_asks(f, cfg, m, g, es.drop_last(), req, bound, s);
        let t = best_of_all(f, cfg, m, g, es.drop_last(), req, bound, s)->Ok_0;
        let l2 = try_asks(f, cfg, m, g, es.last(), req, t);
        l1.union(l2)
    };
    assert forall|r: Answers| #[trigger] part_of(r, f) implies settled(
        best_of_all(r, cfg, m, g, es, req, bound, s),
        best_of_all(f, cfg, m, g, es, req, bound, s),
        r,
        l,
    ) by {}
    l
}

proof fn try_asks(
    f: Answers,
    cfg: OptimizerConfig,
    m: Seq<GroupView>,
    g: int,
    e: MemoExprView,
    req: RequiredPropertiesView,
    t: TrialView,
) -> (l: Set<RealQuestionView>)
    requires
        answers_all(f),
    ensures
        l.finite(),
        one_try(f, cfg, m, g, e, req, t) is Ok,
        forall|r: Answers| #[trigger] part_of(r, f) ==> settled(
            one_try(r, cfg, m, g, e, req, t),
            one_try(f, cfg, m, g, e, req, t),
            r,
            l,
        ),
    decreases g, 1int, 1int,
{
    let l1 = expr_bound_asks(f, cfg, m, g, e);
    let l2 = expr_asks(f, cfg, m, g, e, req, t.cost, looked_at(t.search));
    let l = l1.union(l2);
    assert forall|r: Answers| #[trigger] part_of(r, f) implies settled(
        one_try(r, cfg, m, g, e, req, t),
        one_try(f, cfg, m, g, e, req, t),
        r,
        l,
    ) by {}
    l
}

proof fn expr_asks(
    f: Answers,
    cfg: OptimizerConfig,
    m: Seq<GroupView>,
    g: int,
    e: MemoExprView,
    req: RequiredPropertiesView,
    bound: u64,
    s: SearchView,
) -> (l: Set<RealQuestionView>)
    requires
        answers_all(f),
    ensures
        l.finite(),
        plan_of_expr(f, cfg, m, g, e, req, bound, s) is Ok,
        forall|r: Answers| #[trigger] part_of(r, f) ==> settled(
            plan_of_expr(r, cfg, m, g, e, req, bound, s),
            plan_of_expr(f, cfg, m, g, e, req, bound, s),
            r,
            l,
        ),
    decreases g, 1int, 0int,
{
    let l = match e.op {
        LogicalOpView::OneRow => enforced_asks(f, cfg, one_row_plan(), req, bound, s),
        LogicalOpView::TableScan { table, alias } => {
            let l1 = scan_asks(f, cfg, table, alias);
            let plan = scan_plan(f, cfg, table, alias)->Ok_0;
            let l2 = enforced_asks(f, cfg, plan, req, bound, s);
            l1.union(l2)
        },
        LogicalOpView::Join { join_type, constraint } => join_asks(
            f,
            cfg,
            m,
            g,
            e.children[0] as int,
            e.children[1] as int,
            join_type,
            constraint,
            req,
            bound,
            s,
        ),
        _ => {
            let kid = e.children[0] as int;
            let kid_req = asked_of_child(e.op, req);
            if kid < g {
                let l1 = group_asks(f, cfg, m, kid, kid_req, bound, s);
                match best_of_group(f, cfg, m, kid, kid_req, bound, s)->Ok_0 {
                    (None, t) => l1,
                    (Some(child), t) => {
                        let l2 = over_asks(f, cfg, e.op, child);
                        let plan = plan_over(f, cfg, e.op, child)->Ok_0;
                        let l3 = enforced_asks(f, cfg, plan, req, bound, t);
                        l1.union(l2).union(l3)
                    },
                }
            } else {
                Set::<RealQuestionView>::empty()
            }
        },
    };
    assert forall|r: Answers| #[trigger] part_of(r, f) implies settled(
        plan_of_expr(r, cfg, m, g, e, req, bound, s),
        plan_of_expr(f, cfg, m, g, e, req, bound, s),
        r,
        l,
    ) by {}
    l
}

proof fn both_asks(
    f: Answers,
    cfg: OptimizerConfig,
    m: Seq<GroupView>,
    g: int,
    a: int,
    b: int,
    req: RequiredPropertiesView,
    bound: u64,
    s: SearchView,
) -> (l: Set<RealQuestionView>)
    requires
        answers_all(f),
    ensures
        l.finite(),
        best_of_both(f, cfg, m, g, a, b, req, bound, s) is Ok,
        forall|r: Answers| #[trigger] part_of(r, f) ==> settled(
            best_of_both(r, cfg, m, g, a, b, req, bound, s),
            best_of_both(f, cfg, m, g, a, b, req, bound, s),
            r,
            l,
        ),
    decreases g, 0int, 0int,
{
    let l = if 0 <= a < g && 0 <= b < g {
        let l1 = group_asks(f, cfg, m, a, req, bound, s);
        match best_of_group(f, cfg, m, a, req, bound, s)->Ok_0 {
            (None, t) => l1,
            (Some(_), t) => {
                let l2 = group_asks(f, cfg, m, b, nothing_asked(), bound, t);
                l1.union(l2)
            },
        }
    } else {
        Set::<RealQuestionView>::empty()
    };
    assert forall|r: Answers| #[trigger] part_of(r, f) implies settled(
        best_of_both(r, cfg, m, g, a, b, req, bound, s),
        best_of_both(f, cfg, m, g, a, b, req, bound, s),
        r,
        l,
    ) by {}
    l
}

proof fn join_by_asks(
    f: Answers,
    cfg: OptimizerConfig,
    m: Seq<GroupView>,
    g: int,
    a: int,
    b: int,
    hash: bool,
    join_type: JoinType,
    constraint: JoinConstraintView,
    req: RequiredPropertiesView,
    bound: u64,
    s: SearchView,
) -> (l: Set<RealQuestionView>)
    requires
        answers_all(f),
    ensures
        l.finite(),
        join_by(f, cfg, m, g, a, b, hash, join_type, constraint, req, bound, s) is Ok,
        forall|r: Answers| #[trigger] part_of(r, f) ==> settled(
            join_by(r, cfg, m, g, a, b, hash, join_type, constraint, req, bound, s),
            join_by(f, cfg, m, g, a, b, hash, join_type, constraint, req, bound, s),
            r,
            l,
        ),
    decreases g, 0int, 1int,
{
    let left_req = if hash {
        nothing_asked()
    } else {
        asked_of_left(join_type, req)
    };
    let l1 = both_asks(f, cfg, m, g, a, b, left_req, bound, s);
    let l = match best_of_both(f, cfg, m, g, a, b, left_req, bound, s)->Ok_0 {
        (None, t) => l1,
        (Some((left, right)), t) => {
            let l2 = pair_asks(f, cfg, hash, join_type, constraint, left, right);
            let plan = pair_plan(f, cfg, hash, join_type, constraint, left, right)->Ok_0;
            let l3 = enforced_asks(f, cfg, plan, req, bound, t);
            l1.union(l2).union(l3)
        },
    };
    assert forall|r: Answers| #[trigger] part_of(r, f) implies settled(
        join_by(r, cfg, m, g, a, b, hash, join_type, constraint, req, bound, s),
        join_by(f, cfg, m, g, a, b, hash, join_type, constraint, req, bound, s),
        r,
        l,
    ) by {}
    l
}

proof fn least_asks(
    f: Answers,
    cfg: OptimizerConfig,
    m: Seq<GroupView>,
    g: int,
    a: int,
    b: int,
) -> (l: Set<RealQuestionView>)
    requires
        answers_all(f),
    ensures
        l.finite(),
        least_hash_cost(f, cfg, m, g, a, b) is Ok,
        forall|r: Answers| #[trigger] part_of(r, f) ==> settled(
            least_hash_cost(r, cfg, m, g, a, b),
            least_hash_cost(f, cfg, m, g, a, b),
            r,
            l,
        ),
{
    let l = if 0 <= a < g && 0 <= b < g {
        let l1 = group_bound_asks(f, cfg, m, a);
        let l2 = group_bound_asks(f, cfg, m, b);
        let x = lower_bound_group(f, cfg, m, a)->Ok_0;
        let y = lower_bound_group(f, cfg, m, b)->Ok_0;
        let l3 = number_asks(f, RealQuestionView::Sum(x, y));
        let z = plus(f, x, y)->Ok_0;
        let l4 = number_asks(f, RealQuestionView::Sum(z, cfg.hash_join_tuple_cost));
        l1.union(l2).union(l3).union(l4)
    } else {
        Set::<RealQuestionView>::empty()
    };
    assert forall|r: Answers| #[trigger] part_of(r, f) implies settled(
        least_hash_cost(r, cfg, m, g, a, b),
        least_hash_cost(f, cfg, m, g, a, b),
        r,
        l,
    ) by {}
    l
}

proof fn join_asks(
    f: Answers,
    cfg: OptimizerConfig,
    m: Seq<GroupView>,
    g: int,
    a: int,
    b: int,
    join_type: JoinType,
    constraint: JoinConstraintView,
    req: RequiredPropertiesView,
    bound: u64,
    s: SearchView,
) -> (l: Set<RealQuestionView>)
    requires
        answers_all(f),
    ensures
        l.finite(),
        plan_of_join(f, cfg, m, g, a, b, join_type, constraint, req, bound, s) is Ok,
        forall|r: Answers| #[trigger] part_of(r, f) ==> settled(
            plan_of_join(r, cfg, m, g, a, b, join_type, constraint, req, bound, s),
            plan_of_join(f, cfg, m, g, a, b, join_type, constraint, req, bound, s),
            r,
            l,
        ),
    decreases g, 0int, 2int,
{
    let l1 = join_by_asks(f, cfg, m, g, a, b, false, join_type, constraint, req, bound, s);
    let (_, (looped, u)) = join_by(
        f,
        cfg,
        m,
        g,
        a,
        b,
        false,
        join_type,
        constraint,
        req,
        bound,
        s,
    )->Ok_0;
    let cost = match looped {
        Some(p) => p.cost,
        None => bound,
    };
    let l2 = least_asks(f, cfg, m, g, a, b);
    let l3 = join_by_asks(f, cfg, m, g, a, b, true, join_type, constraint, req, cost, u);
    let l = l1.union(l2).union(l3);
    assert forall|r: Answers| #[trigger] part_of(r, f) implies settled(
        plan_of_join(r, cfg, m, g, a, b, join_type, constraint, req, bound, s),
        plan_of_join(f, cfg, m, g, a, b, join_type, constraint, req, bound, s),
        r,
        l,
    ) by {}
    l
}

/// A search asks finitely many questions: with the answers of `f` to come, every
/// question that it asks is among those handed back and has no answer yet. Once they
/// are answered it comes to a plan, or to none, and asks no more; what it comes to
/// does not depend on which answers were known before.
pub proof fn asking_ends(
    f: Answers,
    cfg: OptimizerConfig,
    rel: RelationExprView,
    req: RequiredPropertiesView,
    bound: u64,
) -> (l: Set<RealQuestionView>)
    requires
        answers_all(f),
    ensures
        l.finite(),
        best_plan(f, cfg, rel, req, bound) is Ok,
        forall|r: Answers| #[trigger] part_of(r, f) ==> settled(
            best_plan(r, cfg, rel, req, bound),
            best_plan(f, cfg, rel, req, bound),
            r,
            l,
        ),
        forall|r: Answers| #[trigger] part_of(r, f) && (forall|q: RealQuestionView|
            l.contains(q) ==> (#[trigger] r(q)) is Some) ==> best_plan(r, cfg, rel, req, bound)
            == best_plan(f, cfg, rel, req, bound),
{
    let (m, root) = inserted(rel, seq![]);
    let (n, rules) = explored(m, 0, root as int);
    let s = first_search(n.len(), rules);
    let l = group_asks(f, cfg, n, root as int, req, bound, s);
    assert forall|r: Answers| #[trigger] part_of(r, f) && (forall|q: RealQuestionView|
        l.contains(q) ==> (#[trigger] r(q)) is Some) implies best_plan(r, cfg, rel, req, bound)
        == best_plan(f, cfg, rel, req, bound) by {
        assert(settled(
            best_plan(r, cfg, rel, req, bound),
            best_plan(f, cfg, rel, req, bound),
            r,
            l,
        ));
    }
    l
}

/// Asking takes at most as many rounds as there are questions: `rs` are the answers
/// known before each round, in which the question `qs` is asked and answered.
pub proof fn rounds_are_bounded(
    f: Answers,
    cfg: OptimizerConfig,
    rel: RelationExprView,
    req: RequiredPropertiesView,
    bound: u64,
    rs: Seq<Answers>,
    qs: Seq<RealQuestionView>,
) -> (l: Set<RealQuestionView>)
    requires
        answers_all(f),
        rs.len() == qs.len(),
        forall|i: int| 0 <= i < rs.len() ==> part_of(#[trigger] rs[i], f),
        forall|i: int|
            0 <= i < rs.len() ==> best_plan(#[trigger] rs[i], cfg, rel, req, bound) == Err::<
                Found,
                RealQuestionView,
            >(qs[i]),
        forall|i: int, j: int|
            0 <= i < j < rs.len() ==> (#[trigger] rs[j])(#[trigger] qs[i]) is Some,
    ensures
        l.finite(),
        qs.len() <= l.len(),
{
    let l = asking_ends(f, cfg, rel, req, bound);
    assert forall|i: int| 0 <= i < qs.len() implies l.contains(#[trigger] qs[i]) && rs[i](
        qs[i],
    ) is None by {
        assert(part_of(rs[i], f));
        assert(settled(
            best_plan(rs[i], cfg, rel, req, bound),
            best_plan(f, cfg, rel, req, bound),
            rs[i],
            l,
        ));
    }
    assert forall|i: int, j: int| 0 <= i < qs.len() && 0 <= j < qs.len() && i != j implies qs[i]
        != qs[j] by {
        if i < j {
            assert(rs[j](qs[i]) is Some);
            assert(l.contains(qs[j]));
        } else {
            assert(rs[i](qs[j]) is Some);
            assert(l.contains(qs[i]));
        }
    }
    assert(qs.no_duplicates());
    qs.unique_seq_to_set();
    assert(qs.to_set().subset_of(l)) by {
        assert forall|q: RealQuestionView| #[trigger] qs.to_set().contains(q) implies l.contains(
            q,
        ) by {
            let i = choose|i: int| 0 <= i < qs.len() && qs[i] == q;
            assert(l.contains(qs[i]));
        }
    }
    vstd::set_lib::lemma_len_subset(qs.to_set(), l);
    l
}

} // verus!
