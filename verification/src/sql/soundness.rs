//! Plans find the rows of the relations that they are for.
use vstd::prelude::*;

use crate::sql::ast::{BinaryOp, ExprView, JoinConstraintView, JoinType};
use crate::sql::cost::{real_le, OptimizerConfig};
use crate::sql::memo::{
    both, expr_ok, explored, explored_below, explored_each, inserted, memo_ok, merged_selections,
    with_all_rules, with_expression, with_group, with_rules, GroupView, LogicalOpView,
    MemoExprView,
};
use crate::sql::optimize::{
    as_asked, asked_of_child, asked_of_left, best_of_all, best_of_both, best_of_group, enforced,
    first_search, group_as_asked, join_by, looked_at, lower_bound_expr, nothing_asked, one_try, pair_plan,
    plan_of_expr, plan_of_join, plan_over, remembered, SearchView,
};
use crate::sql::plan::{
    satisfied, PhysicalPlanNodeView, PhysicalPlanView, RequiredPropertiesView,
};
use crate::sql::reals::Answers;
use crate::sql::relation::RelationExprView;

verus! {

/// Any relation can be between two selections.
pub open spec fn between(rel: RelationExprView) -> bool {
    true
}

/// Whether the rows of `base` that a condition holds of are those of `rel`: a
/// selection, or selections of a selection whose conditions are joined by AND.
pub open spec fn selects(pred: ExprView, base: RelationExprView, rel: RelationExprView) -> bool
    decreases pred,
{
    ||| match rel {
        RelationExprView::Selection { input, predicate } => predicate == pred && *input == base,
        _ => false,
    }
    ||| match pred {
        ExprView::Binary { left, op, right } => op == BinaryOp::And && exists|
            mid: RelationExprView,
        | #[trigger]
            between(mid) && selects(*left, mid, rel) && selects(*right, base, mid),
        _ => false,
    }
}

/// Conditions of a selection of a selection are merged.
proof fn selects_both(
    a: ExprView,
    b: ExprView,
    base: RelationExprView,
    mid: RelationExprView,
    rel: RelationExprView,
)
    requires
        selects(a, mid, rel),
        selects(b, base, mid),
    ensures
        selects(both(a, b), base, rel),
{
    assert(between(mid));
}

/// Whether a join can be turned around.
pub open spec fn turns(t: JoinType) -> bool {
    t == JoinType::Inner || t == JoinType::Cross
}

/// Whether a plan finds the rows of a relation, in the order that the relation
/// asks for. Sorting changes no rows, inner and cross joins can be turned around,
/// and conditions can be merged.
pub open spec fn answers(p: PhysicalPlanView, rel: RelationExprView) -> bool
    decreases p, rel,
{
    ||| match p.node {
        PhysicalPlanNodeView::Sort { items, input } => answers(*input, rel),
        _ => false,
    }
    ||| match rel {
        RelationExprView::Order { input, items } => satisfied(
            p.properties,
            RequiredPropertiesView { ordering: items },
        ) && answers(p, *input),
        _ => false,
    }
    ||| match (p.node, rel) {
        (PhysicalPlanNodeView::OneRow, RelationExprView::OneRow) => true,
        (
            PhysicalPlanNodeView::SeqScan { table, alias },
            RelationExprView::TableScan { table: t, alias: a },
        ) => table == t && alias == a,
        (
            PhysicalPlanNodeView::Project { items, input },
            RelationExprView::Projection { input: r, items: i },
        ) => items == i && answers(*input, *r),
        (
            PhysicalPlanNodeView::Limit { count, input },
            RelationExprView::Limit { input: r, count: n },
        ) => count == n && answers(*input, *r),
        (PhysicalPlanNodeView::Filter { predicate, input }, _) => exists|base: RelationExprView|
            #[trigger] selects(predicate, base, rel) && answers(*input, base),
        (
            PhysicalPlanNodeView::NestedLoopJoin { join_type, constraint, left, right },
            RelationExprView::Join { left: l, right: r, join_type: t, constraint: c },
        ) => join_type == t && constraint == c && ((answers(*left, *l) && answers(*right, *r)) || (
        turns(t) && answers(*left, *r) && answers(*right, *l))),
        (
            PhysicalPlanNodeView::HashJoin { join_type, constraint, left, right },
            RelationExprView::Join { left: l, right: r, join_type: t, constraint: c },
        ) => join_type == t && constraint == c && ((answers(*left, *l) && answers(*right, *r)) || (
        turns(t) && answers(*left, *r) && answers(*right, *l))),
        _ => false,
    }
}

// -- Groups ----------------------------------------------------

/// Whether a relation over groups is `rel`, where `rels` are the relations of the
/// groups.
pub open spec fn stands_for(
    e: MemoExprView,
    rels: Seq<RelationExprView>,
    rel: RelationExprView,
) -> bool {
    match e.op {
        LogicalOpView::OneRow => rel == RelationExprView::OneRow,
        LogicalOpView::TableScan { table, alias } => rel == (RelationExprView::TableScan {
            table,
            alias,
        }),
        LogicalOpView::Projection { items } => rel == (RelationExprView::Projection {
            input: Box::new(rels[e.children[0] as int]),
            items,
        }),
        LogicalOpView::Selection { predicate } => selects(
            predicate,
            rels[e.children[0] as int],
            rel,
        ),
        LogicalOpView::Join { join_type, constraint } => {
            let a = rels[e.children[0] as int];
            let b = rels[e.children[1] as int];
            ||| rel == (RelationExprView::Join {
                left: Box::new(a),
                right: Box::new(b),
                join_type,
                constraint,
            })
            ||| turns(join_type) && rel == (RelationExprView::Join {
                left: Box::new(b),
                right: Box::new(a),
                join_type,
                constraint,
            })
        },
        LogicalOpView::Order { items } => rel == (RelationExprView::Order {
            input: Box::new(rels[e.children[0] as int]),
            items,
        }),
        LogicalOpView::Limit { count } => rel == (RelationExprView::Limit {
            input: Box::new(rels[e.children[0] as int]),
            count,
        }),
    }
}

/// Whether all relations of each group are one and the same.
pub open spec fn meant(m: Seq<GroupView>, rels: Seq<RelationExprView>) -> bool {
    &&& m.len() == rels.len()
    &&& memo_ok(m)
    &&& forall|g: int, k: int|
        0 <= g < m.len() && 0 <= k < m[g].expressions.len() ==> stands_for(
            #[trigger] m[g].expressions[k],
            rels,
            rels[g],
        )
}

/// What the groups for a relation and all in it mean.
pub open spec fn inserted_rels(rel: RelationExprView, rels: Seq<RelationExprView>) -> Seq<
    RelationExprView,
>
    decreases rel,
{
    match rel {
        RelationExprView::OneRow => rels.push(rel),
        RelationExprView::TableScan { table, alias } => rels.push(rel),
        RelationExprView::Projection { input, items } => inserted_rels(*input, rels).push(rel),
        RelationExprView::Selection { input, predicate } => inserted_rels(*input, rels).push(rel),
        RelationExprView::Join { left, right, join_type, constraint } => inserted_rels(
            *right,
            inserted_rels(*left, rels),
        ).push(rel),
        RelationExprView::Order { input, items } => inserted_rels(*input, rels).push(rel),
        RelationExprView::Limit { input, count } => inserted_rels(*input, rels).push(rel),
    }
}

proof fn inserted_longer(rel: RelationExprView, m: Seq<GroupView>)
    ensures
        inserted(rel, m).0.len() > m.len(),
    decreases rel,
{
    match rel {
        RelationExprView::OneRow => {},
        RelationExprView::TableScan { table, alias } => {},
        RelationExprView::Projection { input, items } => {
            inserted_longer(*input, m);
        },
        RelationExprView::Selection { input, predicate } => {
            inserted_longer(*input, m);
        },
        RelationExprView::Join { left, right, join_type, constraint } => {
            inserted_longer(*left, m);
            inserted_longer(*right, inserted(*left, m).0);
        },
        RelationExprView::Order { input, items } => {
            inserted_longer(*input, m);
        },
        RelationExprView::Limit { input, count } => {
            inserted_longer(*input, m);
        },
    }
}

proof fn group_meant(
    m: Seq<GroupView>,
    rels: Seq<RelationExprView>,
    e: MemoExprView,
    rel: RelationExprView,
)
    requires
        meant(m, rels),
        expr_ok(e, m.len() as int),
        stands_for(e, rels, rel),
    ensures
        meant(with_group(m, e), rels.push(rel)),
{
    let n = with_group(m, e);
    let s = rels.push(rel);
    assert forall|g: int, k: int|
        0 <= g < n.len() && 0 <= k < n[g].expressions.len() implies stands_for(
        #[trigger] n[g].expressions[k],
        s,
        s[g],
    ) && expr_ok(n[g].expressions[k], g) by {
        if g < m.len() {
            assert(n[g] == m[g]);
            assert(stands_for(m[g].expressions[k], rels, rels[g]));
            assert(expr_ok(m[g].expressions[k], g));
            stands_more(m[g].expressions[k], rels, s, rels[g], g);
        } else {
            stands_more(e, rels, s, rel, g);
        }
    }
}

proof fn stands_more(
    e: MemoExprView,
    rels: Seq<RelationExprView>,
    s: Seq<RelationExprView>,
    rel: RelationExprView,
    g: int,
)
    requires
        stands_for(e, rels, rel),
        expr_ok(e, g),
        g <= rels.len() <= s.len(),
        forall|i: int| 0 <= i < rels.len() ==> #[trigger] s[i] == rels[i],
    ensures
        stands_for(e, s, rel),
{
    if e.children.len() > 0 {
        assert(e.children[0] < g);
        assert(s[e.children[0] as int] == rels[e.children[0] as int]);
    }
    if e.children.len() > 1 {
        assert(e.children[1] < g);
        assert(s[e.children[1] as int] == rels[e.children[1] as int]);
    }
}

/// The groups for a relation and all in it mean what they should.
proof fn inserted_meant(rel: RelationExprView, m: Seq<GroupView>, rels: Seq<RelationExprView>)
    requires
        meant(m, rels),
        inserted(rel, m).0.len() <= usize::MAX,
    ensures
        ({
            let (n, id) = inserted(rel, m);
            let s = inserted_rels(rel, rels);
            &&& meant(n, s)
            &&& id == n.len() - 1
            &&& s[id as int] == rel
            &&& s.len() > rels.len()
            &&& forall|i: int| 0 <= i < rels.len() ==> #[trigger] s[i] == rels[i]
        }),
    decreases rel, 0int,
{
    match rel {
        RelationExprView::OneRow => {
            group_meant(m, rels, MemoExprView { op: LogicalOpView::OneRow, children: seq![] }, rel);
        },
        RelationExprView::TableScan { table, alias } => {
            group_meant(
                m,
                rels,
                MemoExprView { op: LogicalOpView::TableScan { table, alias }, children: seq![] },
                rel,
            );
        },
        RelationExprView::Projection { input, items } => {
            one_meant(*input, m, rels, LogicalOpView::Projection { items }, rel);
        },
        RelationExprView::Selection { input, predicate } => {
            one_meant(*input, m, rels, LogicalOpView::Selection { predicate }, rel);
        },
        RelationExprView::Join { left, right, join_type, constraint } => {
            let (n, a) = inserted(*left, m);
            let s = inserted_rels(*left, rels);
            let (o, b) = inserted(*right, n);
            let t = inserted_rels(*right, s);
            inserted_longer(*right, n);
            inserted_meant(*left, m, rels);
            inserted_meant(*right, n, s);
            assert(t[a as int] == s[a as int]);
            let e = MemoExprView {
                op: LogicalOpView::Join { join_type, constraint },
                children: seq![a, b],
            };
            assert(*left == t[a as int] && *right == t[b as int]);
            group_meant(o, t, e, rel);
            assert forall|i: int| 0 <= i < rels.len() implies #[trigger] t.push(rel)[i]
                == rels[i] by {
                assert(t[i] == s[i]);
            }
        },
        RelationExprView::Order { input, items } => {
            one_meant(*input, m, rels, LogicalOpView::Order { items }, rel);
        },
        RelationExprView::Limit { input, count } => {
            one_meant(*input, m, rels, LogicalOpView::Limit { count }, rel);
        },
    }
}

proof fn one_meant(
    input: RelationExprView,
    m: Seq<GroupView>,
    rels: Seq<RelationExprView>,
    op: LogicalOpView,
    rel: RelationExprView,
)
    requires
        meant(m, rels),
        inserted(input, m).0.len() < usize::MAX,
        crate::sql::memo::arity(op) == 1,
        match op {
            LogicalOpView::Projection { items } => rel == (RelationExprView::Projection {
                input: Box::new(input),
                items,
            }),
            LogicalOpView::Selection { predicate } => rel == (RelationExprView::Selection {
                input: Box::new(input),
                predicate,
            }),
            LogicalOpView::Order { items } => rel == (RelationExprView::Order {
                input: Box::new(input),
                items,
            }),
            LogicalOpView::Limit { count } => rel == (RelationExprView::Limit {
                input: Box::new(input),
                count,
            }),
            _ => false,
        },
    ensures
        ({
            let (n, child) = inserted(input, m);
            let s = inserted_rels(input, rels);
            let e = MemoExprView { op, children: seq![child] };
            &&& meant(with_group(n, e), s.push(rel))
            &&& n.len() == s.len()
            &&& s.len() > rels.len()
            &&& forall|i: int| 0 <= i < rels.len() ==> #[trigger] s.push(rel)[i] == rels[i]
        }),
    decreases input, 1int,
{
    inserted_meant(input, m, rels);
    let (n, child) = inserted(input, m);
    let s = inserted_rels(input, rels);
    let e = MemoExprView { op, children: seq![child] };
    assert(s[child as int] == input);
    assert(stands_for(e, s, rel)) by {
        match op {
            LogicalOpView::Selection { predicate } => {
                assert(selects(predicate, input, rel));
            },
            _ => {},
        }
    }
    group_meant(n, s, e, rel);
    assert forall|i: int| 0 <= i < rels.len() implies #[trigger] s.push(rel)[i] == rels[i] by {
        assert(s[i] == rels[i]);
    }
}


// -- Rules -----------------------------------------------------

proof fn expression_meant(
    m: Seq<GroupView>,
    n: usize,
    g: int,
    e: MemoExprView,
    rels: Seq<RelationExprView>,
)
    requires
        meant(m, rels),
        0 <= g < m.len(),
        expr_ok(e, g),
        stands_for(e, rels, rels[g]),
    ensures
        meant(with_expression(m, n, g, e).0, rels),
{
    let o = with_expression(m, n, g, e).0;
    assert forall|h: int, k: int|
        0 <= h < o.len() && 0 <= k < o[h].expressions.len() implies stands_for(
        #[trigger] o[h].expressions[k],
        rels,
        rels[h],
    ) && expr_ok(o[h].expressions[k], h) by {
        if h != g {
            assert(o[h] == m[h]);
            assert(stands_for(m[h].expressions[k], rels, rels[h]));
            assert(expr_ok(m[h].expressions[k], h));
        } else if k < m[h].expressions.len() {
            assert(o[h].expressions[k] == m[h].expressions[k]);
            assert(stands_for(m[h].expressions[k], rels, rels[h]));
            assert(expr_ok(m[h].expressions[k], h));
        }
    }
}

proof fn merged_meant(
    m: Seq<GroupView>,
    n: usize,
    g: int,
    predicate: ExprView,
    kid: int,
    below: Seq<MemoExprView>,
    rels: Seq<RelationExprView>,
)
    requires
        meant(m, rels),
        0 <= kid < g < m.len(),
        selects(predicate, rels[kid], rels[g]),
        forall|i: int|
            0 <= i < below.len() ==> expr_ok(#[trigger] below[i], kid) && stands_for(
                below[i],
                rels,
                rels[kid],
            ),
    ensures
        meant(merged_selections(m, n, g, predicate, below).0, rels),
    decreases below.len(),
{
    if below.len() > 0 {
        let b = below.drop_last();
        assert forall|i: int| 0 <= i < b.len() implies expr_ok(#[trigger] b[i], kid) && stands_for(
            b[i],
            rels,
            rels[kid],
        ) by {
            assert(b[i] == below[i]);
        }
        merged_meant(m, n, g, predicate, kid, b, rels);
        let (o, k) = merged_selections(m, n, g, predicate, b);
        let e = below.last();
        assert(e == below[below.len() - 1]);
        assert(expr_ok(e, kid) && stands_for(e, rels, rels[kid]));
        match e.op {
            LogicalOpView::Selection { predicate: inner } => {
                let c = rels[e.children[0] as int];
                assert(selects(predicate, rels[kid], rels[g]) && selects(inner, c, rels[kid]));
                selects_both(predicate, inner, c, rels[kid], rels[g]);
                let f = MemoExprView {
                    op: LogicalOpView::Selection { predicate: both(predicate, inner) },
                    children: e.children,
                };
                assert(expr_ok(f, g)) by {
                    assert forall|i: int| 0 <= i < f.children.len() implies #[trigger] f.children[i]
                        < g by {
                        assert(e.children[i] < kid);
                    }
                }
                expression_meant(o, k, g, f, rels);
            },
            _ => {},
        }
    }
}

proof fn rules_meant(
    m: Seq<GroupView>,
    n: usize,
    g: int,
    e: MemoExprView,
    rels: Seq<RelationExprView>,
)
    requires
        meant(m, rels),
        0 <= g < m.len(),
        expr_ok(e, g),
        stands_for(e, rels, rels[g]),
    ensures
        meant(with_rules(m, n, g, e).0, rels),
{
    match e.op {
        LogicalOpView::Join { join_type, constraint } => {
            if turns(join_type) {
                let f = MemoExprView { op: e.op, children: seq![e.children[1], e.children[0]] };
                assert(e.children[0] < g && e.children[1] < g);
                assert(f.children[0] == e.children[1] && f.children[1] == e.children[0]);
                expression_meant(m, n, g, f, rels);
            }
        },
        LogicalOpView::Selection { predicate } => {
            assert(e.children[0] < g);
            let kid = e.children[0] as int;
            let below = m[kid].expressions;
            assert forall|i: int| 0 <= i < below.len() implies expr_ok(#[trigger] below[i], kid)
                && stands_for(below[i], rels, rels[kid]) by {
                assert(stands_for(m[kid].expressions[i], rels, rels[kid]));
                assert(expr_ok(m[kid].expressions[i], kid));
            }
            merged_meant(m, n, g, predicate, kid, below, rels);
        },
        _ => {},
    }
}

/// Whether relations of group `g` mean what the group does.
spec fn all_stand(es: Seq<MemoExprView>, g: int, rels: Seq<RelationExprView>) -> bool {
    forall|k: int|
        0 <= k < es.len() ==> expr_ok(#[trigger] es[k], g) && stands_for(es[k], rels, rels[g])
}

proof fn all_rules_meant(
    m: Seq<GroupView>,
    n: usize,
    g: int,
    es: Seq<MemoExprView>,
    rels: Seq<RelationExprView>,
)
    requires
        meant(m, rels),
        0 <= g < m.len(),
        all_stand(es, g, rels),
    ensures
        meant(with_all_rules(m, n, g, es).0, rels),
    decreases es.len(),
{
    if es.len() > 0 {
        let f = es.drop_last();
        assert forall|k: int| 0 <= k < f.len() implies expr_ok(#[trigger] f[k], g) && stands_for(
            f[k],
            rels,
            rels[g],
        ) by {
            assert(f[k] == es[k]);
        }
        all_rules_meant(m, n, g, f, rels);
        let (o, k) = with_all_rules(m, n, g, f);
        assert(es.last() == es[es.len() - 1]);
        rules_meant(o, k, g, es.last(), rels);
    }
}

/// The rules keep what groups mean.
proof fn explored_meant(m: Seq<GroupView>, n: usize, g: int, rels: Seq<RelationExprView>)
    requires
        meant(m, rels),
        0 <= g < m.len(),
    ensures
        meant(explored(m, n, g).0, rels),
    decreases g, 2int, 0int,
{
    if !m[g].explored {
        let es = m[g].expressions;
        assert forall|k: int| 0 <= k < es.len() implies expr_ok(#[trigger] es[k], g) && stands_for(
            es[k],
            rels,
            rels[g],
        ) by {
            assert(stands_for(m[g].expressions[k], rels, rels[g]));
            assert(expr_ok(m[g].expressions[k], g));
        }
        below_meant(m, n, g, es, rels);
        let (o, k) = explored_below(m, n, g, es);
        all_rules_meant(o, k, g, es, rels);
        let p = with_all_rules(o, k, g, es).0;
        let q = p.update(g, GroupView { explored: true, ..p[g] });
        assert forall|h: int, k: int|
            0 <= h < q.len() && 0 <= k < q[h].expressions.len() implies stands_for(
            #[trigger] q[h].expressions[k],
            rels,
            rels[h],
        ) && expr_ok(q[h].expressions[k], h) by {
            assert(q[h].expressions == p[h].expressions);
            assert(stands_for(p[h].expressions[k], rels, rels[h]));
            assert(expr_ok(p[h].expressions[k], h));
        }
    }
}

proof fn below_meant(
    m: Seq<GroupView>,
    n: usize,
    g: int,
    es: Seq<MemoExprView>,
    rels: Seq<RelationExprView>,
)
    requires
        meant(m, rels),
        0 <= g < m.len(),
    ensures
        meant(explored_below(m, n, g, es).0, rels),
    decreases g, 1int, es.len(),
{
    if es.len() > 0 {
        below_meant(m, n, g, es.drop_last(), rels);
        let (o, k) = explored_below(m, n, g, es.drop_last());
        each_meant(o, k, g, es.last().children, rels);
    }
}

proof fn each_meant(
    m: Seq<GroupView>,
    n: usize,
    g: int,
    kids: Seq<usize>,
    rels: Seq<RelationExprView>,
)
    requires
        meant(m, rels),
        0 <= g < m.len(),
    ensures
        meant(explored_each(m, n, g, kids).0, rels),
    decreases g, 0int, kids.len(),
{
    if kids.len() > 0 {
        each_meant(m, n, g, kids.drop_last(), rels);
        let (o, k) = explored_each(m, n, g, kids.drop_last());
        if kids.last() < g {
            explored_meant(o, k, kids.last() as int, rels);
        }
    }
}

// -- The search ------------------------------------------------

/// Whether all plans that are known find the rows of their groups.
pub open spec fn as_meant(s: SearchView, rels: Seq<RelationExprView>) -> bool {
    forall|g: int, k: int|
        0 <= g < s.best.len() && 0 <= k < s.best[g].len() ==> match (
        #[trigger] s.best[g][k]).1 {
            Some(p) => answers(p, rels[g]),
            None => true,
        }
}

proof fn remembered_meant(
    known: Seq<(RequiredPropertiesView, Option<PhysicalPlanView>)>,
    req: RequiredPropertiesView,
    rel: RelationExprView,
)
    requires
        forall|k: int|
            0 <= k < known.len() ==> match (#[trigger] known[k]).1 {
                Some(p) => answers(p, rel),
                None => true,
            },
    ensures
        remembered(known, req) matches Some(Some(p)) ==> answers(p, rel),
    decreases known.len(),
{
    if known.len() > 0 {
        let f = known.drop_last();
        assert forall|k: int| 0 <= k < f.len() implies match (#[trigger] f[k]).1 {
            Some(p) => answers(p, rel),
            None => true,
        } by {
            assert(f[k] == known[k]);
        }
        remembered_meant(f, req, rel);
        assert(known.last() == known[known.len() - 1]);
    }
}

proof fn enforced_meant(
    r: Answers,
    cfg: OptimizerConfig,
    plan: PhysicalPlanView,
    req: RequiredPropertiesView,
    bound: u64,
    s: SearchView,
    rel: RelationExprView,
)
    requires
        answers(plan, rel),
    ensures
        enforced(r, cfg, plan, req, bound, s) matches Ok((p, t)) ==> t.best == s.best && (
        p matches Some(q) ==> answers(q, rel)),
{
}

/// The best plan of a group finds the rows of the group.
proof fn group_answers(
    r: Answers,
    cfg: OptimizerConfig,
    m: Seq<GroupView>,
    g: int,
    req: RequiredPropertiesView,
    bound: u64,
    s: SearchView,
    rels: Seq<RelationExprView>,
)
    requires
        meant(m, rels),
        0 <= g < m.len(),
        s.best.len() == m.len(),
        as_asked(s),
        as_meant(s, rels),
    ensures
        best_of_group(r, cfg, m, g, req, bound, s) matches Ok((p, t)) ==> {
            &&& as_asked(t)
            &&& as_meant(t, rels)
            &&& t.best.len() == m.len()
            &&& p matches Some(q) ==> answers(q, rels[g]) && satisfied(q.properties, req)
        },
    decreases g, 3int, 0int,
{
    group_as_asked(r, cfg, m, g, req, bound, s);
    let known = s.best[g];
    assert forall|k: int| 0 <= k < known.len() implies match (#[trigger] known[k]).1 {
        Some(p) => answers(p, rels[g]),
        None => true,
    } by {
        assert(s.best[g][k] == known[k]);
    }
    remembered_meant(known, req, rels[g]);
    if remembered(known, req) is None {
        let es = m[g].expressions;
        assert forall|k: int| 0 <= k < es.len() implies expr_ok(#[trigger] es[k], g) && stands_for(
            es[k],
            rels,
            rels[g],
        ) by {
            assert(stands_for(m[g].expressions[k], rels, rels[g]));
            assert(expr_ok(m[g].expressions[k], g));
        }
        all_answer(r, cfg, m, g, es, req, bound, s, rels);
        if let Ok(t) = best_of_all(r, cfg, m, g, es, req, bound, s) {
            let b = t.search.best;
            let c = b.update(g, b[g].push((req, t.plan)));
            assert forall|h: int, k: int| 0 <= h < c.len() && 0 <= k < c[h].len() implies match (
            #[trigger] c[h][k]).1 {
                Some(p) => answers(p, rels[h]),
                None => true,
            } by {
                if h != g {
                    assert(c[h] == b[h]);
                    assert(c[h][k] == b[h][k]);
                } else if k < b[g].len() {
                    assert(c[h][k] == b[h][k]);
                }
            }
        }
    }
}

proof fn all_answer(
    r: Answers,
    cfg: OptimizerConfig,
    m: Seq<GroupView>,
    g: int,
    es: Seq<MemoExprView>,
    req: RequiredPropertiesView,
    bound: u64,
    s: SearchView,
    rels: Seq<RelationExprView>,
)
    requires
        meant(m, rels),
        0 <= g < m.len(),
        s.best.len() == m.len(),
        as_asked(s),
        as_meant(s, rels),
        all_stand(es, g, rels),
    ensures
        best_of_all(r, cfg, m, g, es, req, bound, s) matches Ok(t) ==> {
            &&& as_asked(t.search)
            &&& as_meant(t.search, rels)
            &&& t.search.best.len() == m.len()
            &&& t.plan matches Some(q) ==> answers(q, rels[g])
        },
    decreases g, 2int, es.len(),
{
    if es.len() > 0 {
        let f = es.drop_last();
        assert forall|k: int| 0 <= k < f.len() implies expr_ok(#[trigger] f[k], g) && stands_for(
            f[k],
            rels,
            rels[g],
        ) by {
            assert(f[k] == es[k]);
        }
        all_answer(r, cfg, m, g, f, req, bound, s, rels);
        if let Ok(t) = best_of_all(r, cfg, m, g, f, req, bound, s) {
            let e = es.last();
            assert(e == es[es.len() - 1]);
            assert(best_of_all(r, cfg, m, g, es, req, bound, s) == one_try(
                r,
                cfg,
                m,
                g,
                e,
                req,
                t,
            ));
            if let Ok(least) = lower_bound_expr(r, cfg, m, g, e) {
                if !real_le(t.cost, least) {
                    expr_answers(r, cfg, m, g, e, req, t.cost, looked_at(t.search), rels);
                }
            }
        }
    }
}

proof fn both_answer(
    r: Answers,
    cfg: OptimizerConfig,
    m: Seq<GroupView>,
    g: int,
    a: int,
    b: int,
    req: RequiredPropertiesView,
    bound: u64,
    s: SearchView,
    rels: Seq<RelationExprView>,
)
    requires
        meant(m, rels),
        0 <= a < g < m.len(),
        0 <= b < g,
        s.best.len() == m.len(),
        as_asked(s),
        as_meant(s, rels),
    ensures
        best_of_both(r, cfg, m, g, a, b, req, bound, s) matches Ok((p, t)) ==> {
            &&& as_asked(t)
            &&& as_meant(t, rels)
            &&& t.best.len() == m.len()
            &&& p matches Some(q) ==> answers(q.0, rels[a]) && answers(q.1, rels[b])
        },
    decreases g, 0int, 0int,
{
    group_answers(r, cfg, m, a, req, bound, s, rels);
    if let Ok((p, t)) = best_of_group(r, cfg, m, a, req, bound, s) {
        if p is Some {
            group_answers(r, cfg, m, b, nothing_asked(), bound, t, rels);
        }
    }
}

/// Whether `rel` is a join of two relations, or one that can be turned around.
pub open spec fn is_join(
    rel: RelationExprView,
    a: RelationExprView,
    b: RelationExprView,
    join_type: JoinType,
    constraint: JoinConstraintView,
) -> bool {
    ||| rel == (RelationExprView::Join {
        left: Box::new(a),
        right: Box::new(b),
        join_type,
        constraint,
    })
    ||| turns(join_type) && rel == (RelationExprView::Join {
        left: Box::new(b),
        right: Box::new(a),
        join_type,
        constraint,
    })
}

/// A join of plans finds the rows of a join of what they find.
proof fn joined_answer(
    r: Answers,
    cfg: OptimizerConfig,
    hash: bool,
    join_type: JoinType,
    constraint: JoinConstraintView,
    left: PhysicalPlanView,
    right: PhysicalPlanView,
    a: RelationExprView,
    b: RelationExprView,
    rel: RelationExprView,
)
    requires
        answers(left, a),
        answers(right, b),
        is_join(rel, a, b, join_type, constraint),
    ensures
        pair_plan(r, cfg, hash, join_type, constraint, left, right) matches Ok(p) ==> answers(
            p,
            rel,
        ),
{
}

proof fn join_by_answers(
    r: Answers,
    cfg: OptimizerConfig,
    m: Seq<GroupView>,
    g: int,
    a: int,
    b: int,
    hash: bool,
    join_type: JoinType,
    constraint: JoinConstraintView,
    req: RequiredPropertiesView,
    bound: u64,
    s: SearchView,
    rels: Seq<RelationExprView>,
    rel: RelationExprView,
)
    requires
        meant(m, rels),
        0 <= a < g < m.len(),
        0 <= b < g,
        s.best.len() == m.len(),
        as_asked(s),
        as_meant(s, rels),
        is_join(rel, rels[a], rels[b], join_type, constraint),
    ensures
        join_by(r, cfg, m, g, a, b, hash, join_type, constraint, req, bound, s) matches Ok(
            (_, (p, t)),
        ) ==> {
            &&& as_asked(t)
            &&& as_meant(t, rels)
            &&& t.best.len() == m.len()
            &&& p matches Some(q) ==> answers(q, rel)
        },
    decreases g, 0int, 1int,
{
    let left_req = if hash {
        nothing_asked()
    } else {
        asked_of_left(join_type, req)
    };
    both_answer(r, cfg, m, g, a, b, left_req, bound, s, rels);
    if let Ok((Some((left, right)), t)) = best_of_both(r, cfg, m, g, a, b, left_req, bound, s) {
        joined_answer(
            r,
            cfg,
            hash,
            join_type,
            constraint,
            left,
            right,
            rels[a],
            rels[b],
            rel,
        );
        if let Ok(plan) = pair_plan(r, cfg, hash, join_type, constraint, left, right) {
            enforced_meant(r, cfg, plan, req, bound, t, rel);
        }
    }
}

proof fn join_answers(
    r: Answers,
    cfg: OptimizerConfig,
    m: Seq<GroupView>,
    g: int,
    a: int,
    b: int,
    join_type: JoinType,
    constraint: JoinConstraintView,
    req: RequiredPropertiesView,
    bound: u64,
    s: SearchView,
    rels: Seq<RelationExprView>,
    rel: RelationExprView,
)
    requires
        meant(m, rels),
        0 <= a < g < m.len(),
        0 <= b < g,
        s.best.len() == m.len(),
        as_asked(s),
        as_meant(s, rels),
        is_join(rel, rels[a], rels[b], join_type, constraint),
    ensures
        plan_of_join(r, cfg, m, g, a, b, join_type, constraint, req, bound, s) matches Ok(
            (p, t),
        ) ==> {
            &&& as_asked(t)
            &&& as_meant(t, rels)
            &&& t.best.len() == m.len()
            &&& p matches Some(q) ==> answers(q, rel)
        },
    decreases g, 0int, 2int,
{
    join_by_answers(r, cfg, m, g, a, b, false, join_type, constraint, req, bound, s, rels, rel);
    if let Ok((_, (looped, u))) = join_by(
        r,
        cfg,
        m,
        g,
        a,
        b,
        false,
        join_type,
        constraint,
        req,
        bound,
        s,
    ) {
        let cost = match looped {
            Some(p) => p.cost,
            None => bound,
        };
        join_by_answers(
            r,
            cfg,
            m,
            g,
            a,
            b,
            true,
            join_type,
            constraint,
            req,
            cost,
            u,
            rels,
            rel,
        );
    }
}

proof fn expr_answers(
    r: Answers,
    cfg: OptimizerConfig,
    m: Seq<GroupView>,
    g: int,
    e: MemoExprView,
    req: RequiredPropertiesView,
    bound: u64,
    s: SearchView,
    rels: Seq<RelationExprView>,
)
    requires
        meant(m, rels),
        0 <= g < m.len(),
        s.best.len() == m.len(),
        as_asked(s),
        as_meant(s, rels),
        expr_ok(e, g),
        stands_for(e, rels, rels[g]),
    ensures
        plan_of_expr(r, cfg, m, g, e, req, bound, s) matches Ok((p, t)) ==> {
            &&& as_asked(t)
            &&& as_meant(t, rels)
            &&& t.best.len() == m.len()
            &&& p matches Some(q) ==> answers(q, rels[g])
        },
    decreases g, 1int, 0int,
{
    let rel = rels[g];
    match e.op {
        LogicalOpView::OneRow => {
            let plan = crate::sql::optimize::one_row_plan();
            assert(answers(plan, rel));
            enforced_meant(r, cfg, plan, req, bound, s, rel);
        },
        LogicalOpView::TableScan { table, alias } => {
            if let Ok(plan) = crate::sql::optimize::scan_plan(r, cfg, table, alias) {
                assert(answers(plan, rel));
                enforced_meant(r, cfg, plan, req, bound, s, rel);
            }
        },
        LogicalOpView::Join { join_type, constraint } => {
            assert(e.children[0] < g && e.children[1] < g);
            join_answers(
                r,
                cfg,
                m,
                g,
                e.children[0] as int,
                e.children[1] as int,
                join_type,
                constraint,
                req,
                bound,
                s,
                rels,
                rel,
            );
        },
        _ => {
            let kid_req = asked_of_child(e.op, req);
            assert(e.children[0] < g);
            let kid = e.children[0] as int;
            group_answers(r, cfg, m, kid, kid_req, bound, s, rels);
            if let Ok((Some(child), t)) = best_of_group(r, cfg, m, kid, kid_req, bound, s) {
                if let Ok(plan) = plan_over(r, cfg, e.op, child) {
                    assert(answers(child, rels[kid]));
                    match e.op {
                        LogicalOpView::Selection { predicate } => {
                            assert(selects(predicate, rels[kid], rel));
                        },
                        _ => {},
                    }
                    assert(answers(plan, rel));
                    enforced_meant(r, cfg, plan, req, bound, t, rel);
                }
            }
        },
    }
}

/// The best plan of a relation finds the rows of the relation. Groups are counted
/// in machine words.
pub proof fn best_plan_answers(
    r: Answers,
    cfg: OptimizerConfig,
    rel: RelationExprView,
    req: RequiredPropertiesView,
    bound: u64,
)
    requires
        inserted(rel, seq![]).0.len() <= usize::MAX,
    ensures
        crate::sql::optimize::best_plan(r, cfg, rel, req, bound) matches Ok((Some(p), _))
            ==> answers(p, rel) && satisfied(p.properties, req),
{
    let none = Seq::<GroupView>::empty();
    let (m, root) = inserted(rel, none);
    let rels = inserted_rels(rel, seq![]);
    inserted_meant(rel, none, seq![]);
    explored_meant(m, 0, root as int, rels);
    let (n, rules) = explored(m, 0, root as int);
    let s = first_search(n.len(), rules);
    group_answers(r, cfg, n, root as int, req, bound, s, rels);
}

} // verus!
