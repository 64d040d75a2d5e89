//! How programs of plans run.
use vstd::prelude::*;

use crate::sql::ast::{ExprView, JoinConstraintView, TableNameView};
use crate::sql::evaluation::code_longer;
use crate::sql::operations::{IfNot, IfResultsGe, OperationView, ResultRowView};
use crate::sql::plan::{PhysicalPlanNodeView, PhysicalPlanView};
use crate::sql::planner::{
    all_columns, constraint_code, grown_scan, items_code, limit_of, plan_size, row_code, rows_code,
    scan_start, sink_code, sink_size, SinkView, TableBindingView,
};
use crate::sql::program::{
    expr_code, grown, grown_guarded, grown_once, grown_twice, jumps_below, target_of, CodeView,
    RowSourceView, ScopeView,
};
use crate::sql::relation::ProjectionItemView;
use crate::sql::straight::{
    all_columns_longer, all_columns_straight, constraint_longer, constraint_straight, countable,
    expr_straight, items_longer, items_straight, straight,
};

verus! {

// -- Growth ----------------------------------------------------

/// Operations without jumps make a program grow.
proof fn straight_grows(c: CodeView, d: CodeView)
    requires
        straight(c, d),
    ensures
        grown(c, d),
{
    assert forall|i: int| c.ops.len() <= i < d.ops.len() implies jumps_below(
        #[trigger] d.ops[i],
        d.labels.len() as int,
    ) by {
        assert(target_of(d.ops[i]) is None);
    }
}

/// Giving a row out makes a program longer.
pub proof fn row_longer(
    items: Option<Seq<ProjectionItemView>>,
    env: Seq<RowSourceView>,
    limit: Option<usize>,
    c: CodeView,
)
    ensures
        row_code(items, env, limit, c) matches Ok(d) ==> c.ops.len() < d.ops.len()
            && c.labels.len() <= d.labels.len() && d.labels.len() + c.ops.len() <= d.ops.len()
            + c.labels.len(),
{
    let d = match limit {
        Some(limit) => c.label().emit(
            OperationView::IfResultsGe(IfResultsGe { limit, target: c.next_label() }),
        ),
        None => c,
    };
    match items {
        Some(items) => {
            items_longer(items, env, d);
            items_labels(items, env, d);
        },
        None => {
            all_columns_longer(env, d);
            all_columns_labels(env, d);
        },
    }
}

proof fn columns_labels(cursor_id: usize, n: nat, c: CodeView)
    ensures
        crate::sql::planner::columns_code(cursor_id, n, c).0.labels == c.labels,
    decreases n,
{
    if n > 0 {
        columns_labels(cursor_id, (n - 1) as nat, c);
    }
}

proof fn all_columns_labels(env: Seq<RowSourceView>, c: CodeView)
    ensures
        all_columns(env, c).0.labels == c.labels,
    decreases env.len(),
{
    if env.len() > 0 {
        all_columns_labels(env.drop_last(), c);
        columns_labels(
            env.last().cursor_id,
            env.last().columns.len(),
            all_columns(env.drop_last(), c).0,
        );
    }
}

proof fn expr_labels(e: ExprView, sc: ScopeView, c: CodeView)
    ensures
        expr_code(e, sc, c) matches Ok(x) ==> x.0.labels == c.labels,
    decreases e,
{
    match e {
        ExprView::Unary { op, expr } => {
            expr_labels(*expr, sc, c);
        },
        ExprView::Binary { left, op, right } => {
            expr_labels(*left, sc, c);
            if expr_code(*left, sc, c) is Ok {
                expr_labels(*right, sc, expr_code(*left, sc, c)->Ok_0.0);
            }
        },
        _ => {},
    }
}

proof fn items_labels(items: Seq<ProjectionItemView>, env: Seq<RowSourceView>, c: CodeView)
    ensures
        items_code(items, env, c) matches Ok(x) ==> x.0.labels == c.labels,
    decreases items.len(),
{
    if items.len() > 0 {
        items_labels(items.drop_last(), env, c);
        if let Ok((d, regs)) = items_code(items.drop_last(), env, c) {
            match items.last() {
                ProjectionItemView::Expr { expr, alias } => {
                    expr_labels(expr, ScopeView::Sources(env), d);
                },
                ProjectionItemView::Wildcard => {
                    all_columns_labels(env, d);
                },
            }
        }
    }
}

proof fn using_labels(columns: Seq<Seq<char>>, env: Seq<RowSourceView>, left: int, c: CodeView)
    ensures
        crate::sql::planner::using_code(columns, env, left, c) matches Ok(x) ==> x.0.labels
            == c.labels,
    decreases columns.len(),
{
    if columns.len() > 0 {
        using_labels(columns.drop_last(), env, left, c);
    }
}

proof fn constraint_labels(
    constraint: JoinConstraintView,
    env: Seq<RowSourceView>,
    left: int,
    c: CodeView,
)
    ensures
        constraint_code(constraint, env, left, c) matches Ok(x) ==> x.0.labels == c.labels,
{
    match constraint {
        JoinConstraintView::Unconstrained => {},
        JoinConstraintView::On(e) => {
            expr_labels(e, ScopeView::Sources(env), c);
        },
        JoinConstraintView::Using(columns) => {
            using_labels(columns, env, left, c);
        },
    }
}

/// Finding rows makes a program longer.
pub proof fn rows_longer(
    p: PhysicalPlanView,
    env: Seq<RowSourceView>,
    sink: SinkView,
    cat: spec_fn(TableNameView) -> Option<TableBindingView>,
    c: CodeView,
)
    ensures
        rows_code(p, env, sink, cat, c) matches Ok(d) ==> c.ops.len() <= d.ops.len()
            && c.labels.len() <= d.labels.len() && d.labels.len() + c.ops.len() <= d.ops.len()
            + c.labels.len(),
    decreases plan_size(p) + sink_size(sink),
{
    match p.node {
        PhysicalPlanNodeView::OneRow => {
            sink_longer(env, sink, cat, c);
        },
        PhysicalPlanNodeView::SeqScan { table, alias } => {
            if let Some(b) = cat(table) {
                let inner = env.push(
                    RowSourceView {
                        table: table.name,
                        alias,
                        cursor_id: c.cursors,
                        columns: b.columns,
                    },
                );
                sink_longer(inner, sink, cat, scan_start(b.root_pgno, c));
            }
        },
        PhysicalPlanNodeView::Filter { predicate, input } => {
            rows_longer(
                *input,
                env,
                SinkView::Filter { predicate, next: Box::new(sink) },
                cat,
                c,
            );
        },
        PhysicalPlanNodeView::Project { items, input } => {
            rows_longer(*input, env, SinkView::Also { items, next: Box::new(sink) }, cat, c);
        },
        PhysicalPlanNodeView::NestedLoopJoin { join_type, constraint, left, right } => {
            rows_longer(
                *left,
                env,
                SinkView::Right { plan: *right, constraint, next: Box::new(sink) },
                cat,
                c,
            );
        },
        PhysicalPlanNodeView::HashJoin { join_type, constraint, left, right } => {
            rows_longer(
                *left,
                env,
                SinkView::Right { plan: *right, constraint, next: Box::new(sink) },
                cat,
                c,
            );
        },
        PhysicalPlanNodeView::Limit { count, input } => {
            if let Ok(n) = limit_of(count) {
                rows_longer(*input, env, SinkView::Row { items: None, limit: Some(n) }, cat, c);
            }
        },
        PhysicalPlanNodeView::Sort { items, input } => {},
    }
}

/// Feeding a row on makes a program longer.
pub proof fn sink_longer(
    env: Seq<RowSourceView>,
    sink: SinkView,
    cat: spec_fn(TableNameView) -> Option<TableBindingView>,
    c: CodeView,
)
    ensures
        sink_code(env, sink, cat, c) matches Ok(d) ==> c.ops.len() <= d.ops.len() && c.labels.len()
            <= d.labels.len() && d.labels.len() + c.ops.len() <= d.ops.len() + c.labels.len(),
    decreases sink_size(sink),
{
    match sink {
        SinkView::Row { items, limit } => {
            row_longer(items, env, limit, c);
        },
        SinkView::Filter { predicate, next } => {
            let sc = ScopeView::Sources(env);
            code_longer(predicate, sc, c);
            expr_labels(predicate, sc, c);
            if let Ok((d, cond_reg)) = expr_code(predicate, sc, c) {
                let f = d.label().emit(
                    OperationView::IfNot(IfNot { cond_reg, target: d.next_label() }),
                );
                sink_longer(env, *next, cat, f);
            }
        },
        SinkView::Also { items, next } => {
            row_longer(Some(items), env, None, c);
            if let Ok(d) = row_code(Some(items), env, None, c) {
                sink_longer(env, *next, cat, d);
            }
        },
        SinkView::Right { plan, constraint, next } => {
            rows_longer(
                plan,
                env,
                SinkView::Check { constraint, left: env.len() as usize, next },
                cat,
                c,
            );
        },
        SinkView::Check { constraint, left, next } => {
            constraint_longer(constraint, env, left as int, c);
            constraint_labels(constraint, env, left as int, c);
            match constraint_code(constraint, env, left as int, c) {
                Err(_) => {},
                Ok((d, None)) => {
                    sink_longer(env, *next, cat, d);
                },
                Ok((d, Some(cond_reg))) => {
                    let f = d.label().emit(
                        OperationView::IfNot(IfNot { cond_reg, target: d.next_label() }),
                    );
                    sink_longer(env, *next, cat, f);
                },
            }
        },
    }
}

/// Whether operations and labels of a program can be counted.
pub open spec fn small(d: CodeView) -> bool {
    d.ops.len() <= usize::MAX && d.labels.len() <= usize::MAX
}

/// Giving a row out makes a program grow.
pub proof fn row_grows(
    items: Option<Seq<ProjectionItemView>>,
    env: Seq<RowSourceView>,
    limit: Option<usize>,
    c: CodeView,
)
    requires
        countable(c),
        row_code(items, env, limit, c) matches Ok(d) && small(d),
    ensures
        grown(c, row_code(items, env, limit, c)->Ok_0),
        countable(row_code(items, env, limit, c)->Ok_0),
{
    let end = row_code(items, env, limit, c)->Ok_0;
    row_longer(items, env, limit, c);
    let d = match limit {
        Some(limit) => c.label().emit(
            OperationView::IfResultsGe(IfResultsGe { limit, target: c.next_label() }),
        ),
        None => c,
    };
    let (f, fields) = match items {
        Some(items) => items_code(items, env, d)->Ok_0,
        None => all_columns(env, d),
    };
    match items {
        Some(items) => {
            items_longer(items, env, d);
            items_straight(items, env, d);
        },
        None => {
            all_columns_longer(env, d);
            all_columns_straight(env, d);
        },
    }
    straight_grows(d, f);
    let row = OperationView::ResultRow(ResultRowView { fields });
    grown_once(f, row);
    grown_twice(d, f, f.emit(row));
    if let Some(n) = limit {
        grown_guarded(
            c,
            OperationView::IfResultsGe(IfResultsGe { limit: n, target: c.next_label() }),
            f.emit(row),
        );
    }
}

/// Finding rows makes a program grow.
pub proof fn rows_grow(
    p: PhysicalPlanView,
    env: Seq<RowSourceView>,
    sink: SinkView,
    cat: spec_fn(TableNameView) -> Option<TableBindingView>,
    c: CodeView,
)
    requires
        countable(c),
        rows_code(p, env, sink, cat, c) matches Ok(d) && small(d),
    ensures
        grown(c, rows_code(p, env, sink, cat, c)->Ok_0),
        countable(rows_code(p, env, sink, cat, c)->Ok_0),
    decreases plan_size(p) + sink_size(sink),
{
    match p.node {
        PhysicalPlanNodeView::OneRow => {
            sink_grows(env, sink, cat, c);
        },
        PhysicalPlanNodeView::SeqScan { table, alias } => {
            let b = cat(table)->0;
            let inner = env.push(
                RowSourceView {
                    table: table.name,
                    alias,
                    cursor_id: c.cursors,
                    columns: b.columns,
                },
            );
            let s = scan_start(b.root_pgno, c);
            sink_longer(inner, sink, cat, s);
            let d = sink_code(inner, sink, cat, s)->Ok_0;
            let e = rows_code(p, env, sink, cat, c)->Ok_0;
            assert(e.ops.len() == d.ops.len() + 4);
            assert(e.labels.len() == d.labels.len());
            assert(s.ops.len() == c.ops.len() + 3);
            assert(s.labels.len() == c.labels.len() + 2);
            sink_grows(inner, sink, cat, s);
            grown_scan(b.root_pgno, c, d);
        },
        PhysicalPlanNodeView::Filter { predicate, input } => {
            rows_grow(*input, env, SinkView::Filter { predicate, next: Box::new(sink) }, cat, c);
        },
        PhysicalPlanNodeView::Project { items, input } => {
            rows_grow(*input, env, SinkView::Also { items, next: Box::new(sink) }, cat, c);
        },
        PhysicalPlanNodeView::NestedLoopJoin { join_type, constraint, left, right } => {
            rows_grow(
                *left,
                env,
                SinkView::Right { plan: *right, constraint, next: Box::new(sink) },
                cat,
                c,
            );
        },
        PhysicalPlanNodeView::HashJoin { join_type, constraint, left, right } => {
            rows_grow(
                *left,
                env,
                SinkView::Right { plan: *right, constraint, next: Box::new(sink) },
                cat,
                c,
            );
        },
        PhysicalPlanNodeView::Limit { count, input } => {
            let n = limit_of(count)->Ok_0;
            rows_grow(*input, env, SinkView::Row { items: None, limit: Some(n) }, cat, c);
        },
        PhysicalPlanNodeView::Sort { items, input } => {},
    }
}

/// Feeding a row on makes a program grow.
pub proof fn sink_grows(
    env: Seq<RowSourceView>,
    sink: SinkView,
    cat: spec_fn(TableNameView) -> Option<TableBindingView>,
    c: CodeView,
)
    requires
        countable(c),
        sink_code(env, sink, cat, c) matches Ok(d) && small(d),
    ensures
        grown(c, sink_code(env, sink, cat, c)->Ok_0),
        countable(sink_code(env, sink, cat, c)->Ok_0),
    decreases sink_size(sink),
{
    let end = sink_code(env, sink, cat, c)->Ok_0;
    match sink {
        SinkView::Row { items, limit } => {
            row_grows(items, env, limit, c);
        },
        SinkView::Filter { predicate, next } => {
            let sc = ScopeView::Sources(env);
            let (d, cond_reg) = expr_code(predicate, sc, c)->Ok_0;
            guard_grows(env, *next, cat, c, d, cond_reg);
            code_longer(predicate, sc, c);
            expr_straight(predicate, sc, c);
            straight_grows(c, d);
            sink_grows(env, *next, cat, guard(d, cond_reg));
            after_guard(d, cond_reg, end, sink_code(env, *next, cat, guard(d, cond_reg))->Ok_0);
            grown_twice(c, d, end);
        },
        SinkView::Also { items, next } => {
            row_longer(Some(items), env, None, c);
            let d = row_code(Some(items), env, None, c)->Ok_0;
            sink_longer(env, *next, cat, d);
            row_grows(Some(items), env, None, c);
            sink_grows(env, *next, cat, d);
            grown_twice(c, d, end);
        },
        SinkView::Right { plan, constraint, next } => {
            rows_grow(
                plan,
                env,
                SinkView::Check { constraint, left: env.len() as usize, next },
                cat,
                c,
            );
        },
        SinkView::Check { constraint, left, next } => {
            constraint_longer(constraint, env, left as int, c);
            let (d, cond) = constraint_code(constraint, env, left as int, c)->Ok_0;
            match cond {
                None => {
                    sink_longer(env, *next, cat, d);
                    constraint_straight(constraint, env, left as int, c);
                    straight_grows(c, d);
                    sink_grows(env, *next, cat, d);
                    grown_twice(c, d, end);
                },
                Some(cond_reg) => {
                    guard_grows(env, *next, cat, c, d, cond_reg);
                    constraint_straight(constraint, env, left as int, c);
                    straight_grows(c, d);
                    sink_grows(env, *next, cat, guard(d, cond_reg));
                    after_guard(
                        d,
                        cond_reg,
                        end,
                        sink_code(env, *next, cat, guard(d, cond_reg))->Ok_0,
                    );
                    grown_twice(c, d, end);
                },
            }
        },
    }
}

/// A program with a jump over what follows, to a new label.
pub open spec fn guard(d: CodeView, cond_reg: usize) -> CodeView {
    d.label().emit(OperationView::IfNot(IfNot { cond_reg, target: d.next_label() }))
}

proof fn guard_grows(
    env: Seq<RowSourceView>,
    next: SinkView,
    cat: spec_fn(TableNameView) -> Option<TableBindingView>,
    c: CodeView,
    d: CodeView,
    cond_reg: usize,
)
    requires
        sink_code(env, next, cat, guard(d, cond_reg)) matches Ok(g) && small(g),
    ensures
        d.ops.len() < sink_code(env, next, cat, guard(d, cond_reg))->Ok_0.ops.len(),
        d.labels.len() < sink_code(env, next, cat, guard(d, cond_reg))->Ok_0.labels.len(),
        guard(d, cond_reg).ops.len() == d.ops.len() + 1,
{
    sink_longer(env, next, cat, guard(d, cond_reg));
}

proof fn after_guard(d: CodeView, cond_reg: usize, end: CodeView, g: CodeView)
    requires
        grown(guard(d, cond_reg), g),
        small(g),
        d.labels.len() < usize::MAX,
        end == g.mark(d.next_label()),
    ensures
        grown(d, end),
{
    grown_guarded(d, OperationView::IfNot(IfNot { cond_reg, target: d.next_label() }), g);
}

} // verus!
