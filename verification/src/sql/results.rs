//! The rows that a plan gives out.
use vstd::prelude::*;

use crate::engine::node::CellView;
use crate::engine::value::DataView;
use crate::sql::ast::{ExprView, JoinConstraintView, TableNameView};
use crate::sql::evaluation::{evaluated, field};
use crate::sql::plan::{PhysicalPlanNodeView, PhysicalPlanView};
use crate::sql::planner::{limit_of, peeled, plan_size, sink_size, SinkView, TableBindingView};
use crate::sql::program::{columns_named, only_column, ResolvedColumn, RowSourceView, ScopeView};
use crate::sql::reals::{OutcomeView, RealAnswers};
use crate::sql::relation::ProjectionItemView;
use crate::sql::values::{tested, truth, truthy, Test};

verus! {

/// Entries of tables, by the order of the tables.
pub open spec fn entry_of(cells: Seq<CellView>) -> spec_fn(usize) -> Option<CellView> {
    |id: usize|
        if id < cells.len() {
            Some(cells[id as int])
        } else {
            None
        }
}

/// The value of an expression on a row of each table.
pub open spec fn value_on(
    e: ExprView,
    env: Seq<RowSourceView>,
    cells: Seq<CellView>,
    r: RealAnswers,
) -> OutcomeView<DataView> {
    evaluated(e, ScopeView::Sources(env), entry_of(cells), r)
}

/// The first `n` fields of an entry.
pub open spec fn fields(c: CellView, n: nat) -> Seq<DataView> {
    Seq::new(n, |i: int| field(c, i))
}

/// All fields of all entries.
pub open spec fn all_fields(env: Seq<RowSourceView>, cells: Seq<CellView>) -> Seq<DataView>
    decreases env.len(),
{
    if env.len() == 0 {
        seq![]
    } else {
        all_fields(env.drop_last(), cells) + fields(
            cells[env.len() - 1],
            env.last().columns.len(),
        )
    }
}

/// The columns of a result.
pub open spec fn item_values(
    items: Seq<ProjectionItemView>,
    env: Seq<RowSourceView>,
    cells: Seq<CellView>,
    r: RealAnswers,
) -> Option<Seq<DataView>>
    decreases items.len(),
{
    if items.len() == 0 {
        Some(seq![])
    } else {
        match item_values(items.drop_last(), env, cells, r) {
            None => None,
            Some(v) => match items.last() {
                ProjectionItemView::Expr { expr, alias } => match value_on(expr, env, cells, r) {
                    OutcomeView::Got(x) => Some(v.push(x)),
                    _ => None,
                },
                ProjectionItemView::Wildcard => Some(v + all_fields(env, cells)),
            },
        }
    }
}

/// The row of a result; without items it holds all fields.
pub open spec fn row_of(
    items: Option<Seq<ProjectionItemView>>,
    env: Seq<RowSourceView>,
    cells: Seq<CellView>,
    r: RealAnswers,
) -> Option<Seq<DataView>> {
    match items {
        Some(items) => item_values(items, env, cells, r),
        None => Some(all_fields(env, cells)),
    }
}

/// Rows with one more, unless there are as many as a limit allows.
pub open spec fn given_out(
    items: Option<Seq<ProjectionItemView>>,
    env: Seq<RowSourceView>,
    cells: Seq<CellView>,
    limit: Option<usize>,
    r: RealAnswers,
    out: Seq<Seq<DataView>>,
) -> Seq<Seq<DataView>> {
    if limit is Some && out.len() >= limit->0 {
        out
    } else {
        match row_of(items, env, cells, r) {
            Some(row) => out.push(row),
            None => out,
        }
    }
}

/// Whether columns that are to be equal in both tables are; nothing where there are
/// none.
pub open spec fn equal_columns(
    columns: Seq<Seq<char>>,
    env: Seq<RowSourceView>,
    left: int,
    cells: Seq<CellView>,
    r: RealAnswers,
) -> Option<DataView>
    decreases columns.len(),
{
    if columns.len() == 0 {
        None
    } else {
        let name = columns.last();
        let kind = "USING column"@;
        let p = only_column(columns_named(env.subrange(0, left), None, name), kind, name)->Ok_0;
        let q = only_column(
            columns_named(env.subrange(left, env.len() as int), None, name),
            kind,
            name,
        )->Ok_0;
        let same = match tested(Test::Equal, field_at(cells, p), field_at(cells, q), r) {
            OutcomeView::Got(v) => v,
            _ => DataView::Null,
        };
        match equal_columns(columns.drop_last(), env, left, cells, r) {
            None => Some(same),
            Some(v) => Some(truth(truthy(v) && truthy(same))),
        }
    }
}

/// A field of the entry of a table.
pub open spec fn field_at(cells: Seq<CellView>, p: ResolvedColumn) -> DataView {
    field(cells[p.cursor_id as int], p.col_idx as int)
}

/// Whether rows belong together, as far as there is something to decide.
pub open spec fn belonging(
    constraint: JoinConstraintView,
    env: Seq<RowSourceView>,
    left: int,
    cells: Seq<CellView>,
    r: RealAnswers,
) -> Option<DataView> {
    match constraint {
        JoinConstraintView::Unconstrained => None,
        JoinConstraintView::On(e) => match value_on(e, env, cells, r) {
            OutcomeView::Got(v) => Some(v),
            _ => Some(DataView::Null),
        },
        JoinConstraintView::Using(columns) => equal_columns(columns, env, left, cells, r),
    }
}

/// What a database holds: the tables by their names, the rows by their roots, and
/// the reals that are known.
pub struct Source {
    pub cat: spec_fn(TableNameView) -> Option<TableBindingView>,
    pub db: spec_fn(u32) -> Seq<CellView>,
    pub reals: RealAnswers,
}

/// The rows that are out after `sink` has got a row of each table.
pub open spec fn fed(
    sink: SinkView,
    env: Seq<RowSourceView>,
    cells: Seq<CellView>,
    src: Source,
    out: Seq<Seq<DataView>>,
) -> Seq<Seq<DataView>>
    decreases sink_size(sink), 0int, 0int,
{
    match sink {
        SinkView::Row { items, limit } => given_out(items, env, cells, limit, src.reals, out),
        SinkView::Filter { predicate, next } => match value_on(predicate, env, cells, src.reals) {
            OutcomeView::Got(v) => if truthy(v) {
                fed(*next, env, cells, src, out)
            } else {
                out
            },
            _ => out,
        },
        SinkView::Also { items, next } => fed(
            *next,
            env,
            cells,
            src,
            given_out(Some(items), env, cells, None, src.reals, out),
        ),
        SinkView::Right { plan, constraint, next } => found_by(
            plan,
            env,
            cells,
            SinkView::Check { constraint, left: env.len() as usize, next },
            src,
            out,
        ),
        SinkView::Check { constraint, left, next } => match belonging(
            constraint,
            env,
            left as int,
            cells,
            src.reals,
        ) {
            None => fed(*next, env, cells, src, out),
            Some(v) => if truthy(v) {
                fed(*next, env, cells, src, out)
            } else {
                out
            },
        },
    }
}

/// The rows that are out after `sink` has got the first `n` rows of a table, one
/// after the other.
pub open spec fn scanned(
    es: Seq<CellView>,
    n: nat,
    env: Seq<RowSourceView>,
    cells: Seq<CellView>,
    sink: SinkView,
    src: Source,
    out: Seq<Seq<DataView>>,
) -> Seq<Seq<DataView>>
    decreases sink_size(sink), 1int, n,
{
    if n == 0 {
        out
    } else {
        fed(
            sink,
            env,
            cells.push(es[n - 1]),
            src,
            scanned(es, (n - 1) as nat, env, cells, sink, src, out),
        )
    }
}

/// A table that rows come from.
pub open spec fn source_of(
    table: TableNameView,
    alias: Option<Seq<char>>,
    b: TableBindingView,
    cursor_id: usize,
) -> RowSourceView {
    RowSourceView { table: table.name, alias, cursor_id, columns: b.columns }
}

/// The rows that are out after `sink` has got the rows of a plan.
pub open spec fn found_by(
    p: PhysicalPlanView,
    env: Seq<RowSourceView>,
    cells: Seq<CellView>,
    sink: SinkView,
    src: Source,
    out: Seq<Seq<DataView>>,
) -> Seq<Seq<DataView>>
    decreases plan_size(p) + sink_size(sink), 0int, 0int,
{
    match p.node {
        PhysicalPlanNodeView::OneRow => fed(sink, env, cells, src, out),
        PhysicalPlanNodeView::SeqScan { table, alias } => match (src.cat)(table) {
            None => out,
            Some(b) => {
                let es = (src.db)(b.root_pgno);
                scanned(
                    es,
                    es.len(),
                    env.push(source_of(table, alias, b, env.len() as usize)),
                    cells,
                    sink,
                    src,
                    out,
                )
            },
        },
        PhysicalPlanNodeView::Filter { predicate, input } => found_by(
            *input,
            env,
            cells,
            SinkView::Filter { predicate, next: Box::new(sink) },
            src,
            out,
        ),
        PhysicalPlanNodeView::Project { items, input } => found_by(
            *input,
            env,
            cells,
            SinkView::Also { items, next: Box::new(sink) },
            src,
            out,
        ),
        PhysicalPlanNodeView::NestedLoopJoin { join_type, constraint, left, right } => found_by(
            *left,
            env,
            cells,
            SinkView::Right { plan: *right, constraint, next: Box::new(sink) },
            src,
            out,
        ),
        PhysicalPlanNodeView::HashJoin { join_type, constraint, left, right } => found_by(
            *left,
            env,
            cells,
            SinkView::Right { plan: *right, constraint, next: Box::new(sink) },
            src,
            out,
        ),
        PhysicalPlanNodeView::Limit { count, input } => match limit_of(count) {
            Err(_) => out,
            Ok(n) => found_by(
                *input,
                env,
                cells,
                SinkView::Row { items: None, limit: Some(n) },
                src,
                out,
            ),
        },
        PhysicalPlanNodeView::Sort { items, input } => out,
    }
}

/// The rows that a plan gives out.
pub open spec fn plan_rows(p: PhysicalPlanView, src: Source) -> Seq<Seq<DataView>> {
    match peeled(p, None) {
        Err(_) => seq![],
        Ok((q, limit)) => match q.node {
            PhysicalPlanNodeView::Project { items, input } => found_by(
                *input,
                seq![],
                seq![],
                SinkView::Row { items: Some(items), limit },
                src,
                seq![],
            ),
            _ => found_by(q, seq![], seq![], SinkView::Row { items: None, limit }, src, seq![]),
        },
    }
}

} // verus!
