//! The rows that a query gives out, told from its statement.
//!
//! A query goes over all combinations of a row of each of its tables. One that all its
//! conditions hold of gives out a row, as long as the limit is not reached. The tables
//! may be taken in another order than the one they are named in; the condition of a
//! join is decided once both its sides are there.
use vstd::prelude::*;

use crate::engine::node::CellView;
use crate::engine::value::DataView;
use crate::sql::ast::{
    BinaryOp, ExprView, JoinConstraintView, LiteralView, SelectItemKindView, SelectItemView, SelectStmtView,
    TableNameView, TableRefView,
};
use crate::sql::codegen::select_program;
use crate::sql::evaluation::{field, operator_value};
use crate::sql::memo::inserted;
use crate::sql::optimize::usual_plan;
use crate::sql::plan::{PhysicalPlanNodeView, PhysicalPlanView};
use crate::sql::planner::{limit_of, peeled, rows_code, sink_code, SinkView};
use crate::sql::program::{columns_named, only_column, CodeView, RowSourceView};
use crate::sql::reals::{Answers, OutcomeView};
use crate::sql::relation::{lower_items, lower_joins, lower_select, lower_table, RelationExprView};
use crate::sql::results::{
    all_fields, belonging, equal_columns, fed, fields, found_by, given_out, item_values, scanned,
    source_of, value_on, Source,
};
use crate::sql::running::{at_start, goes, knows, plan_gives_rows};
use crate::sql::soundness::{answers, best_plan_answers, between, selects};
use crate::sql::values::{truth, truthy};
use crate::sql::vm::VMInstance;

verus! {

// -- What a query asks -----------------------------------------

/// A table of a query and its alias.
pub type Named = (TableNameView, Option<Seq<char>>);

/// The tables of a query in the order in which they are named.
pub open spec fn named_tables(t: TableRefView) -> Seq<Named> {
    Seq::new(
        t.joins.len() + 1,
        |i: int|
            if i == 0 {
                (t.name, t.alias)
            } else {
                (t.joins[i - 1].table.name, t.joins[i - 1].table.alias)
            },
    )
}

/// Whether no table that is joined has tables joined to itself; text has no way to say
/// so.
pub open spec fn joined_in_a_row(t: TableRefView) -> bool {
    forall|k: int| 0 <= k < t.joins.len() ==> (#[trigger] t.joins[k]).table.joins.len() == 0
}

/// The rows of a table.
pub open spec fn rows_of(n: Named, src: Source) -> Seq<CellView> {
    (src.db)((src.cat)(n.0)->0.root_pgno)
}

/// Tables as what columns are looked up in.
pub open spec fn scope_of(l: Seq<Named>, src: Source) -> Seq<RowSourceView> {
    Seq::new(
        l.len(),
        |i: int|
            RowSourceView {
                table: l[i].0.name,
                alias: l[i].1,
                cursor_id: i as usize,
                columns: (src.cat)(l[i].0)->0.columns,
            },
    )
}

/// All combinations of a row of each table; the row of the last table changes fastest.
pub open spec fn combinations(l: Seq<Seq<CellView>>) -> Seq<Seq<CellView>>
    decreases l.len(),
{
    if l.len() == 0 {
        seq![seq![]]
    } else {
        each_with_each(
            combinations(l.drop_last()),
            Seq::new(l.last().len(), |i: int| seq![l.last()[i]]),
        )
    }
}

/// Every one of the first joined with every one of the second.
pub open spec fn each_with_each(a: Seq<Seq<CellView>>, b: Seq<Seq<CellView>>) -> Seq<Seq<CellView>>
    decreases a.len(),
{
    if a.len() == 0 {
        seq![]
    } else {
        each_with_each(a.drop_last(), b) + with_first(a.last(), b)
    }
}

/// The same in front of each.
pub open spec fn with_first(x: Seq<CellView>, b: Seq<Seq<CellView>>) -> Seq<Seq<CellView>> {
    Seq::new(b.len(), |i: int| x + b[i])
}

/// An order of the tables of a query, and for each join how many tables are there when it
/// is decided and how many of them are on its left.
pub struct Arrangement {
    pub order: Seq<int>,
    pub scopes: Seq<(int, int)>,
}

/// Whether a table is among those from place `lo` up to place `hi`.
pub open spec fn side_has(order: Seq<int>, lo: int, hi: int, table: int) -> bool {
    exists|i: int| lo <= i < hi && #[trigger] order[i] == table
}

/// Whether the join of table `k + 1` to those before it is decided where they are: all
/// tables before it on one side, and it on the other.
pub open spec fn decided_where(order: Seq<int>, k: int, n: int, left: int) -> bool {
    &&& 0 <= left <= n <= order.len()
    &&& ((forall|j: int| 0 <= j <= k ==> #[trigger] side_has(order, 0, left, j)) && side_has(
        order,
        left,
        n,
        k + 1,
    )) || ((forall|j: int| 0 <= j <= k ==> #[trigger] side_has(order, left, n, j)) && side_has(
        order,
        0,
        left,
        k + 1,
    ))
}

impl Arrangement {
    /// Whether every table has its place, and every join is decided where its tables are.
    pub open spec fn fits(self, t: TableRefView) -> bool {
        &&& self.order.len() == t.joins.len() + 1
        &&& self.order.no_duplicates()
        &&& forall|i: int|
            0 <= i < self.order.len() ==> 0 <= #[trigger] self.order[i] <= t.joins.len()
        &&& self.scopes.len() == t.joins.len()
        &&& forall|k: int|
            0 <= k < self.scopes.len() ==> decided_where(
                self.order,
                k,
                (#[trigger] self.scopes[k]).0,
                self.scopes[k].1,
            )
    }

    /// The tables in this order.
    pub open spec fn tables(self, t: TableRefView) -> Seq<Named> {
        Seq::new(self.order.len(), |i: int| named_tables(t)[self.order[i]])
    }
}

/// Whether a column of both sides of a join holds the same in both.
pub open spec fn alike(
    name: Seq<char>,
    env: Seq<RowSourceView>,
    left: int,
    cells: Seq<CellView>,
    src: Source,
) -> bool {
    let kind = "USING column"@;
    let p = only_column(columns_named(env.subrange(0, left), None, name), kind, name)->Ok_0;
    let q = only_column(
        columns_named(env.subrange(left, env.len() as int), None, name),
        kind,
        name,
    )->Ok_0;
    operator_value(
        BinaryOp::Eq,
        field(cells[p.cursor_id as int], p.col_idx as int),
        field(cells[q.cursor_id as int], q.col_idx as int),
        src.reals,
    ) == OutcomeView::Got(truth(true))
}

/// Whether rows of both sides of a join belong together: the condition holds of them, or
/// all columns that are to be the same in both are.
pub open spec fn belong(
    c: JoinConstraintView,
    env: Seq<RowSourceView>,
    n: int,
    left: int,
    cells: Seq<CellView>,
    src: Source,
) -> bool {
    match c {
        JoinConstraintView::Unconstrained => true,
        JoinConstraintView::On(e) => holds(e, env.take(n), cells.take(n), src),
        JoinConstraintView::Using(names) => forall|k: int|
            0 <= k < names.len() ==> alike(#[trigger] names[k], env.take(n), left, cells.take(n), src),
    }
}

/// Whether a condition holds.
pub open spec fn holds(
    e: ExprView,
    env: Seq<RowSourceView>,
    cells: Seq<CellView>,
    src: Source,
) -> bool {
    value_on(e, env, cells, src.reals) matches OutcomeView::Got(v) && truthy(v)
}

/// Whether all conditions of a query hold of a row of each of its tables: those of the
/// joins, and the one behind WHERE.
pub open spec fn wanted(
    s: SelectStmtView,
    a: Arrangement,
    env: Seq<RowSourceView>,
    cells: Seq<CellView>,
    src: Source,
) -> bool {
    &&& s.where_clause matches Some(e) ==> holds(e, env, cells, src)
    &&& s.from matches Some(t) ==> forall|k: int|
        0 <= k < t.joins.len() ==> belong(
            (#[trigger] t.joins[k]).constraint,
            env,
            a.scopes[k].0,
            a.scopes[k].1,
            cells,
            src,
        )
}

/// All columns of the first `n` tables, one table behind the other.
pub open spec fn every_field(
    env: Seq<RowSourceView>,
    cells: Seq<CellView>,
    n: nat,
) -> Seq<DataView>
    decreases n,
{
    if n == 0 {
        seq![]
    } else {
        every_field(env, cells, (n - 1) as nat) + Seq::new(
            env[n - 1].columns.len(),
            |i: int| field(cells[n - 1], i),
        )
    }
}

/// The columns of a result, one behind the other.
pub open spec fn shown_row(
    items: Seq<SelectItemView>,
    env: Seq<RowSourceView>,
    cells: Seq<CellView>,
    src: Source,
) -> Option<Seq<DataView>>
    decreases items.len(),
{
    if items.len() == 0 {
        Some(seq![])
    } else {
        match shown_row(items.drop_last(), env, cells, src) {
            None => None,
            Some(v) => match items.last().kind {
                SelectItemKindView::Wildcard => Some(v + every_field(env, cells, env.len())),
                SelectItemKindView::Expr(e) => match value_on(e, env, cells, src.reals) {
                    OutcomeView::Got(x) => Some(v.push(x)),
                    _ => None,
                },
            },
        }
    }
}

/// Whether a query may give out one more row.
pub open spec fn has_room(s: SelectStmtView, n: nat) -> bool {
    match s.limit {
        Some(ExprView::Literal(LiteralView::Integer(m))) => n < m,
        _ => true,
    }
}

/// The rows that a query gives out of combinations, one after the other.
pub open spec fn rows_among(
    s: SelectStmtView,
    a: Arrangement,
    env: Seq<RowSourceView>,
    cs: Seq<Seq<CellView>>,
    src: Source,
) -> Seq<Seq<DataView>>
    decreases cs.len(),
{
    if cs.len() == 0 {
        seq![]
    } else {
        let out = rows_among(s, a, env, cs.drop_last(), src);
        match shown_row(s.projection, env, cs.last(), src) {
            Some(row) => if wanted(s, a, env, cs.last(), src) && has_room(s, out.len()) {
                out.push(row)
            } else {
                out
            },
            None => out,
        }
    }
}

/// The tables of a query in an arrangement.
pub open spec fn tables_in(s: SelectStmtView, a: Arrangement) -> Seq<Named> {
    match s.from {
        Some(t) => a.tables(t),
        None => seq![],
    }
}

/// The rows that a query gives out.
pub open spec fn query_rows(s: SelectStmtView, a: Arrangement, src: Source) -> Seq<Seq<DataView>> {
    let l = tables_in(s, a);
    rows_among(
        s,
        a,
        scope_of(l, src),
        combinations(Seq::new(l.len(), |i: int| rows_of(l[i], src))),
        src,
    )
}

/// Whether an arrangement is one of the tables of a query.
pub open spec fn arranges(a: Arrangement, s: SelectStmtView) -> bool {
    s.from matches Some(t) ==> a.fits(t)
}

/// Whether all tables of a query are known.
pub open spec fn tables_known(s: SelectStmtView, src: Source) -> bool {
    s.from matches Some(t) ==> forall|k: int|
        0 <= k < named_tables(t).len() ==> (src.cat)((#[trigger] named_tables(t)[k]).0) is Some
}

// -- What a plan does ------------------------------------------

/// Whether what decides on rows of both sides of a join lets them pass.
spec fn let_through(
    c: JoinConstraintView,
    env: Seq<RowSourceView>,
    n: int,
    left: int,
    cells: Seq<CellView>,
    src: Source,
) -> bool {
    match belonging(c, env.take(n), left, cells.take(n), src.reals) {
        None => true,
        Some(v) => truthy(v),
    }
}

proof fn columns_alike(
    names: Seq<Seq<char>>,
    env: Seq<RowSourceView>,
    left: int,
    cells: Seq<CellView>,
    src: Source,
)
    ensures
        match equal_columns(names, env, left, cells, src.reals) {
            None => names.len() == 0,
            Some(v) => truthy(v) == forall|k: int|
                0 <= k < names.len() ==> alike(#[trigger] names[k], env, left, cells, src),
        },
    decreases names.len(),
{
    if names.len() > 0 {
        let d = names.drop_last();
        let all = forall|k: int|
            0 <= k < names.len() ==> alike(#[trigger] names[k], env, left, cells, src);
        let most = forall|k: int|
            0 <= k < d.len() ==> alike(#[trigger] d[k], env, left, cells, src);
        columns_alike(d, env, left, cells, src);
        assert(names[names.len() - 1] == names.last());
        let last = alike(names.last(), env, left, cells, src);
        assert(all == (most && last)) by {
            if all {
                assert forall|k: int| 0 <= k < d.len() implies alike(
                    #[trigger] d[k],
                    env,
                    left,
                    cells,
                    src,
                ) by {
                    assert(d[k] == names[k]);
                }
                assert(alike(names[names.len() - 1], env, left, cells, src));
            }
            if most && last {
                assert forall|k: int| 0 <= k < names.len() implies alike(
                    #[trigger] names[k],
                    env,
                    left,
                    cells,
                    src,
                ) by {
                    if k < d.len() {
                        assert(d[k] == names[k]);
                    }
                }
            }
        }
    }
}

/// What lets rows pass is that they belong together.
proof fn passing_belong(
    c: JoinConstraintView,
    env: Seq<RowSourceView>,
    n: int,
    left: int,
    cells: Seq<CellView>,
    src: Source,
)
    ensures
        let_through(c, env, n, left, cells, src) == belong(c, env, n, left, cells, src),
{
    match c {
        JoinConstraintView::Using(names) => {
            columns_alike(names, env.take(n), left, cells.take(n), src);
        },
        _ => {},
    }
}

proof fn every_field_is(env: Seq<RowSourceView>, cells: Seq<CellView>, n: nat)
    requires
        n <= env.len(),
    ensures
        every_field(env, cells, n) == all_fields(env.take(n as int), cells),
    decreases n,
{
    let t = env.take(n as int);
    if n > 0 {
        every_field_is(env, cells, (n - 1) as nat);
        assert(t.drop_last() =~= env.take(n - 1));
        assert(t.last() == env[n - 1]);
        assert(Seq::new(env[n - 1].columns.len(), |i: int| field(cells[n - 1], i)) =~= fields(
            cells[n - 1],
            env[n - 1].columns.len(),
        ));
    }
}

/// The tables of a plan that joins tables, in the order in which they are read.
spec fn scans(p: PhysicalPlanView) -> Seq<Named>
    decreases p,
{
    match p.node {
        PhysicalPlanNodeView::SeqScan { table, alias } => seq![(table, alias)],
        PhysicalPlanNodeView::NestedLoopJoin { join_type, constraint, left, right } => scans(*left)
            + scans(*right),
        PhysicalPlanNodeView::HashJoin { join_type, constraint, left, right } => scans(*left)
            + scans(*right),
        _ => seq![],
    }
}

/// Whether a plan joins tables that are known, and does nothing else.
spec fn only_joins(p: PhysicalPlanView, src: Source) -> bool
    decreases p,
{
    match p.node {
        PhysicalPlanNodeView::SeqScan { table, alias } => (src.cat)(table) is Some,
        PhysicalPlanNodeView::NestedLoopJoin { join_type, constraint, left, right } => only_joins(
            *left,
            src,
        ) && only_joins(*right, src),
        PhysicalPlanNodeView::HashJoin { join_type, constraint, left, right } => only_joins(
            *left,
            src,
        ) && only_joins(*right, src),
        _ => false,
    }
}

/// Whether the conditions of all joins of a plan hold, whose tables start at place `off`.
spec fn passes(
    p: PhysicalPlanView,
    env: Seq<RowSourceView>,
    off: int,
    cells: Seq<CellView>,
    src: Source,
) -> bool
    decreases p,
{
    match p.node {
        PhysicalPlanNodeView::NestedLoopJoin { join_type, constraint, left, right } => {
            let mid = off + scans(*left).len();
            &&& passes(*left, env, off, cells, src)
            &&& passes(*right, env, mid, cells, src)
            &&& let_through(constraint, env, mid + scans(*right).len(), mid, cells, src)
        },
        PhysicalPlanNodeView::HashJoin { join_type, constraint, left, right } => {
            let mid = off + scans(*left).len();
            &&& passes(*left, env, off, cells, src)
            &&& passes(*right, env, mid, cells, src)
            &&& let_through(constraint, env, mid + scans(*right).len(), mid, cells, src)
        },
        _ => true,
    }
}

/// Tables from place `off` on.
spec fn scope_from(l: Seq<Named>, off: int, src: Source) -> Seq<RowSourceView> {
    Seq::new(l.len(), |i: int| source_of(l[i].0, l[i].1, (src.cat)(l[i].0)->0, (off + i) as usize))
}

/// The combinations of the rows of tables.
spec fn choices(l: Seq<Named>, src: Source) -> Seq<Seq<CellView>> {
    combinations(Seq::new(l.len(), |i: int| rows_of(l[i], src)))
}

/// The rows that are out once `sink` has got those combinations that a plan lets pass.
spec fn poured(
    cs: Seq<Seq<CellView>>,
    p: PhysicalPlanView,
    env: Seq<RowSourceView>,
    off: int,
    cells: Seq<CellView>,
    sink: SinkView,
    src: Source,
    out: Seq<Seq<DataView>>,
) -> Seq<Seq<DataView>>
    decreases cs.len(),
{
    if cs.len() == 0 {
        out
    } else {
        let o = poured(cs.drop_last(), p, env, off, cells, sink, src, out);
        let c = cells + cs.last();
        if passes(p, env, off, c, src) {
            fed(sink, env, c, src, o)
        } else {
            o
        }
    }
}

proof fn poured_add(
    a: Seq<Seq<CellView>>,
    b: Seq<Seq<CellView>>,
    p: PhysicalPlanView,
    env: Seq<RowSourceView>,
    off: int,
    cells: Seq<CellView>,
    sink: SinkView,
    src: Source,
    out: Seq<Seq<DataView>>,
)
    ensures
        poured(a + b, p, env, off, cells, sink, src, out) == poured(
            b,
            p,
            env,
            off,
            cells,
            sink,
            src,
            poured(a, p, env, off, cells, sink, src, out),
        ),
    decreases b.len(),
{
    if b.len() == 0 {
        assert(a + b =~= a);
    } else {
        poured_add(a, b.drop_last(), p, env, off, cells, sink, src, out);
        assert((a + b).drop_last() =~= a + b.drop_last());
    }
}

/// What passes depends on the tables of the plan and those before them alone.
proof fn passes_among(
    p: PhysicalPlanView,
    env: Seq<RowSourceView>,
    env2: Seq<RowSourceView>,
    off: int,
    cells: Seq<CellView>,
    cells2: Seq<CellView>,
    src: Source,
)
    requires
        0 <= off,
        off + scans(p).len() <= env.len() <= env2.len(),
        env.len() <= cells.len(),
        env2.len() <= cells2.len(),
        env2.take(env.len() as int) == env,
        cells2.take(env.len() as int) == cells.take(env.len() as int),
    ensures
        passes(p, env2, off, cells2, src) == passes(p, env, off, cells, src),
    decreases p,
{
    match p.node {
        PhysicalPlanNodeView::NestedLoopJoin { join_type, constraint, left, right } => {
            let n = off + scans(p).len();
            passes_among(*left, env, env2, off, cells, cells2, src);
            passes_among(*right, env, env2, off + scans(*left).len(), cells, cells2, src);
            assert(env2.take(n) =~= env.take(n)) by {
                assert(env2.take(env.len() as int).take(n) =~= env2.take(n));
            }
            assert(cells2.take(n) =~= cells.take(n)) by {
                assert(cells2.take(env.len() as int).take(n) =~= cells2.take(n));
                assert(cells.take(env.len() as int).take(n) =~= cells.take(n));
            }
        },
        PhysicalPlanNodeView::HashJoin { join_type, constraint, left, right } => {
            let n = off + scans(p).len();
            passes_among(*left, env, env2, off, cells, cells2, src);
            passes_among(*right, env, env2, off + scans(*left).len(), cells, cells2, src);
            assert(env2.take(n) =~= env.take(n)) by {
                assert(env2.take(env.len() as int).take(n) =~= env2.take(n));
            }
            assert(cells2.take(n) =~= cells.take(n)) by {
                assert(cells2.take(env.len() as int).take(n) =~= cells2.take(n));
                assert(cells.take(env.len() as int).take(n) =~= cells.take(n));
            }
        },
        _ => {},
    }
}

// -- Combinations ----------------------------------------------

proof fn each_with_sum(a: Seq<Seq<CellView>>, b: Seq<Seq<CellView>>, c: Seq<Seq<CellView>>)
    ensures
        each_with_each(each_with_each(a, b), c) == each_with_each(a, each_with_each(b, c)),
    decreases a.len(),
{
    if a.len() == 0 {
        assert(each_with_each(a, b) =~= seq![]);
    } else {
        each_with_sum(a.drop_last(), b, c);
        each_with_add(each_with_each(a.drop_last(), b), with_first(a.last(), b), c);
        first_with_each(a.last(), b, c);
    }
}

proof fn each_with_add(a: Seq<Seq<CellView>>, b: Seq<Seq<CellView>>, c: Seq<Seq<CellView>>)
    ensures
        each_with_each(a + b, c) == each_with_each(a, c) + each_with_each(b, c),
    decreases b.len(),
{
    if b.len() == 0 {
        assert(a + b =~= a);
        assert(each_with_each(a, c) + each_with_each(b, c) =~= each_with_each(a, c));
    } else {
        each_with_add(a, b.drop_last(), c);
        assert((a + b).drop_last() =~= a + b.drop_last());
        assert((a + b).last() == b.last());
        assert(each_with_each(a, c) + each_with_each(b, c) =~= (each_with_each(a, c)
            + each_with_each(b.drop_last(), c)) + with_first(b.last(), c));
    }
}

proof fn first_with_each(x: Seq<CellView>, b: Seq<Seq<CellView>>, c: Seq<Seq<CellView>>)
    ensures
        each_with_each(with_first(x, b), c) == with_first(x, each_with_each(b, c)),
    decreases b.len(),
{
    if b.len() == 0 {
        assert(with_first(x, b) =~= seq![]);
        assert(with_first(x, each_with_each(b, c)) =~= seq![]);
    } else {
        let w = with_first(x, b);
        first_with_each(x, b.drop_last(), c);
        assert(w.drop_last() =~= with_first(x, b.drop_last()));
        let p = each_with_each(b.drop_last(), c);
        let q = with_first(b.last(), c);
        assert(with_first(x, p + q) =~= with_first(x, p) + with_first(x, q));
        assert(with_first(w.last(), c) =~= with_first(x, q)) by {
            assert forall|i: int| 0 <= i < c.len() implies w.last() + c[i] == x + (b.last() + c[i]) by {
                assert(w.last() + c[i] =~= x + (b.last() + c[i]));
            }
        }
    }
}

/// The combinations of more tables.
proof fn combinations_add(a: Seq<Seq<CellView>>, b: Seq<Seq<CellView>>)
    ensures
        combinations(a + b) == each_with_each(combinations(a), combinations(b)),
    decreases b.len(),
{
    if b.len() == 0 {
        assert(a + b =~= a);
        with_nothing(combinations(a));
    } else {
        combinations_add(a, b.drop_last());
        assert((a + b).drop_last() =~= a + b.drop_last());
        assert((a + b).last() == b.last());
        let last = Seq::new(b.last().len(), |i: int| seq![b.last()[i]]);
        each_with_sum(combinations(a), combinations(b.drop_last()), last);
    }
}

proof fn with_nothing(a: Seq<Seq<CellView>>)
    ensures
        each_with_each(a, seq![Seq::<CellView>::empty()]) == a,
    decreases a.len(),
{
    if a.len() > 0 {
        with_nothing(a.drop_last());
        let e = seq![Seq::<CellView>::empty()];
        assert(with_first(a.last(), e) =~= seq![a.last()]) by {
            assert(a.last() + Seq::<CellView>::empty() =~= a.last());
        }
        assert(a.drop_last() + seq![a.last()] =~= a);
    } else {
        assert(a =~= seq![]);
    }
}

/// A combination has a row of each table.
proof fn combination_len(l: Seq<Seq<CellView>>)
    ensures
        forall|i: int|
            0 <= i < combinations(l).len() ==> (#[trigger] combinations(l)[i]).len() == l.len(),
    decreases l.len(),
{
    if l.len() > 0 {
        combination_len(l.drop_last());
        let last = Seq::new(l.last().len(), |i: int| seq![l.last()[i]]);
        each_len(combinations(l.drop_last()), last, (l.len() - 1) as nat, 1);
    }
}

proof fn each_len(a: Seq<Seq<CellView>>, b: Seq<Seq<CellView>>, n: nat, m: nat)
    requires
        forall|i: int| 0 <= i < a.len() ==> (#[trigger] a[i]).len() == n,
        forall|i: int| 0 <= i < b.len() ==> (#[trigger] b[i]).len() == m,
    ensures
        forall|i: int|
            0 <= i < each_with_each(a, b).len() ==> (#[trigger] each_with_each(a, b)[i]).len() == n
                + m,
    decreases a.len(),
{
    if a.len() > 0 {
        let d = a.drop_last();
        assert forall|i: int| 0 <= i < d.len() implies (#[trigger] d[i]).len() == n by {
            assert(d[i] == a[i]);
        }
        each_len(d, b, n, m);
        assert(a[a.len() - 1].len() == n);
        let e = each_with_each(a, b);
        let k = each_with_each(d, b).len() as int;
        assert forall|i: int| 0 <= i < e.len() implies (#[trigger] e[i]).len() == n + m by {
            if i < k {
                assert(e[i] == each_with_each(d, b)[i]);
            } else {
                assert(e[i] == with_first(a.last(), b)[i - k]);
                assert(b[i - k].len() == m);
            }
        }
    }
}

// -- The rows of a plan ----------------------------------------

/// A plan that joins tables gives its sink all combinations that pass, in their order.
proof fn plan_pours(
    p: PhysicalPlanView,
    env: Seq<RowSourceView>,
    cells: Seq<CellView>,
    sink: SinkView,
    src: Source,
    out: Seq<Seq<DataView>>,
)
    requires
        only_joins(p, src),
        env.len() == cells.len(),
        env.len() + scans(p).len() <= usize::MAX,
    ensures
        found_by(p, env, cells, sink, src, out) == poured(
            choices(scans(p), src),
            p,
            env + scope_from(scans(p), env.len() as int, src),
            env.len() as int,
            cells,
            sink,
            src,
            out,
        ),
    decreases p, 2int, 0nat,
{
    match p.node {
        PhysicalPlanNodeView::SeqScan { table, alias } => {
            let b = (src.cat)(table)->0;
            let es = (src.db)(b.root_pgno);
            let inner = env.push(source_of(table, alias, b, env.len() as usize));
            assert(inner =~= env + scope_from(scans(p), env.len() as int, src));
            scan_pours(p, es, es.len(), inner, env.len() as int, cells, sink, src, out);
            let one = Seq::new(es.len(), |i: int| seq![es[i]]);
            assert(one.take(es.len() as int) =~= one);
            let l = Seq::new(1, |i: int| rows_of(scans(p)[i], src));
            assert(Seq::new(scans(p).len(), |i: int| rows_of(scans(p)[i], src)) =~= l);
            assert(l.drop_last() =~= seq![]);
            assert(l.last() == es);
            nothing_with(one);
            assert(Seq::new(l.last().len(), |i: int| seq![l.last()[i]]) =~= one);
            assert(combinations(l.drop_last()) =~= seq![Seq::<CellView>::empty()]);
            assert(choices(scans(p), src) == one);
        },
        PhysicalPlanNodeView::NestedLoopJoin { join_type, constraint, left, right } => {
            join_pours(p, constraint, *left, *right, env, cells, sink, src, out);
        },
        PhysicalPlanNodeView::HashJoin { join_type, constraint, left, right } => {
            join_pours(p, constraint, *left, *right, env, cells, sink, src, out);
        },
        _ => {},
    }
}

proof fn nothing_with(b: Seq<Seq<CellView>>)
    ensures
        each_with_each(seq![Seq::<CellView>::empty()], b) == b,
{
    let e = seq![Seq::<CellView>::empty()];
    assert(e.drop_last() =~= seq![]);
    assert(each_with_each(e.drop_last(), b) =~= seq![]);
    assert(with_first(e.last(), b) =~= b) by {
        assert forall|i: int| 0 <= i < b.len() implies e.last() + b[i] == b[i] by {
            assert(e.last() + b[i] =~= b[i]);
        }
    }
    assert(each_with_each(e.drop_last(), b) + with_first(e.last(), b) =~= b);
}

proof fn scan_pours(
    p: PhysicalPlanView,
    es: Seq<CellView>,
    n: nat,
    env: Seq<RowSourceView>,
    off: int,
    cells: Seq<CellView>,
    sink: SinkView,
    src: Source,
    out: Seq<Seq<DataView>>,
)
    requires
        p.node is SeqScan,
        n <= es.len(),
    ensures
        scanned(es, n, env, cells, sink, src, out) == poured(
            Seq::new(es.len(), |i: int| seq![es[i]]).take(n as int),
            p,
            env,
            off,
            cells,
            sink,
            src,
            out,
        ),
    decreases n,
{
    let one = Seq::new(es.len(), |i: int| seq![es[i]]);
    if n > 0 {
        scan_pours(p, es, (n - 1) as nat, env, off, cells, sink, src, out);
        assert(one.take(n as int).drop_last() =~= one.take(n - 1));
        assert(cells.push(es[n - 1]) =~= cells + seq![es[n - 1]]);
    }
}

proof fn join_pours(
    p: PhysicalPlanView,
    constraint: JoinConstraintView,
    left: PhysicalPlanView,
    right: PhysicalPlanView,
    env: Seq<RowSourceView>,
    cells: Seq<CellView>,
    sink: SinkView,
    src: Source,
    out: Seq<Seq<DataView>>,
)
    requires
        match p.node {
            PhysicalPlanNodeView::NestedLoopJoin { join_type, constraint: c, left: l, right: r } =>
                c == constraint && *l == left && *r == right,
            PhysicalPlanNodeView::HashJoin { join_type, constraint: c, left: l, right: r } => c
                == constraint && *l == left && *r == right,
            _ => false,
        },
        decreases_to!(p => left),
        decreases_to!(p => right),
        only_joins(p, src),
        env.len() == cells.len(),
        env.len() + scans(p).len() <= usize::MAX,
    ensures
        found_by(p, env, cells, sink, src, out) == poured(
            choices(scans(p), src),
            p,
            env + scope_from(scans(p), env.len() as int, src),
            env.len() as int,
            cells,
            sink,
            src,
            out,
        ),
    decreases p, 1int, 0nat,
{
    let off = env.len() as int;
    let a = scans(left);
    let b = scans(right);
    let mid = env + scope_from(a, off, src);
    let all = env + scope_from(a + b, off, src);
    let onward = SinkView::Right { plan: right, constraint, next: Box::new(sink) };
    plan_pours(left, env, cells, onward, src, out);
    let la = Seq::new(a.len(), |i: int| rows_of(a[i], src));
    let lb = Seq::new(b.len(), |i: int| rows_of(b[i], src));
    assert(Seq::new((a + b).len(), |i: int| rows_of((a + b)[i], src)) =~= la + lb);
    combinations_add(la, lb);
    combination_len(la);
    combination_len(lb);
    pours_each(p, constraint, left, right, combinations(la), env, cells, sink, src, out);
}

proof fn pours_each(
    p: PhysicalPlanView,
    constraint: JoinConstraintView,
    left: PhysicalPlanView,
    right: PhysicalPlanView,
    xs: Seq<Seq<CellView>>,
    env: Seq<RowSourceView>,
    cells: Seq<CellView>,
    sink: SinkView,
    src: Source,
    out: Seq<Seq<DataView>>,
)
    requires
        match p.node {
            PhysicalPlanNodeView::NestedLoopJoin { join_type, constraint: c, left: l, right: r } =>
                c == constraint && *l == left && *r == right,
            PhysicalPlanNodeView::HashJoin { join_type, constraint: c, left: l, right: r } => c
                == constraint && *l == left && *r == right,
            _ => false,
        },
        decreases_to!(p => right),
        only_joins(right, src),
        env.len() == cells.len(),
        env.len() + scans(p).len() <= usize::MAX,
        forall|i: int| 0 <= i < xs.len() ==> (#[trigger] xs[i]).len() == scans(left).len(),
    ensures
        ({
            let off = env.len() as int;
            let onward = SinkView::Right { plan: right, constraint, next: Box::new(sink) };
            poured(
                xs,
                left,
                env + scope_from(scans(left), off, src),
                off,
                cells,
                onward,
                src,
                out,
            ) == poured(
                each_with_each(xs, choices(scans(right), src)),
                p,
                env + scope_from(scans(p), off, src),
                off,
                cells,
                sink,
                src,
                out,
            )
        }),
    decreases p, 0int, xs.len(),
{
    let off = env.len() as int;
    let a = scans(left);
    let b = scans(right);
    let mid = env + scope_from(a, off, src);
    let all = env + scope_from(scans(p), off, src);
    let ys = choices(b, src);
    let onward = SinkView::Right { plan: right, constraint, next: Box::new(sink) };
    if xs.len() > 0 {
        let d = xs.drop_last();
        assert forall|i: int| 0 <= i < d.len() implies (#[trigger] d[i]).len() == a.len() by {
            assert(d[i] == xs[i]);
        }
        pours_each(p, constraint, left, right, d, env, cells, sink, src, out);
        let o = poured(d, left, mid, off, cells, onward, src, out);
        let x = xs.last();
        assert(xs[xs.len() - 1].len() == a.len());
        let c = cells + x;
        poured_add(each_with_each(d, ys), with_first(x, ys), p, all, off, cells, sink, src, out);
        let check = SinkView::Check { constraint, left: mid.len() as usize, next: Box::new(sink) };
        assert(mid + scope_from(b, mid.len() as int, src) =~= all);
        let lb = Seq::new(b.len(), |i: int| rows_of(b[i], src));
        combination_len(lb);
        if passes(left, mid, off, c, src) {
            assert(fed(onward, mid, c, src, o) == found_by(right, mid, c, check, src, o));
            plan_pours(right, mid, c, check, src, o);
        }
        pours_first(p, constraint, left, right, ys, x, env, cells, sink, src, o);
    }
}

proof fn pours_first(
    p: PhysicalPlanView,
    constraint: JoinConstraintView,
    left: PhysicalPlanView,
    right: PhysicalPlanView,
    ys: Seq<Seq<CellView>>,
    x: Seq<CellView>,
    env: Seq<RowSourceView>,
    cells: Seq<CellView>,
    sink: SinkView,
    src: Source,
    o: Seq<Seq<DataView>>,
)
    requires
        match p.node {
            PhysicalPlanNodeView::NestedLoopJoin { join_type, constraint: c, left: l, right: r } =>
                c == constraint && *l == left && *r == right,
            PhysicalPlanNodeView::HashJoin { join_type, constraint: c, left: l, right: r } => c
                == constraint && *l == left && *r == right,
            _ => false,
        },
        env.len() == cells.len(),
        env.len() + scans(p).len() <= usize::MAX,
        x.len() == scans(left).len(),
        forall|i: int| 0 <= i < ys.len() ==> (#[trigger] ys[i]).len() == scans(right).len(),
    ensures
        ({
            let off = env.len() as int;
            let mid = env + scope_from(scans(left), off, src);
            let all = env + scope_from(scans(p), off, src);
            let check = SinkView::Check {
                constraint,
                left: mid.len() as usize,
                next: Box::new(sink),
            };
            poured(with_first(x, ys), p, all, off, cells, sink, src, o) == (if passes(
                left,
                mid,
                off,
                cells + x,
                src,
            ) {
                poured(ys, right, all, mid.len() as int, cells + x, check, src, o)
            } else {
                o
            })
        }),
    decreases ys.len(),
{
    let off = env.len() as int;
    let a = scans(left);
    let b = scans(right);
    let mid = env + scope_from(a, off, src);
    let all = env + scope_from(scans(p), off, src);
    let c = cells + x;
    let check = SinkView::Check { constraint, left: mid.len() as usize, next: Box::new(sink) };
    let w = with_first(x, ys);
    if ys.len() > 0 {
        let d = ys.drop_last();
        assert forall|i: int| 0 <= i < d.len() implies (#[trigger] d[i]).len() == b.len() by {
            assert(d[i] == ys[i]);
        }
        pours_first(p, constraint, left, right, d, x, env, cells, sink, src, o);
        assert(w.drop_last() =~= with_first(x, d));
        let y = ys.last();
        assert(ys[ys.len() - 1].len() == b.len());
        assert(cells + w.last() =~= c + y);
        let full = c + y;
        assert(all.take(mid.len() as int) =~= mid);
        assert(full.take(mid.len() as int) =~= c.take(mid.len() as int));
        passes_among(left, mid, all, off, c, full, src);
        assert(all.take(all.len() as int) =~= all);
        assert(full.take(all.len() as int) =~= full);
    } else {
        assert(w =~= seq![]);
    }
}

// -- From the statement to the plan ----------------------------

/// Only a selection can be told by a condition.
proof fn selects_a_selection(pred: ExprView, base: RelationExprView, rel: RelationExprView)
    requires
        selects(pred, base, rel),
    ensures
        rel is Selection,
        rel matches RelationExprView::Selection { input, predicate } ==> !(*input is Selection)
            ==> pred == predicate && base == *input,
    decreases pred,
{
    let direct = match rel {
        RelationExprView::Selection { input, predicate } => predicate == pred && *input == base,
        _ => false,
    };
    if !direct {
        match pred {
            ExprView::Binary { left, op, right } => {
                let mid = choose|mid: RelationExprView| #[trigger]
                    between(mid) && selects(*left, mid, rel) && selects(*right, base, mid);
                selects_a_selection(*left, mid, rel);
                selects_a_selection(*right, base, mid);
            },
            _ => {},
        }
    }
}

/// A plan for a table reads the table.
proof fn scan_plan(
    p: PhysicalPlanView,
    n: Named,
    env: Seq<RowSourceView>,
    sink: SinkView,
    src: Source,
    c: CodeView,
) -> (w: (Seq<RowSourceView>, CodeView))
    requires
        rows_code(p, env, sink, src.cat, c) is Ok,
        answers(p, RelationExprView::TableScan { table: n.0, alias: n.1 }),
    ensures
        p.node == (PhysicalPlanNodeView::SeqScan { table: n.0, alias: n.1 }),
        only_joins(p, src),
        scans(p) == seq![n],
        sink_code(w.0, sink, src.cat, w.1) is Ok,
{
    let rel = RelationExprView::TableScan { table: n.0, alias: n.1 };
    match p.node {
        PhysicalPlanNodeView::Filter { predicate, input } => {
            let base = choose|base: RelationExprView| #[trigger]
                selects(predicate, base, rel) && answers(*input, base);
            selects_a_selection(predicate, base, rel);
            (env, c)
        },
        PhysicalPlanNodeView::SeqScan { table, alias } => {
            let b = (src.cat)(table)->0;
            (
                env.push(
                    RowSourceView {
                        table: table.name,
                        alias,
                        cursor_id: c.cursors,
                        columns: b.columns,
                    },
                ),
                crate::sql::planner::scan_start(b.root_pgno, c),
            )
        },
        _ => (env, c),
    }
}

/// The relation of the first `n` joins of a query.
spec fn joined(t: TableRefView, n: nat) -> RelationExprView {
    lower_joins(t, n)->Ok_0
}

proof fn joined_parts(t: TableRefView, n: nat)
    requires
        joined_in_a_row(t),
        0 < n <= t.joins.len(),
        lower_joins(t, n) is Ok,
    ensures
        lower_joins(t, (n - 1) as nat) is Ok,
        joined(t, n) == (RelationExprView::Join {
            left: Box::new(joined(t, (n - 1) as nat)),
            right: Box::new(
                RelationExprView::TableScan {
                    table: t.joins[n - 1].table.name,
                    alias: t.joins[n - 1].table.alias,
                },
            ),
            join_type: t.joins[n - 1].join_type,
            constraint: t.joins[n - 1].constraint,
        }),
{
    let j = t.joins[n - 1];
    assert(j.table.joins.len() == 0);
    assert(lower_table(j.table) == lower_joins(j.table, 0));
}

/// A plan for joined tables joins them, and does nothing else.
proof fn joins_plan(
    p: PhysicalPlanView,
    t: TableRefView,
    n: nat,
    env: Seq<RowSourceView>,
    sink: SinkView,
    src: Source,
    c: CodeView,
) -> (w: (Seq<RowSourceView>, CodeView))
    requires
        rows_code(p, env, sink, src.cat, c) is Ok,
        joined_in_a_row(t),
        n <= t.joins.len(),
        lower_joins(t, n) is Ok,
        answers(p, joined(t, n)),
    ensures
        only_joins(p, src),
        sink_code(w.0, sink, src.cat, w.1) is Ok,
    decreases p,
{
    if n == 0 {
        scan_plan(p, (t.name, t.alias), env, sink, src, c)
    } else {
        joined_parts(t, n);
        let j = t.joins[n - 1];
        let name = (j.table.name, j.table.alias);
        let m = (n - 1) as nat;
        let rel = joined(t, n);
        match p.node {
            PhysicalPlanNodeView::Filter { predicate, input } => {
                let base = choose|base: RelationExprView| #[trigger]
                    selects(predicate, base, rel) && answers(*input, base);
                selects_a_selection(predicate, base, rel);
                (env, c)
            },
            PhysicalPlanNodeView::NestedLoopJoin { join_type, constraint, left, right } => {
                let onward = SinkView::Right { plan: *right, constraint, next: Box::new(sink) };
                if answers(*left, joined(t, m)) && answers(
                    *right,
                    RelationExprView::TableScan { table: name.0, alias: name.1 },
                ) {
                    let (e, d) = joins_plan(*left, t, m, env, onward, src, c);
                    let check = SinkView::Check {
                        constraint,
                        left: e.len() as usize,
                        next: Box::new(sink),
                    };
                    let (f, g) = scan_plan(*right, name, e, check, src, d);
                    checked_code(constraint, f, e.len() as usize, sink, src, g)
                } else {
                    let (e, d) = scan_plan(*left, name, env, onward, src, c);
                    let check = SinkView::Check {
                        constraint,
                        left: e.len() as usize,
                        next: Box::new(sink),
                    };
                    let (f, g) = joins_plan(*right, t, m, e, check, src, d);
                    checked_code(constraint, f, e.len() as usize, sink, src, g)
                }
            },
            PhysicalPlanNodeView::HashJoin { join_type, constraint, left, right } => {
                let onward = SinkView::Right { plan: *right, constraint, next: Box::new(sink) };
                if answers(*left, joined(t, m)) && answers(
                    *right,
                    RelationExprView::TableScan { table: name.0, alias: name.1 },
                ) {
                    let (e, d) = joins_plan(*left, t, m, env, onward, src, c);
                    let check = SinkView::Check {
                        constraint,
                        left: e.len() as usize,
                        next: Box::new(sink),
                    };
                    let (f, g) = scan_plan(*right, name, e, check, src, d);
                    checked_code(constraint, f, e.len() as usize, sink, src, g)
                } else {
                    let (e, d) = scan_plan(*left, name, env, onward, src, c);
                    let check = SinkView::Check {
                        constraint,
                        left: e.len() as usize,
                        next: Box::new(sink),
                    };
                    let (f, g) = joins_plan(*right, t, m, e, check, src, d);
                    checked_code(constraint, f, e.len() as usize, sink, src, g)
                }
            },
            _ => (env, c),
        }
    }
}

/// Where a check can be made, what follows it can.
proof fn checked_code(
    constraint: JoinConstraintView,
    env: Seq<RowSourceView>,
    left: usize,
    next: SinkView,
    src: Source,
    c: CodeView,
) -> (w: (Seq<RowSourceView>, CodeView))
    requires
        sink_code(env, SinkView::Check { constraint, left, next: Box::new(next) }, src.cat, c) is Ok,
    ensures
        sink_code(w.0, next, src.cat, w.1) is Ok,
{
    match crate::sql::planner::constraint_code(constraint, env, left as int, c) {
        Err(m) => (env, c),
        Ok((d, None)) => (env, d),
        Ok((d, Some(cond_reg))) => {
            let skip = d.next_label();
            (
                env,
                d.label().emit(
                    crate::sql::operations::OperationView::IfNot(
                        crate::sql::operations::IfNot { cond_reg, target: skip },
                    ),
                ),
            )
        },
    }
}

proof fn one_scan(p: PhysicalPlanView, n: Named, src: Source)
    requires
        only_joins(p, src),
        answers(p, RelationExprView::TableScan { table: n.0, alias: n.1 }),
    ensures
        scans(p) == seq![n],
        forall|env: Seq<RowSourceView>, off: int, cells: Seq<CellView>| #[trigger]
            passes(p, env, off, cells, src),
{
}

/// Whether an arrangement is that of a plan for the first `n` joins.
spec fn arranged(p: PhysicalPlanView, t: TableRefView, n: nat, a: Arrangement, src: Source) -> bool {
    &&& a.order.len() == n + 1
    &&& a.order.no_duplicates()
    &&& forall|i: int| 0 <= i < a.order.len() ==> 0 <= #[trigger] a.order[i] <= n
    &&& a.scopes.len() == n
    &&& forall|k: int|
        0 <= k < n ==> decided_where(a.order, k, (#[trigger] a.scopes[k]).0, a.scopes[k].1)
    &&& scans(p).len() == n + 1
    &&& forall|i: int|
        0 <= i <= n ==> #[trigger] scans(p)[i] == named_tables(t)[a.order[i]]
    &&& forall|env: Seq<RowSourceView>, off: int, cells: Seq<CellView>| #[trigger]
        passes(p, env, off, cells, src) == joins_hold(t, n, a.scopes, env, off, cells, src)
}

/// The tables of a plan for joined tables, and where each join is decided.
proof fn plan_arranged(p: PhysicalPlanView, t: TableRefView, n: nat, src: Source) -> (a: Arrangement)
    requires
        only_joins(p, src),
        joined_in_a_row(t),
        n <= t.joins.len(),
        lower_joins(t, n) is Ok,
        answers(p, joined(t, n)),
    ensures
        arranged(p, t, n, a, src),
    decreases p, 1int,
{
    if n == 0 {
        let a = Arrangement { order: seq![0int], scopes: seq![] };
        assert(scans(p) =~= seq![(t.name, t.alias)]);
        a
    } else {
        joined_parts(t, n);
        match p.node {
            PhysicalPlanNodeView::NestedLoopJoin { join_type, constraint, left, right } => {
                join_arranged(p, constraint, *left, *right, t, n, src)
            },
            PhysicalPlanNodeView::HashJoin { join_type, constraint, left, right } => {
                join_arranged(p, constraint, *left, *right, t, n, src)
            },
            _ => Arrangement { order: seq![], scopes: seq![] },
        }
    }
}

/// Whether the first `n` joins hold, each decided where `scopes` says.
spec fn joins_hold(
    t: TableRefView,
    n: nat,
    scopes: Seq<(int, int)>,
    env: Seq<RowSourceView>,
    off: int,
    cells: Seq<CellView>,
    src: Source,
) -> bool {
    forall|k: int|
        0 <= k < n ==> belong(
            (#[trigger] t.joins[k]).constraint,
            env,
            off + scopes[k].0,
            off + scopes[k].1,
            cells,
            src,
        )
}

/// One join more, with those before it moved by `d`.
proof fn one_more_join(
    t: TableRefView,
    m: nat,
    b: Seq<(int, int)>,
    a: Seq<(int, int)>,
    d: int,
    env: Seq<RowSourceView>,
    off: int,
    cells: Seq<CellView>,
    src: Source,
)
    requires
        m < t.joins.len(),
        b.len() == m,
        a.len() == m + 1,
        forall|k: int|
            0 <= k < m ==> (#[trigger] a[k]).0 == b[k].0 + d && a[k].1 == b[k].1 + d,
    ensures
        joins_hold(t, m + 1, a, env, off, cells, src) == (joins_hold(
            t,
            m,
            b,
            env,
            off + d,
            cells,
            src,
        ) && belong(t.joins[m as int].constraint, env, off + a[m as int].0, off + a[m as int].1, cells, src)),
{
    let last = belong(
        t.joins[m as int].constraint,
        env,
        off + a[m as int].0,
        off + a[m as int].1,
        cells,
        src,
    );
    if joins_hold(t, m + 1, a, env, off, cells, src) {
        assert(t.joins[m as int] == t.joins[m as int]);
        assert forall|k: int| 0 <= k < m implies belong(
            (#[trigger] t.joins[k]).constraint,
            env,
            (off + d) + b[k].0,
            (off + d) + b[k].1,
            cells,
            src,
        ) by {
            assert((off + d) + b[k].0 == off + a[k].0);
            assert((off + d) + b[k].1 == off + a[k].1);
        }
    }
    if joins_hold(t, m, b, env, off + d, cells, src) && last {
        assert forall|k: int| 0 <= k < m + 1 implies belong(
            (#[trigger] t.joins[k]).constraint,
            env,
            off + a[k].0,
            off + a[k].1,
            cells,
            src,
        ) by {
            if k < m {
                assert((off + d) + b[k].0 == off + a[k].0);
                assert((off + d) + b[k].1 == off + a[k].1);
            }
        }
    }
}

spec fn joins_these(
    p: PhysicalPlanView,
    constraint: JoinConstraintView,
    left: PhysicalPlanView,
    right: PhysicalPlanView,
) -> bool {
    match p.node {
        PhysicalPlanNodeView::NestedLoopJoin { join_type, constraint: c, left: l, right: r } => c
            == constraint && *l == left && *r == right,
        PhysicalPlanNodeView::HashJoin { join_type, constraint: c, left: l, right: r } => c
            == constraint && *l == left && *r == right,
        _ => false,
    }
}

proof fn join_arranged(
    p: PhysicalPlanView,
    constraint: JoinConstraintView,
    left: PhysicalPlanView,
    right: PhysicalPlanView,
    t: TableRefView,
    n: nat,
    src: Source,
) -> (a: Arrangement)
    requires
        joins_these(p, constraint, left, right),
        decreases_to!(p => left),
        decreases_to!(p => right),
        only_joins(left, src),
        only_joins(right, src),
        joined_in_a_row(t),
        0 < n <= t.joins.len(),
        lower_joins(t, n) is Ok,
        answers(p, joined(t, n)),
    ensures
        arranged(p, t, n, a, src),
    decreases p, 0int,
{
    joined_parts(t, n);
    let j = t.joins[n - 1];
    let m = (n - 1) as nat;
    let name = (j.table.name, j.table.alias);
    let scan = RelationExprView::TableScan { table: j.table.name, alias: j.table.alias };
    assert(constraint == j.constraint);
    if answers(left, joined(t, m)) && answers(right, scan) {
        one_scan(right, name, src);
        let b = plan_arranged(left, t, m, src);
        kept_arranged(p, constraint, left, right, t, m, b, src)
    } else {
        one_scan(left, name, src);
        let b = plan_arranged(right, t, m, src);
        turned_arranged(p, constraint, left, right, t, m, b, src)
    }
}

proof fn kept_arranged(
    p: PhysicalPlanView,
    constraint: JoinConstraintView,
    left: PhysicalPlanView,
    right: PhysicalPlanView,
    t: TableRefView,
    m: nat,
    b: Arrangement,
    src: Source,
) -> (a: Arrangement)
    requires
        joins_these(p, constraint, left, right),
        m < t.joins.len(),
        constraint == t.joins[m as int].constraint,
        arranged(left, t, m, b, src),
        scans(right) == seq![(t.joins[m as int].table.name, t.joins[m as int].table.alias)],
        forall|env: Seq<RowSourceView>, off: int, cells: Seq<CellView>| #[trigger]
            passes(right, env, off, cells, src),
    ensures
        arranged(p, t, m + 1, a, src),
{
    let n = m + 1;
    let a = Arrangement {
        order: b.order.push(n as int),
        scopes: b.scopes.push(((n + 1) as int, n as int)),
    };
    assert forall|k: int| 0 <= k < n implies decided_where(
        a.order,
        k,
        (#[trigger] a.scopes[k]).0,
        a.scopes[k].1,
    ) by {
        if k < m {
            assert(b.scopes[k] == a.scopes[k]);
            longer_order(b.order, a.order, 0, k, b.scopes[k].0, b.scopes[k].1);
        } else {
            all_there(b.order, m);
            assert forall|i: int| 0 <= i <= k implies #[trigger] side_has(
                a.order,
                0,
                n as int,
                i,
            ) by {
                assert(b.order.contains(i));
                let x = choose|x: int| 0 <= x < b.order.len() && b.order[x] == i;
                assert(a.order[x] == i);
            }
            assert(a.order[n as int] == n);
            assert(side_has(a.order, n as int, (n + 1) as int, n as int));
        }
    }
    assert(scans(p) =~= scans(left) + scans(right));
    assert forall|env: Seq<RowSourceView>, off: int, cells: Seq<CellView>| #[trigger]
        passes(p, env, off, cells, src) == joins_hold(t, n, a.scopes, env, off, cells, src) by {
        one_more_join(t, m, b.scopes, a.scopes, 0, env, off, cells, src);
        let mid = off + scans(left).len();
        passing_belong(constraint, env, mid + scans(right).len(), mid, cells, src);
        assert(passes(left, env, off, cells, src) == joins_hold(
            t,
            m,
            b.scopes,
            env,
            off,
            cells,
            src,
        ));
        assert(passes(right, env, off + scans(left).len(), cells, src));
        assert(a.scopes[m as int] == ((n + 1) as int, n as int));
    }
    a
}

proof fn turned_arranged(
    p: PhysicalPlanView,
    constraint: JoinConstraintView,
    left: PhysicalPlanView,
    right: PhysicalPlanView,
    t: TableRefView,
    m: nat,
    b: Arrangement,
    src: Source,
) -> (a: Arrangement)
    requires
        joins_these(p, constraint, left, right),
        m < t.joins.len(),
        constraint == t.joins[m as int].constraint,
        arranged(right, t, m, b, src),
        scans(left) == seq![(t.joins[m as int].table.name, t.joins[m as int].table.alias)],
        forall|env: Seq<RowSourceView>, off: int, cells: Seq<CellView>| #[trigger]
            passes(left, env, off, cells, src),
    ensures
        arranged(p, t, m + 1, a, src),
{
    let n = m + 1;
    let a = Arrangement {
        order: seq![n as int] + b.order,
        scopes: Seq::new(m, |k: int| (b.scopes[k].0 + 1, b.scopes[k].1 + 1)).push(
            ((n + 1) as int, 1),
        ),
    };
    assert forall|k: int| 0 <= k < n implies decided_where(
        a.order,
        k,
        (#[trigger] a.scopes[k]).0,
        a.scopes[k].1,
    ) by {
        if k < m {
            assert(decided_where(b.order, k, b.scopes[k].0, b.scopes[k].1));
            longer_order(b.order, a.order, 1, k, b.scopes[k].0, b.scopes[k].1);
        } else {
            all_there(b.order, m);
            assert forall|i: int| 0 <= i <= k implies #[trigger] side_has(
                a.order,
                1,
                (n + 1) as int,
                i,
            ) by {
                assert(b.order.contains(i));
                let x = choose|x: int| 0 <= x < b.order.len() && b.order[x] == i;
                assert(a.order[x + 1] == i);
            }
            assert(a.order[0] == n);
            assert(side_has(a.order, 0, 1, n as int));
        }
    }
    assert forall|x: int, y: int|
        0 <= x < a.order.len() && 0 <= y < a.order.len() && x != y implies a.order[x]
        != a.order[y] by {
        if x > 0 {
            assert(a.order[x] == b.order[x - 1]);
        }
        if y > 0 {
            assert(a.order[y] == b.order[y - 1]);
        }
    }
    assert forall|i: int| 0 <= i < a.order.len() implies 0 <= #[trigger] a.order[i] <= n by {
        if i > 0 {
            assert(a.order[i] == b.order[i - 1]);
        }
    }
    assert(scans(p) =~= scans(left) + scans(right));
    assert forall|i: int| 0 <= i <= n implies #[trigger] scans(p)[i] == named_tables(
        t,
    )[a.order[i]] by {
        if i > 0 {
            assert(scans(p)[i] == scans(right)[i - 1]);
            assert(a.order[i] == b.order[i - 1]);
        }
    }
    assert forall|env: Seq<RowSourceView>, off: int, cells: Seq<CellView>| #[trigger]
        passes(p, env, off, cells, src) == joins_hold(t, n, a.scopes, env, off, cells, src) by {
        one_more_join(t, m, b.scopes, a.scopes, 1, env, off, cells, src);
        let mid = off + scans(left).len();
        passing_belong(constraint, env, mid + scans(right).len(), mid, cells, src);
        assert(passes(right, env, off + 1, cells, src) == joins_hold(
            t,
            m,
            b.scopes,
            env,
            off + 1,
            cells,
            src,
        ));
        assert(passes(left, env, off, cells, src));
        assert(off + scans(left).len() == off + 1);
        assert(a.scopes[m as int] == ((n + 1) as int, 1int));
    }
    a
}

/// All tables are in an order of them.
proof fn all_there(order: Seq<int>, m: nat)
    requires
        order.len() == m + 1,
        order.no_duplicates(),
        forall|i: int| 0 <= i < order.len() ==> 0 <= #[trigger] order[i] <= m,
    ensures
        forall|j: int| 0 <= j <= m ==> order.contains(j),
{
    order.unique_seq_to_set();
    let s = order.to_set();
    let r = vstd::set_lib::set_int_range(0, (m + 1) as int);
    vstd::set_lib::lemma_int_range(0, (m + 1) as int);
    assert(s.subset_of(r)) by {
        assert forall|x: int| s.contains(x) implies r.contains(x) by {
            let i = choose|i: int| 0 <= i < order.len() && order[i] == x;
            assert(0 <= order[i] <= m);
        }
    }
    vstd::set_lib::lemma_subset_equality(s, r);
    assert forall|j: int| 0 <= j <= m implies order.contains(j) by {
        assert(r.contains(j));
        assert(s.contains(j));
    }
}

/// What is decided among tables is among more of them.
proof fn longer_order(a: Seq<int>, b: Seq<int>, d: int, k: int, n: int, left: int)
    requires
        decided_where(a, k, n, left),
        d >= 0,
        a.len() + d <= b.len(),
        forall|i: int| 0 <= i < a.len() ==> #[trigger] a[i] == b[i + d],
    ensures
        decided_where(b, k, n + d, left + d),
{
    if (forall|j: int| 0 <= j <= k ==> #[trigger] side_has(a, 0, left, j)) && side_has(
        a,
        left,
        n,
        k + 1,
    ) {
        assert forall|j: int| 0 <= j <= k implies #[trigger] side_has(b, 0, left + d, j) by {
            assert(side_has(a, 0, left, j));
            let i = choose|i: int| 0 <= i < left && a[i] == j;
            assert(b[i + d] == j);
        }
        let i = choose|i: int| left <= i < n && a[i] == k + 1;
        assert(b[i + d] == k + 1);
    } else {
        assert forall|j: int| 0 <= j <= k implies #[trigger] side_has(b, left + d, n + d, j) by {
            assert(side_has(a, left, n, j));
            let i = choose|i: int| left <= i < n && a[i] == j;
            assert(b[i + d] == j);
        }
        let i = choose|i: int| 0 <= i < left && a[i] == k + 1;
        assert(b[i + d] == k + 1);
    }
}

// -- The rows of a query ---------------------------------------

/// The columns of a result are those that were asked for.
proof fn items_shown(
    items: Seq<SelectItemView>,
    env: Seq<RowSourceView>,
    cells: Seq<CellView>,
    src: Source,
)
    ensures
        item_values(lower_items(items), env, cells, src.reals) == shown_row(items, env, cells, src),
    decreases items.len(),
{
    if items.len() > 0 {
        every_field_is(env, cells, env.len());
        assert(env.take(env.len() as int) =~= env);
        items_shown(items.drop_last(), env, cells, src);
        assert(lower_items(items).drop_last() =~= lower_items(items.drop_last()));
    }
}

/// What is done with the rows of a query.
spec fn query_sink(s: SelectStmtView, limit: Option<usize>) -> SinkView {
    let row = SinkView::Row { items: Some(lower_items(s.projection)), limit };
    match s.where_clause {
        Some(predicate) => SinkView::Filter { predicate, next: Box::new(row) },
        None => row,
    }
}

/// Whether a limit is that of a query.
spec fn limits(s: SelectStmtView, limit: Option<usize>) -> bool {
    match s.limit {
        Some(e) => limit_of(e) is Ok && limit == Some(limit_of(e)->Ok_0),
        None => limit is None,
    }
}

/// One combination more.
proof fn fed_row(
    s: SelectStmtView,
    limit: Option<usize>,
    env: Seq<RowSourceView>,
    cells: Seq<CellView>,
    src: Source,
    out: Seq<Seq<DataView>>,
)
    requires
        limits(s, limit),
    ensures
        fed(query_sink(s, limit), env, cells, src, out) == (match shown_row(
            s.projection,
            env,
            cells,
            src,
        ) {
            Some(row) => if (s.where_clause matches Some(e) ==> holds(e, env, cells, src))
                && has_room(s, out.len()) {
                out.push(row)
            } else {
                out
            },
            None => out,
        }),
{
    items_shown(s.projection, env, cells, src);
    let row = SinkView::Row { items: Some(lower_items(s.projection)), limit };
    assert(fed(row, env, cells, src, out) == given_out(
        Some(lower_items(s.projection)),
        env,
        cells,
        limit,
        src.reals,
        out,
    ));
    match s.where_clause {
        Some(e) => {
            assert(query_sink(s, limit) == (SinkView::Filter {
                predicate: e,
                next: Box::new(row),
            }));
        },
        None => {},
    }
}

/// The rows that a plan of joins gives to a query.
proof fn poured_rows(
    s: SelectStmtView,
    t: TableRefView,
    limit: Option<usize>,
    p: PhysicalPlanView,
    a: Arrangement,
    cs: Seq<Seq<CellView>>,
    src: Source,
    env: Seq<RowSourceView>,
)
    requires
        s.from == Some(t),
        limits(s, limit),
        arranged(p, t, t.joins.len(), a, src),
    ensures
        poured(cs, p, env, 0, seq![], query_sink(s, limit), src, seq![]) == rows_among(
            s,
            a,
            env,
            cs,
            src,
        ),
    decreases cs.len(),
{
    if cs.len() > 0 {
        poured_rows(s, t, limit, p, a, cs.drop_last(), src, env);
        let o = rows_among(s, a, env, cs.drop_last(), src);
        let c = cs.last();
        assert(Seq::<CellView>::empty() + c =~= c);
        fed_row(s, limit, env, c, src, o);
        assert(passes(p, env, 0, c, src) == joins_hold(
            t,
            t.joins.len(),
            a.scopes,
            env,
            0,
            c,
            src,
        ));
        if wanted(s, a, env, c, src) {
            assert(joins_hold(t, t.joins.len(), a.scopes, env, 0, c, src));
        }
        if joins_hold(t, t.joins.len(), a.scopes, env, 0, c, src) {
            assert forall|k: int| 0 <= k < t.joins.len() implies belong(
                (#[trigger] t.joins[k]).constraint,
                env,
                a.scopes[k].0,
                a.scopes[k].1,
                c,
                src,
            ) by {
                assert(0 + a.scopes[k].0 == a.scopes[k].0);
            }
        }
    }
}

/// The tables of a plan that joins known tables are known.
proof fn scans_known(p: PhysicalPlanView, src: Source)
    requires
        only_joins(p, src),
    ensures
        forall|i: int| 0 <= i < scans(p).len() ==> (src.cat)((#[trigger] scans(p)[i]).0) is Some,
    decreases p,
{
    match p.node {
        PhysicalPlanNodeView::NestedLoopJoin { join_type, constraint, left, right } => {
            scans_known(*left, src);
            scans_known(*right, src);
        },
        PhysicalPlanNodeView::HashJoin { join_type, constraint, left, right } => {
            scans_known(*left, src);
            scans_known(*right, src);
        },
        _ => {},
    }
}

/// What a query reads its rows from.
spec fn query_source(s: SelectStmtView) -> RelationExprView {
    match s.from {
        Some(t) => joined(t, t.joins.len()),
        None => RelationExprView::OneRow,
    }
}

/// A plan that answers what a query reads from, below its condition.
proof fn source_rows(
    s: SelectStmtView,
    limit: Option<usize>,
    p: PhysicalPlanView,
    src: Source,
    c: CodeView,
) -> (a: Arrangement)
    requires
        limits(s, limit),
        s.from matches Some(t) ==> joined_in_a_row(t) && t.joins.len() < usize::MAX
            && lower_table(t) is Ok,
        answers(p, query_source(s)),
        rows_code(p, seq![], query_sink(s, limit), src.cat, c) is Ok,
    ensures
        arranges(a, s),
        found_by(p, seq![], seq![], query_sink(s, limit), src, seq![]) == query_rows(s, a, src),
        tables_known(s, src),
{
    let none = Seq::<RowSourceView>::empty();
    let no_cells = Seq::<CellView>::empty();
    match s.from {
        Some(t) => {
            joins_plan(p, t, t.joins.len(), none, query_sink(s, limit), src, c);
            let a = plan_arranged(p, t, t.joins.len(), src);
            plan_pours(p, none, no_cells, query_sink(s, limit), src, seq![]);
            assert(scans(p) =~= a.tables(t));
            scans_known(p, src);
            all_there(a.order, t.joins.len());
            assert forall|k: int| 0 <= k < named_tables(t).len() implies (src.cat)(
                (#[trigger] named_tables(t)[k]).0,
            ) is Some by {
                assert(a.order.contains(k));
                let i = choose|i: int| 0 <= i < a.order.len() && a.order[i] == k;
                assert(scans(p)[i] == named_tables(t)[k]);
            }
            assert(none + scope_from(scans(p), 0, src) =~= scope_of(a.tables(t), src));
            poured_rows(
                s,
                t,
                limit,
                p,
                a,
                choices(scans(p), src),
                src,
                scope_of(a.tables(t), src),
            );
            a
        },
        None => {
            let a = Arrangement { order: seq![], scopes: seq![] };
            match p.node {
                PhysicalPlanNodeView::Filter { predicate, input } => {
                    let base = choose|base: RelationExprView| #[trigger]
                        selects(predicate, base, RelationExprView::OneRow) && answers(*input, base);
                    selects_a_selection(predicate, base, RelationExprView::OneRow);
                },
                _ => {},
            }
            let l = tables_in(s, a);
            let env = scope_of(l, src);
            let cs = combinations(Seq::new(l.len(), |i: int| rows_of(l[i], src)));
            assert(env =~= none);
            assert(cs =~= seq![no_cells]);
            assert(cs.drop_last() =~= seq![]);
            assert(rows_among(s, a, env, cs.drop_last(), src) =~= seq![]);
            fed_row(s, limit, none, no_cells, src, seq![]);
            a
        },
    }
}

/// The rows that a query gives out are those that it asks for: of all combinations of a
/// row of each of its tables, in some order of the tables, those on which the condition
/// behind WHERE and those of all joins hold, up to the limit, each with the columns that
/// were asked for. All its tables are known.
pub proof fn query_gives_rows(
    s: SelectStmtView,
    known: Answers,
    src: Source,
    a: VMInstance,
    fin: VMInstance,
    n: nat,
)
    requires
        select_program(s, src.cat, known) matches Ok(Ok(ops)) && {
            &&& ops.len() <= usize::MAX
            &&& goes(ops, a, fin, src.reals, n)
        },
        knows(a, src),
        at_start(a),
        s.from matches Some(t) ==> joined_in_a_row(t) && t.joins.len() < usize::MAX,
        inserted(lower_select(s)->Ok_0, seq![]).0.len() <= usize::MAX,
    ensures
        exists|arr: Arrangement| #[trigger]
            arranges(arr, s) && fin.rows() == query_rows(s, arr, src),
        tables_known(s, src),
{
    let rel = lower_select(s)->Ok_0;
    let p = usual_plan(known, rel)->Ok_0.0->0;
    let cfg = crate::sql::cost::usual_config();
    best_plan_answers(
        known,
        cfg,
        rel,
        crate::sql::optimize::nothing_asked(),
        cfg.initial_upper_bound,
    );
    assert(answers(p, rel));
    plan_gives_rows(p, false, src, a, fin, n);
    let from = query_source(s);
    let chosen = match s.where_clause {
        Some(predicate) => RelationExprView::Selection { input: Box::new(from), predicate },
        None => from,
    };
    let shown = RelationExprView::Projection {
        input: Box::new(chosen),
        items: lower_items(s.projection),
    };
    let (q, limit) = peeled(p, None)->Ok_0;
    shown_plan(s, p, shown, rel);
    match q.node {
        PhysicalPlanNodeView::Project { items, input } => {
            assert(answers(*input, chosen));
            let arr = chosen_rows(s, limit, *input, src, CodeView::empty());
            assert(arranges(arr, s));
        },
        _ => {},
    }
}

/// A plan that answers what a query reads from, with its condition.
proof fn chosen_rows(
    s: SelectStmtView,
    limit: Option<usize>,
    p: PhysicalPlanView,
    src: Source,
    c: CodeView,
) -> (a: Arrangement)
    requires
        lower_select(s) is Ok,
        limits(s, limit),
        s.from matches Some(t) ==> joined_in_a_row(t) && t.joins.len() < usize::MAX,
        answers(
            p,
            match s.where_clause {
                Some(predicate) => RelationExprView::Selection {
                    input: Box::new(query_source(s)),
                    predicate,
                },
                None => query_source(s),
            },
        ),
        rows_code(
            p,
            seq![],
            SinkView::Row { items: Some(lower_items(s.projection)), limit },
            src.cat,
            c,
        ) is Ok,
    ensures
        arranges(a, s),
        found_by(
            p,
            seq![],
            seq![],
            SinkView::Row { items: Some(lower_items(s.projection)), limit },
            src,
            seq![],
        ) == query_rows(s, a, src),
        tables_known(s, src),
{
    let row = SinkView::Row { items: Some(lower_items(s.projection)), limit };
    match s.where_clause {
        Some(e) => {
            let chosen = RelationExprView::Selection {
                input: Box::new(query_source(s)),
                predicate: e,
            };
            match p.node {
                PhysicalPlanNodeView::Filter { predicate, input } => {
                    let base = choose|base: RelationExprView| #[trigger]
                        selects(predicate, base, chosen) && answers(*input, base);
                    from_is_no_selection(s);
                    selects_a_selection(predicate, base, chosen);
                    source_rows(s, limit, *input, src, c)
                },
                _ => Arrangement { order: seq![], scopes: seq![] },
            }
        },
        None => source_rows(s, limit, p, src, c),
    }
}

proof fn from_is_no_selection(s: SelectStmtView)
    requires
        lower_select(s) is Ok,
    ensures
        !(query_source(s) is Selection),
{
}

/// Below its limit, a plan for a query shows its columns.
proof fn shown_plan(
    s: SelectStmtView,
    p: PhysicalPlanView,
    shown: RelationExprView,
    rel: RelationExprView,
)
    requires
        answers(p, rel),
        peeled(p, None) is Ok,
        lower_select(s) == Ok::<RelationExprView, Seq<char>>(rel),
        shown is Projection,
        rel == ({
            let ordered = if s.order_by.len() > 0 {
                RelationExprView::Order { input: Box::new(shown), items: s.order_by }
            } else {
                shown
            };
            match s.limit {
                Some(count) => RelationExprView::Limit { input: Box::new(ordered), count },
                None => ordered,
            }
        }),
    ensures
        limits(s, peeled(p, None)->Ok_0.1),
        answers(peeled(p, None)->Ok_0.0, shown),
        peeled(p, None)->Ok_0.0.node is Project,
{
    let ordered = if s.order_by.len() > 0 {
        RelationExprView::Order { input: Box::new(shown), items: s.order_by }
    } else {
        shown
    };
    match s.limit {
        Some(count) => {
            match p.node {
                PhysicalPlanNodeView::Limit { count: c, input } => {
                    let n = limit_of(c)->Ok_0;
                    ordered_plan(s, *input, shown, ordered);
                    assert(peeled(*input, Some(n)) == Ok::<
                        (PhysicalPlanView, Option<usize>),
                        Seq<char>,
                    >((*input, Some(n))));
                },
                PhysicalPlanNodeView::Filter { predicate, input } => {
                    let base = choose|base: RelationExprView| #[trigger]
                        selects(predicate, base, rel) && answers(*input, base);
                    selects_a_selection(predicate, base, rel);
                },
                _ => {},
            }
        },
        None => {
            ordered_plan(s, p, shown, ordered);
        },
    }
}

proof fn ordered_plan(
    s: SelectStmtView,
    p: PhysicalPlanView,
    shown: RelationExprView,
    ordered: RelationExprView,
)
    requires
        answers(p, ordered),
        !(p.node is Sort),
        shown is Projection,
        ordered == shown || ordered == (RelationExprView::Order {
            input: Box::new(shown),
            items: s.order_by,
        }),
    ensures
        answers(p, shown),
        p.node is Project,
{
    match p.node {
        PhysicalPlanNodeView::Filter { predicate, input } => {
            if ordered is Order {
                if !answers(p, shown) {
                    let base = choose|base: RelationExprView| #[trigger]
                        selects(predicate, base, ordered) && answers(*input, base);
                    selects_a_selection(predicate, base, ordered);
                }
            }
            let base = choose|base: RelationExprView| #[trigger]
                selects(predicate, base, shown) && answers(*input, base);
            selects_a_selection(predicate, base, shown);
        },
        _ => {},
    }
}

// -- Each row and each combination -----------------------------

/// Whether cells are a row of each of some tables.
pub open spec fn is_combination(c: Seq<CellView>, l: Seq<Named>, src: Source) -> bool {
    c.len() == l.len() && forall|i: int|
        0 <= i < l.len() ==> rows_of(l[i], src).contains(#[trigger] c[i])
}

proof fn each_has(a: Seq<Seq<CellView>>, b: Seq<Seq<CellView>>, x: Seq<CellView>)
    ensures
        each_with_each(a, b).contains(x) <==> exists|i: int, j: int|
            0 <= i < a.len() && 0 <= j < b.len() && x == #[trigger] a[i] + #[trigger] b[j],
    decreases a.len(),
{
    let r = each_with_each(a, b);
    if a.len() > 0 {
        let d = a.drop_last();
        let u = each_with_each(d, b);
        let v = with_first(a.last(), b);
        each_has(d, b, x);
        let n = a.len() - 1;
        if r.contains(x) {
            let k = choose|k: int| 0 <= k < r.len() && r[k] == x;
            if k < u.len() {
                assert(u[k] == x);
                let (i, j) = choose|i: int, j: int|
                    0 <= i < d.len() && 0 <= j < b.len() && x == #[trigger] d[i] + #[trigger] b[j];
                assert(x == a[i] + b[j]);
            } else {
                assert(v[k - u.len()] == x);
                assert(x == a[n] + b[k - u.len()]);
            }
        }
        if exists|i: int, j: int|
            0 <= i < a.len() && 0 <= j < b.len() && x == #[trigger] a[i] + #[trigger] b[j] {
            let (i, j) = choose|i: int, j: int|
                0 <= i < a.len() && 0 <= j < b.len() && x == #[trigger] a[i] + #[trigger] b[j];
            if i < n {
                assert(x == d[i] + b[j]);
                let k = choose|k: int| 0 <= k < u.len() && u[k] == x;
                assert(r[k] == x);
            } else {
                assert(v[j] == x);
                assert(r[u.len() + j] == x);
            }
        }
    }
}

/// All combinations are those of a row of each table, and no others.
proof fn combinations_are(l: Seq<Named>, src: Source, c: Seq<CellView>)
    ensures
        combinations(Seq::new(l.len(), |i: int| rows_of(l[i], src))).contains(c)
            <==> is_combination(c, l, src),
    decreases l.len(),
{
    let rows = Seq::new(l.len(), |i: int| rows_of(l[i], src));
    if l.len() == 0 {
        let none = seq![Seq::<CellView>::empty()];
        assert(combinations(rows) =~= none);
        if is_combination(c, l, src) {
            assert(c =~= seq![]);
            assert(none[0] == c);
        }
    } else {
        let d = l.drop_last();
        let n = l.len() - 1;
        assert(rows.drop_last() =~= Seq::new(d.len(), |i: int| rows_of(d[i], src)));
        let last = rows_of(l[n], src);
        assert(rows.last() == last);
        let a = combinations(rows.drop_last());
        let b = Seq::new(rows.last().len(), |i: int| seq![rows.last()[i]]);
        each_has(a, b, c);
        if combinations(rows).contains(c) {
            let (i, j) = choose|i: int, j: int|
                0 <= i < a.len() && 0 <= j < b.len() && c == #[trigger] a[i] + #[trigger] b[j];
            assert(a.contains(a[i]));
            combinations_are(d, src, a[i]);
            assert(c.len() == l.len());
            assert forall|k: int| 0 <= k < l.len() implies rows_of(l[k], src).contains(
                #[trigger] c[k],
            ) by {
                if k < n {
                    assert(c[k] == a[i][k]);
                    assert(d[k] == l[k]);
                } else {
                    assert(c[k] == b[j][0]);
                    assert(last[j] == c[k]);
                }
            }
        }
        if is_combination(c, l, src) {
            let x = c.drop_last();
            assert forall|k: int| 0 <= k < d.len() implies rows_of(d[k], src).contains(
                #[trigger] x[k],
            ) by {
                assert(x[k] == c[k]);
                assert(d[k] == l[k]);
            }
            combinations_are(d, src, x);
            let i = choose|i: int| 0 <= i < a.len() && a[i] == x;
            assert(last.contains(c[n]));
            let j = choose|j: int| 0 <= j < last.len() && last[j] == c[n];
            assert(b[j] =~= seq![c[n]]);
            assert(c =~= a[i] + b[j]);
        }
    }
}

/// Whether a row is what a query makes of a combination on which its conditions hold.
pub open spec fn makes(
    s: SelectStmtView,
    a: Arrangement,
    env: Seq<RowSourceView>,
    src: Source,
    c: Seq<CellView>,
    row: Seq<DataView>,
) -> bool {
    wanted(s, a, env, c, src) && shown_row(s.projection, env, c, src) == Some(row)
}

spec fn made_among(
    s: SelectStmtView,
    a: Arrangement,
    env: Seq<RowSourceView>,
    src: Source,
    cs: Seq<Seq<CellView>>,
    row: Seq<DataView>,
) -> bool {
    exists|k: int| 0 <= k < cs.len() && makes(s, a, env, src, #[trigger] cs[k], row)
}

proof fn rows_among_are(
    s: SelectStmtView,
    a: Arrangement,
    env: Seq<RowSourceView>,
    cs: Seq<Seq<CellView>>,
    src: Source,
)
    ensures
        forall|i: int|
            0 <= i < rows_among(s, a, env, cs, src).len() ==> made_among(
                s,
                a,
                env,
                src,
                cs,
                #[trigger] rows_among(s, a, env, cs, src)[i],
            ),
        forall|k: int, row: Seq<DataView>|
            0 <= k < cs.len() && #[trigger] makes(s, a, env, src, cs[k], row) && has_room(
                s,
                rows_among(s, a, env, cs, src).len(),
            ) ==> rows_among(s, a, env, cs, src).contains(row),
    decreases cs.len(),
{
    let r = rows_among(s, a, env, cs, src);
    if cs.len() > 0 {
        let d = cs.drop_last();
        let n = cs.len() - 1;
        let before = rows_among(s, a, env, d, src);
        rows_among_are(s, a, env, d, src);
        assert(cs[n] == cs.last());
        assert forall|i: int| 0 <= i < r.len() implies made_among(
            s,
            a,
            env,
            src,
            cs,
            #[trigger] r[i],
        ) by {
            if i < before.len() {
                assert(before[i] == r[i]);
                let k = choose|k: int|
                    0 <= k < d.len() && makes(s, a, env, src, #[trigger] d[k], before[i]);
                assert(cs[k] == d[k]);
            } else {
                assert(makes(s, a, env, src, cs[n], r[i]));
            }
        }
        assert forall|k: int, row: Seq<DataView>|
            0 <= k < cs.len() && #[trigger] makes(s, a, env, src, cs[k], row) && has_room(
                s,
                r.len(),
            ) implies r.contains(row) by {
            assert(has_room(s, before.len()));
            if k < n {
                assert(d[k] == cs[k]);
                assert(makes(s, a, env, src, d[k], row));
                assert(before.contains(row));
                let i = choose|i: int| 0 <= i < before.len() && before[i] == row;
                assert(r[i] == row);
            } else {
                assert(r[before.len() as int] == row);
            }
        }
    }
}

/// Whether a row is made of a row of each table of a query.
pub open spec fn is_answer(
    s: SelectStmtView,
    a: Arrangement,
    src: Source,
    row: Seq<DataView>,
) -> bool {
    exists|c: Seq<CellView>| #[trigger]
        is_combination(c, tables_in(s, a), src) && makes(
            s,
            a,
            scope_of(tables_in(s, a), src),
            src,
            c,
            row,
        )
}

/// Each row that a query gives out comes from a row of each of its tables on which the
/// condition behind WHERE and those of all joins hold; and while there is room below the
/// limit, what each such combination of rows makes is given out.
pub proof fn query_rows_are(s: SelectStmtView, a: Arrangement, src: Source)
    ensures
        forall|i: int|
            0 <= i < query_rows(s, a, src).len() ==> is_answer(
                s,
                a,
                src,
                #[trigger] query_rows(s, a, src)[i],
            ),
        forall|row: Seq<DataView>| #[trigger]
            is_answer(s, a, src, row) && has_room(s, query_rows(s, a, src).len()) ==> query_rows(
                s,
                a,
                src,
            ).contains(row),
{
    let l = tables_in(s, a);
    let env = scope_of(l, src);
    let cs = combinations(Seq::new(l.len(), |i: int| rows_of(l[i], src)));
    let rows = query_rows(s, a, src);
    rows_among_are(s, a, env, cs, src);
    assert forall|i: int| 0 <= i < rows.len() implies is_answer(s, a, src, #[trigger] rows[i]) by {
        assert(made_among(s, a, env, src, cs, rows[i]));
        let k = choose|k: int|
            0 <= k < cs.len() && makes(s, a, env, src, #[trigger] cs[k], rows[i]);
        assert(cs.contains(cs[k]));
        combinations_are(l, src, cs[k]);
    }
    assert forall|row: Seq<DataView>| #[trigger]
        is_answer(s, a, src, row) && has_room(s, rows.len()) implies rows.contains(row) by {
        let c = choose|c: Seq<CellView>| #[trigger]
            is_combination(c, l, src) && makes(s, a, env, src, c, row);
        combinations_are(l, src, c);
        let k = choose|k: int| 0 <= k < cs.len() && cs[k] == c;
        assert(makes(s, a, env, src, cs[k], row));
    }
}

/// A query gives out no more rows than its limit says.
pub proof fn query_rows_limited(s: SelectStmtView, a: Arrangement, src: Source)
    requires
        s.limit matches Some(e) && e matches ExprView::Literal(LiteralView::Integer(m)) && m >= 0,
    ensures
        s.limit matches Some(e) && e matches ExprView::Literal(LiteralView::Integer(m))
            && query_rows(s, a, src).len() <= m,
{
    let l = tables_in(s, a);
    rows_limited(
        s,
        a,
        scope_of(l, src),
        combinations(Seq::new(l.len(), |i: int| rows_of(l[i], src))),
        src,
    );
}

proof fn rows_limited(
    s: SelectStmtView,
    a: Arrangement,
    env: Seq<RowSourceView>,
    cs: Seq<Seq<CellView>>,
    src: Source,
)
    requires
        s.limit matches Some(e) && e matches ExprView::Literal(LiteralView::Integer(m)) && m >= 0,
    ensures
        s.limit matches Some(e) && e matches ExprView::Literal(LiteralView::Integer(m))
            && rows_among(s, a, env, cs, src).len() <= m,
    decreases cs.len(),
{
    if cs.len() > 0 {
        rows_limited(s, a, env, cs.drop_last(), src);
    }
}

} // verus!
