//! Operations without jumps: how they make a program grow, and what they compute.
use vstd::prelude::*;

use crate::engine::node::CellView;
use crate::engine::value::DataView;
use crate::sql::ast::{ColumnRefView, ExprView, JoinConstraintView};
use crate::sql::evaluation::{
    code_longer, entries_of, evaluated, expr_code_grows, expression_computed, field, one_value,
    only_registers, runs_one, runs_split, runs_through, same_value,
};
use crate::sql::operations::OperationView;
use crate::sql::planner::{
    all_columns, column_read, columns_code, constraint_code, items_code, pair_code, using_code,
};
use crate::sql::program::{
    columns_named, expr_code, on_transaction, only_column, scope_column, target_of, CodeView,
    ResolvedColumn, RowSourceView, ScopeView,
};
use crate::sql::reals::{OutcomeView, RealAnswers};
use crate::sql::relation::ProjectionItemView;
use crate::sql::results::{
    all_fields, belonging, entry_of, equal_columns, fields, item_values, value_on,
};
use crate::sql::values::{tested, truth, truthy, Test};
use crate::sql::vm::{written, VMInstance};

verus! {

/// Whether `d` is `c` with more operations, none of which jumps or halts.
pub open spec fn straight(c: CodeView, d: CodeView) -> bool {
    &&& c.ops.len() <= d.ops.len()
    &&& d.labels == c.labels
    &&& d.cursors == c.cursors
    &&& c.registers <= d.registers <= d.ops.len()
    &&& forall|i: int| 0 <= i < c.ops.len() ==> #[trigger] d.ops[i] == c.ops[i]
    &&& forall|i: int|
        c.ops.len() <= i < d.ops.len() ==> target_of(#[trigger] d.ops[i]) is None && !(
        d.ops[i] is Halt) && !on_transaction(d.ops[i])
}

/// Whether registers, cursors and operations of a program can be counted.
pub open spec fn countable(c: CodeView) -> bool {
    c.registers <= c.ops.len() <= usize::MAX && c.cursors <= c.ops.len()
}

/// Growth without jumps adds up.
pub proof fn straight_twice(a: CodeView, b: CodeView, c: CodeView)
    requires
        straight(a, b),
        straight(b, c),
    ensures
        straight(a, c),
{
    assert forall|i: int| 0 <= i < a.ops.len() implies #[trigger] c.ops[i] == a.ops[i] by {
        assert(b.ops[i] == a.ops[i]);
    }
    assert forall|i: int| a.ops.len() <= i < c.ops.len() implies target_of(
        #[trigger] c.ops[i],
    ) is None && !(c.ops[i] is Halt) && !on_transaction(c.ops[i]) by {
        if i < b.ops.len() {
            assert(c.ops[i] == b.ops[i]);
        }
    }
}

/// The operations for an expression do not jump.
pub proof fn expr_straight(e: ExprView, sc: ScopeView, c: CodeView)
    requires
        countable(c),
        expr_code(e, sc, c) matches Ok(x) && x.0.ops.len() <= usize::MAX,
    ensures
        straight(c, expr_code(e, sc, c)->Ok_0.0),
    decreases e,
{
    match e {
        ExprView::Unary { op, expr } => {
            code_longer(*expr, sc, c);
            expr_straight(*expr, sc, c);
            let d = expr_code(*expr, sc, c)->Ok_0.0;
            let f = expr_code(e, sc, c)->Ok_0.0;
            if f != d {
                assert(straight(d, f));
            } else {
                assert(straight(d, d));
            }
            straight_twice(c, d, f);
        },
        ExprView::Binary { left, op, right } => {
            code_longer(*left, sc, c);
            let d = expr_code(*left, sc, c)->Ok_0.0;
            code_longer(*right, sc, d);
            expr_straight(*left, sc, c);
            expr_straight(*right, sc, d);
            let f = expr_code(*right, sc, d)->Ok_0.0;
            let g = expr_code(e, sc, c)->Ok_0.0;
            assert(straight(f, g));
            straight_twice(c, d, f);
            straight_twice(c, f, g);
        },
        _ => {},
    }
}

/// Reading columns does not jump.
pub proof fn columns_straight(cursor_id: usize, n: nat, c: CodeView)
    requires
        countable(c),
        columns_code(cursor_id, n, c).0.ops.len() <= usize::MAX,
    ensures
        straight(c, columns_code(cursor_id, n, c).0),
        columns_code(cursor_id, n, c).0.ops.len() == c.ops.len() + n,
        columns_code(cursor_id, n, c).0.registers == c.registers + n,
        columns_code(cursor_id, n, c).1.len() == n,
        forall|k: int|
            0 <= k < n ==> #[trigger] columns_code(cursor_id, n, c).1[k] == c.registers + k,
    decreases n,
{
    columns_longer(cursor_id, n, c);
    if n > 0 {
        columns_longer(cursor_id, (n - 1) as nat, c);
        columns_straight(cursor_id, (n - 1) as nat, c);
        let d = columns_code(cursor_id, (n - 1) as nat, c).0;
        let f = columns_code(cursor_id, n, c).0;
        assert(straight(d, f));
        straight_twice(c, d, f);
    }
}

proof fn columns_longer(cursor_id: usize, n: nat, c: CodeView)
    ensures
        columns_code(cursor_id, n, c).0.ops.len() == c.ops.len() + n,
    decreases n,
{
    if n > 0 {
        columns_longer(cursor_id, (n - 1) as nat, c);
    }
}

/// Reading all columns does not jump.
pub proof fn all_columns_straight(env: Seq<RowSourceView>, c: CodeView)
    requires
        countable(c),
        all_columns(env, c).0.ops.len() <= usize::MAX,
    ensures
        straight(c, all_columns(env, c).0),
    decreases env.len(),
{
    if env.len() > 0 {
        let d = all_columns(env.drop_last(), c).0;
        let s = env.last();
        columns_longer(s.cursor_id, s.columns.len(), d);
        all_columns_straight(env.drop_last(), c);
        columns_straight(s.cursor_id, s.columns.len(), d);
        straight_twice(c, d, all_columns(env, c).0);
    }
}

pub proof fn all_columns_longer(env: Seq<RowSourceView>, c: CodeView)
    ensures
        c.ops.len() <= all_columns(env, c).0.ops.len(),
    decreases env.len(),
{
    if env.len() > 0 {
        let d = all_columns(env.drop_last(), c).0;
        columns_longer(env.last().cursor_id, env.last().columns.len(), d);
        all_columns_longer(env.drop_last(), c);
    }
}

pub proof fn items_longer(items: Seq<ProjectionItemView>, env: Seq<RowSourceView>, c: CodeView)
    ensures
        items_code(items, env, c) matches Ok(x) ==> c.ops.len() <= x.0.ops.len(),
    decreases items.len(),
{
    if items.len() > 0 {
        items_longer(items.drop_last(), env, c);
        if let Ok((d, regs)) = items_code(items.drop_last(), env, c) {
            match items.last() {
                ProjectionItemView::Expr { expr, alias } => {
                    code_longer(expr, ScopeView::Sources(env), d);
                },
                ProjectionItemView::Wildcard => {
                    all_columns_longer(env, d);
                },
            }
        }
    }
}

/// Computing the columns of a result does not jump.
pub proof fn items_straight(items: Seq<ProjectionItemView>, env: Seq<RowSourceView>, c: CodeView)
    requires
        countable(c),
        items_code(items, env, c) matches Ok(x) && x.0.ops.len() <= usize::MAX,
    ensures
        straight(c, items_code(items, env, c)->Ok_0.0),
    decreases items.len(),
{
    if items.len() > 0 {
        items_longer(items.drop_last(), env, c);
        let d = items_code(items.drop_last(), env, c)->Ok_0.0;
        let f = items_code(items, env, c)->Ok_0.0;
        match items.last() {
            ProjectionItemView::Expr { expr, alias } => {
                code_longer(expr, ScopeView::Sources(env), d);
                items_straight(items.drop_last(), env, c);
                expr_straight(expr, ScopeView::Sources(env), d);
            },
            ProjectionItemView::Wildcard => {
                all_columns_longer(env, d);
                items_straight(items.drop_last(), env, c);
                all_columns_straight(env, d);
            },
        }
        straight_twice(c, d, f);
    }
}

proof fn using_longer(columns: Seq<Seq<char>>, env: Seq<RowSourceView>, left: int, c: CodeView)
    ensures
        using_code(columns, env, left, c) matches Ok(x) ==> c.ops.len() <= x.0.ops.len(),
    decreases columns.len(),
{
    if columns.len() > 0 {
        using_longer(columns.drop_last(), env, left, c);
    }
}

proof fn pair_straight(
    p: ResolvedColumn,
    q: ResolvedColumn,
    current: Option<usize>,
    c: CodeView,
)
    requires
        countable(c),
        pair_code(p, q, current, c).0.ops.len() <= usize::MAX,
    ensures
        straight(c, pair_code(p, q, current, c).0),
{
}

/// Comparing columns does not jump.
pub proof fn using_straight(
    columns: Seq<Seq<char>>,
    env: Seq<RowSourceView>,
    left: int,
    c: CodeView,
)
    requires
        countable(c),
        using_code(columns, env, left, c) matches Ok(x) && x.0.ops.len() <= usize::MAX,
    ensures
        straight(c, using_code(columns, env, left, c)->Ok_0.0),
    decreases columns.len(),
{
    if columns.len() > 0 {
        let (d, current) = using_code(columns.drop_last(), env, left, c)->Ok_0;
        let name = columns.last();
        let kind = "USING column"@;
        let p = only_column(columns_named(env.subrange(0, left), None, name), kind, name)->Ok_0;
        let q = only_column(
            columns_named(env.subrange(left, env.len() as int), None, name),
            kind,
            name,
        )->Ok_0;
        using_longer(columns.drop_last(), env, left, c);
        using_straight(columns.drop_last(), env, left, c);
        pair_straight(p, q, current, d);
        straight_twice(c, d, using_code(columns, env, left, c)->Ok_0.0);
    }
}

/// Deciding whether rows belong together does not jump.
pub proof fn constraint_straight(
    constraint: JoinConstraintView,
    env: Seq<RowSourceView>,
    left: int,
    c: CodeView,
)
    requires
        countable(c),
        constraint_code(constraint, env, left, c) matches Ok(x) && x.0.ops.len() <= usize::MAX,
    ensures
        straight(c, constraint_code(constraint, env, left, c)->Ok_0.0),
{
    match constraint {
        JoinConstraintView::Unconstrained => {},
        JoinConstraintView::On(e) => {
            expr_straight(e, ScopeView::Sources(env), c);
        },
        JoinConstraintView::Using(columns) => {
            using_straight(columns, env, left, c);
        },
    }
}

/// The operations of a program are not fewer than before.
pub proof fn constraint_longer(
    constraint: JoinConstraintView,
    env: Seq<RowSourceView>,
    left: int,
    c: CodeView,
)
    ensures
        constraint_code(constraint, env, left, c) matches Ok(x) ==> c.ops.len() <= x.0.ops.len(),
{
    match constraint {
        JoinConstraintView::Unconstrained => {},
        JoinConstraintView::On(e) => {
            code_longer(e, ScopeView::Sources(env), c);
        },
        JoinConstraintView::Using(columns) => {
            using_longer(columns, env, left, c);
        },
    }
}


// -- Values ----------------------------------------------------

/// Whether cursor `k` of a machine is at entry `k`, for each table.
pub open spec fn stands_at(a: VMInstance, env: Seq<RowSourceView>, cells: Seq<CellView>) -> bool {
    &&& env.len() == cells.len()
    &&& env.len() <= usize::MAX
    &&& forall|k: int|
        0 <= k < env.len() ==> (#[trigger] env[k]).cursor_id == k && a.entry(k as usize) == Some(
            cells[k],
        )
}

/// Changes to registers add up.
pub proof fn registers_join(a: VMInstance, m: VMInstance, b: VMInstance, n: int, k: int)
    requires
        only_registers(a, m, n),
        only_registers(m, b, k),
        n <= k,
    ensures
        only_registers(a, b, n),
{
    assert forall|i: int| 0 <= i < n && i < a.regs().len() implies #[trigger] b.regs()[i]
        == a.regs()[i] by {
        assert(m.regs()[i] == a.regs()[i]);
    }
}

/// Registers stay.
pub proof fn register_stays(a: VMInstance, b: VMInstance, n: int, reg: usize)
    requires
        only_registers(a, b, n),
        reg < n,
        a.reg(reg) is Some,
    ensures
        b.reg(reg) == a.reg(reg),
{
    assert(b.regs()[reg as int] == a.regs()[reg as int]);
}

/// Registers that change do not move cursors.
pub proof fn still_stands(
    a: VMInstance,
    b: VMInstance,
    n: int,
    env: Seq<RowSourceView>,
    cells: Seq<CellView>,
)
    requires
        only_registers(a, b, n),
        stands_at(a, env, cells),
    ensures
        stands_at(b, env, cells),
{
    assert forall|k: int| 0 <= k < env.len() implies (#[trigger] env[k]).cursor_id == k && b.entry(
        k as usize,
    ) == Some(cells[k]) by {
        assert(a.entry(k as usize) == Some(cells[k]));
    }
}

/// Columns that are found are columns of the tables.
proof fn named_in(sources: Seq<RowSourceView>, table: Option<Seq<char>>, name: Seq<char>, lo: int)
    requires
        forall|k: int| 0 <= k < sources.len() ==> (#[trigger] sources[k]).cursor_id == lo + k,
    ensures
        forall|i: int|
            0 <= i < columns_named(sources, table, name).len() ==> lo <= (
            #[trigger] columns_named(sources, table, name)[i]).cursor_id < lo + sources.len(),
    decreases sources.len(),
{
    if sources.len() > 0 {
        let s = sources.drop_last();
        assert forall|k: int| 0 <= k < s.len() implies (#[trigger] s[k]).cursor_id == lo + k by {
            assert(s[k] == sources[k]);
        }
        named_in(s, table, name, lo);
        assert(sources.last() == sources[sources.len() - 1]);
        let b = columns_named(s, table, name);
        let all = columns_named(sources, table, name);
        assert forall|i: int| 0 <= i < all.len() implies lo <= (#[trigger] all[i]).cursor_id < lo
            + sources.len() by {
            if i < b.len() {
                assert(all[i] == b[i]);
                assert(lo <= b[i].cursor_id < lo + s.len());
            }
        }
    }
}

/// The value of an expression on a machine is that on the entries its cursors are
/// at.
pub proof fn value_there(
    e: ExprView,
    env: Seq<RowSourceView>,
    cells: Seq<CellView>,
    a: VMInstance,
    r: RealAnswers,
)
    requires
        stands_at(a, env, cells),
    ensures
        evaluated(e, ScopeView::Sources(env), entries_of(a), r) == value_on(e, env, cells, r),
{
    let sc = ScopeView::Sources(env);
    assert forall|column: ColumnRefView|
        (#[trigger] scope_column(sc, column)) is Ok implies entries_of(a)(
        scope_column(sc, column)->Ok_0.cursor_id,
    ) == entry_of(cells)(scope_column(sc, column)->Ok_0.cursor_id) by {
        named_in(env, column.table, column.name, 0);
        let p = scope_column(sc, column)->Ok_0;
        assert(columns_named(env, column.table, column.name)[0] == p);
        assert(env[p.cursor_id as int].cursor_id == p.cursor_id);
    }
    same_value(e, sc, entries_of(a), entry_of(cells), r);
}

/// Whether `ops` holds the operations that `d` has and `c` has not.
pub open spec fn holds_code(ops: Seq<OperationView>, c: CodeView, d: CodeView) -> bool {
    &&& d.ops.len() <= ops.len()
    &&& forall|i: int| c.ops.len() <= i < d.ops.len() ==> #[trigger] ops[i] == d.ops[i]
}

/// Reading a column leaves the field in its register.
pub proof fn column_computed(
    p: ResolvedColumn,
    ops: Seq<OperationView>,
    i: int,
    dest: usize,
    cell: CellView,
    a: VMInstance,
    b: VMInstance,
    r: RealAnswers,
)
    requires
        ops[i] == column_read(p, dest),
        a.entry(p.cursor_id) == Some(cell),
        runs_through(ops, i, i + 1, a, b, r),
    ensures
        b.reg(dest) == Some(field(cell, p.col_idx as int)),
        only_registers(a, b, dest as int),
{
    let m = runs_one(ops, i, a, b, r);
    let v = field(cell, p.col_idx as int);
    let w = written(a.regs(), dest, v);
    assert(m.regs() == w);
    assert(w[dest as int] == v);
    assert(b.registers == m.registers);
    assert(b.registers@.len() == w.len());
    assert(b.regs() == w);
    assert forall|k: int| 0 <= k < dest && k < a.regs().len() implies #[trigger] b.regs()[k]
        == a.regs()[k] by {
        assert(w[k] == a.regs()[k]);
    }
}

/// Reading columns leaves the fields in their registers.
proof fn columns_computed(
    cursor_id: usize,
    n: nat,
    c: CodeView,
    ops: Seq<OperationView>,
    cell: CellView,
    a: VMInstance,
    b: VMInstance,
    r: RealAnswers,
)
    requires
        countable(c),
        columns_code(cursor_id, n, c).0.ops.len() <= usize::MAX,
        holds_code(ops, c, columns_code(cursor_id, n, c).0),
        a.entry(cursor_id) == Some(cell),
        runs_through(
            ops,
            c.ops.len() as int,
            columns_code(cursor_id, n, c).0.ops.len() as int,
            a,
            b,
            r,
        ),
    ensures
        only_registers(a, b, c.registers as int),
        forall|k: int|
            0 <= k < n ==> b.reg(#[trigger] columns_code(cursor_id, n, c).1[k]) == Some(
                field(cell, k),
            ),
    decreases n,
{
    columns_straight(cursor_id, n, c);
    if n > 0 {
        let (d, regs) = columns_code(cursor_id, (n - 1) as nat, c);
        let (f, all) = columns_code(cursor_id, n, c);
        columns_straight(cursor_id, (n - 1) as nat, c);
        let m = runs_split(
            ops,
            c.ops.len() as int,
            d.ops.len() as int,
            f.ops.len() as int,
            a,
            b,
            r,
        );
        assert(holds_code(ops, c, d)) by {
            assert forall|i: int| c.ops.len() <= i < d.ops.len() implies #[trigger] ops[i]
                == d.ops[i] by {
                assert(ops[i] == f.ops[i]);
            }
        }
        columns_computed(cursor_id, (n - 1) as nat, c, ops, cell, a, m, r);
        let p = ResolvedColumn { cursor_id, col_idx: (n - 1) as usize };
        assert(ops[d.ops.len() as int] == f.ops[d.ops.len() as int]);
        assert(m.entry(cursor_id) == Some(cell));
        column_computed(p, ops, d.ops.len() as int, d.registers, cell, m, b, r);
        registers_join(a, m, b, c.registers as int, d.registers as int);
        assert forall|k: int| 0 <= k < n implies b.reg(#[trigger] all[k]) == Some(
            field(cell, k),
        ) by {
            if k < n - 1 {
                assert(all[k] == regs[k]);
                register_stays(m, b, d.registers as int, regs[k]);
            }
        }
    }
}

/// Registers hold a list of values.
pub open spec fn hold(a: VMInstance, regs: Seq<usize>, v: Seq<DataView>) -> bool {
    &&& regs.len() == v.len()
    &&& forall|k: int| 0 <= k < regs.len() ==> a.reg(#[trigger] regs[k]) == Some(v[k])
}

/// Whether registers are below `n`.
pub open spec fn below(regs: Seq<usize>, n: int) -> bool {
    forall|k: int| 0 <= k < regs.len() ==> #[trigger] regs[k] < n
}

/// Values in registers that do not change stay.
pub proof fn hold_stays(a: VMInstance, b: VMInstance, n: int, regs: Seq<usize>, v: Seq<DataView>)
    requires
        only_registers(a, b, n),
        hold(a, regs, v),
        below(regs, n),
    ensures
        hold(b, regs, v),
{
    assert forall|k: int| 0 <= k < regs.len() implies b.reg(#[trigger] regs[k]) == Some(v[k]) by {
        register_stays(a, b, n, regs[k]);
    }
}

/// Reading all columns leaves all fields in their registers.
proof fn all_computed(
    env: Seq<RowSourceView>,
    cells: Seq<CellView>,
    c: CodeView,
    ops: Seq<OperationView>,
    a: VMInstance,
    b: VMInstance,
    r: RealAnswers,
)
    requires
        countable(c),
        all_columns(env, c).0.ops.len() <= usize::MAX,
        holds_code(ops, c, all_columns(env, c).0),
        env.len() <= cells.len() <= usize::MAX,
        forall|k: int|
            0 <= k < env.len() ==> (#[trigger] env[k]).cursor_id == k && a.entry(k as usize)
                == Some(cells[k]),
        runs_through(
            ops,
            c.ops.len() as int,
            all_columns(env, c).0.ops.len() as int,
            a,
            b,
            r,
        ),
    ensures
        only_registers(a, b, c.registers as int),
        hold(b, all_columns(env, c).1, all_fields(env, cells)),
        below(all_columns(env, c).1, all_columns(env, c).0.registers as int),
    decreases env.len(),
{
    if env.len() > 0 {
        let e = env.drop_last();
        let s = env.last();
        let (d, regs) = all_columns(e, c);
        let (f, more) = columns_code(s.cursor_id, s.columns.len(), d);
        let (g, all) = all_columns(env, c);
        columns_longer(s.cursor_id, s.columns.len(), d);
        all_columns_longer(e, c);
        all_columns_straight(e, c);
        columns_straight(s.cursor_id, s.columns.len(), d);
        let m = runs_split(
            ops,
            c.ops.len() as int,
            d.ops.len() as int,
            f.ops.len() as int,
            a,
            b,
            r,
        );
        assert(holds_code(ops, c, d)) by {
            assert forall|i: int| c.ops.len() <= i < d.ops.len() implies #[trigger] ops[i]
                == d.ops[i] by {
                assert(ops[i] == g.ops[i]);
            }
        }
        assert forall|k: int| 0 <= k < e.len() implies (#[trigger] e[k]).cursor_id == k && a.entry(
            k as usize,
        ) == Some(cells[k]) by {
            assert(e[k] == env[k]);
        }
        all_computed(e, cells, c, ops, a, m, r);
        let last = env.len() - 1;
        assert(s == env[last]);
        assert(m.entry(s.cursor_id) == Some(cells[last]));
        columns_computed(s.cursor_id, s.columns.len(), d, ops, cells[last], m, b, r);
        registers_join(a, m, b, c.registers as int, d.registers as int);
        hold_stays(m, b, d.registers as int, regs, all_fields(e, cells));
        let v = fields(cells[last], s.columns.len());
        assert forall|k: int| 0 <= k < all.len() implies b.reg(#[trigger] all[k]) == Some(
            all_fields(env, cells)[k],
        ) && all[k] < g.registers by {
            if k < regs.len() {
                assert(all[k] == regs[k]);
            } else {
                assert(all[k] == more[k - regs.len()]);
                assert(v[k - regs.len()] == field(cells[last], k - regs.len()));
            }
        }
    } else {
        assert(runs_through(ops, c.ops.len() as int, c.ops.len() as int, a, b, r));
    }
}

/// Computing the columns of a result leaves them in their registers.
pub proof fn items_computed(
    items: Seq<ProjectionItemView>,
    env: Seq<RowSourceView>,
    cells: Seq<CellView>,
    c: CodeView,
    ops: Seq<OperationView>,
    a: VMInstance,
    b: VMInstance,
    r: RealAnswers,
)
    requires
        countable(c),
        items_code(items, env, c) matches Ok(x) && x.0.ops.len() <= usize::MAX && holds_code(
            ops,
            c,
            x.0,
        ) && runs_through(ops, c.ops.len() as int, x.0.ops.len() as int, a, b, r),
        stands_at(a, env, cells),
    ensures
        only_registers(a, b, c.registers as int),
        item_values(items, env, cells, r) is Some,
        hold(b, items_code(items, env, c)->Ok_0.1, item_values(items, env, cells, r)->0),
        below(
            items_code(items, env, c)->Ok_0.1,
            items_code(items, env, c)->Ok_0.0.registers as int,
        ),
    decreases items.len(),
{
    if items.len() > 0 {
        let (d, regs) = items_code(items.drop_last(), env, c)->Ok_0;
        let (f, all) = items_code(items, env, c)->Ok_0;
        items_longer(items.drop_last(), env, c);
        match items.last() {
            ProjectionItemView::Expr { expr, alias } => {
                code_longer(expr, ScopeView::Sources(env), d);
            },
            ProjectionItemView::Wildcard => {
                all_columns_longer(env, d);
            },
        }
        items_straight(items.drop_last(), env, c);
        let m = runs_split(
            ops,
            c.ops.len() as int,
            d.ops.len() as int,
            f.ops.len() as int,
            a,
            b,
            r,
        );
        items_straight(items, env, c);
        match items.last() {
            ProjectionItemView::Expr { expr, alias } => {
                expr_straight(expr, ScopeView::Sources(env), d);
            },
            ProjectionItemView::Wildcard => {
                all_columns_straight(env, d);
            },
        }
        assert(holds_code(ops, c, d)) by {
            assert forall|i: int| c.ops.len() <= i < d.ops.len() implies #[trigger] ops[i]
                == d.ops[i] by {
                assert(ops[i] == f.ops[i]);
            }
        }
        items_computed(items.drop_last(), env, cells, c, ops, a, m, r);
        still_stands(a, m, c.registers as int, env, cells);
        match items.last() {
            ProjectionItemView::Expr { expr, alias } => {
                let sc = ScopeView::Sources(env);
                expression_computed(expr, sc, d, ops, m, b, r);
                expr_code_grows(expr, sc, d);
                value_there(expr, env, cells, m, r);
            },
            ProjectionItemView::Wildcard => {
                all_computed(env, cells, d, ops, m, b, r);
            },
        }
        registers_join(a, m, b, c.registers as int, d.registers as int);
        hold_stays(
            m,
            b,
            d.registers as int,
            regs,
            item_values(items.drop_last(), env, cells, r)->0,
        );
        let v = item_values(items, env, cells, r)->0;
        assert forall|k: int| 0 <= k < all.len() implies b.reg(#[trigger] all[k]) == Some(v[k])
            && all[k] < f.registers by {
            if k < regs.len() {
                assert(all[k] == regs[k]);
                assert(regs[k] < d.registers);
            } else {
                match items.last() {
                    ProjectionItemView::Expr { expr, alias } => {},
                    ProjectionItemView::Wildcard => {
                        assert(all[k] == all_columns(env, d).1[k - regs.len()]);
                        assert(v[k] == all_fields(env, cells)[k - regs.len()]);
                    },
                }
            }
        }
    } else {
        assert(runs_through(ops, c.ops.len() as int, c.ops.len() as int, a, b, r));
    }
}

/// Reading all columns, where there is nothing else to a row.
pub proof fn wildcard_computed(
    env: Seq<RowSourceView>,
    cells: Seq<CellView>,
    c: CodeView,
    ops: Seq<OperationView>,
    a: VMInstance,
    b: VMInstance,
    r: RealAnswers,
)
    requires
        countable(c),
        all_columns(env, c).0.ops.len() <= usize::MAX,
        holds_code(ops, c, all_columns(env, c).0),
        stands_at(a, env, cells),
        runs_through(
            ops,
            c.ops.len() as int,
            all_columns(env, c).0.ops.len() as int,
            a,
            b,
            r,
        ),
    ensures
        only_registers(a, b, c.registers as int),
        hold(b, all_columns(env, c).1, all_fields(env, cells)),
{
    all_computed(env, cells, c, ops, a, b, r);
}


/// A register that may be there holds what it should.
pub open spec fn decided(b: VMInstance, reg: Option<usize>, v: Option<DataView>, n: int) -> bool {
    match (reg, v) {
        (None, None) => true,
        (Some(k), Some(x)) => k < n && b.reg(k) == Some(x),
        _ => false,
    }
}

/// Comparing two columns, after others.
#[verifier::rlimit(60)]
proof fn pair_computed(
    p: ResolvedColumn,
    q: ResolvedColumn,
    current: Option<usize>,
    before: Option<DataView>,
    x: CellView,
    y: CellView,
    c: CodeView,
    ops: Seq<OperationView>,
    a: VMInstance,
    b: VMInstance,
    r: RealAnswers,
)
    requires
        countable(c),
        pair_code(p, q, current, c).0.ops.len() <= usize::MAX,
        holds_code(ops, c, pair_code(p, q, current, c).0),
        a.entry(p.cursor_id) == Some(x),
        a.entry(q.cursor_id) == Some(y),
        decided(a, current, before, c.registers as int),
        runs_through(
            ops,
            c.ops.len() as int,
            pair_code(p, q, current, c).0.ops.len() as int,
            a,
            b,
            r,
        ),
    ensures
        only_registers(a, b, c.registers as int),
        tested(Test::Equal, field(x, p.col_idx as int), field(y, q.col_idx as int), r) is Got,
        ({
            let same = tested(
                Test::Equal,
                field(x, p.col_idx as int),
                field(y, q.col_idx as int),
                r,
            )->Got_0;
            let (f, reg) = pair_code(p, q, current, c);
            decided(
                b,
                reg,
                (match before {
                    None => Some(same),
                    Some(v) => Some(truth(truthy(v) && truthy(same))),
                }),
                f.registers as int,
            )
        }),
{
    let (f, reg) = pair_code(p, q, current, c);
    let i = c.ops.len() as int;
    let end = f.ops.len() as int;
    let lhs = c.registers;
    let rhs = (c.registers + 1) as usize;
    let dest = (c.registers + 2) as usize;
    assert(ops[i] == f.ops[i] && ops[i + 1] == f.ops[i + 1] && ops[i + 2] == f.ops[i + 2]);
    let m1 = runs_split(ops, i, i + 1, end, a, b, r);
    column_computed(p, ops, i, lhs, x, a, m1, r);
    let m2 = runs_split(ops, i + 1, i + 2, end, m1, b, r);
    assert(m1.entry(q.cursor_id) == Some(y));
    column_computed(q, ops, i + 1, rhs, y, m1, m2, r);
    register_stays(m1, m2, rhs as int, lhs);
    registers_join(a, m1, m2, lhs as int, rhs as int);
    let m3 = runs_split(ops, i + 2, i + 3, end, m2, b, r);
    let n3 = runs_one(ops, i + 2, m2, m3, r);
    one_value(ops[i + 2], m2, n3, r, dest, dest as int);
    registers_join(a, m2, m3, lhs as int, dest as int);
    let same = tested(Test::Equal, field(x, p.col_idx as int), field(y, q.col_idx as int), r);
    assert(same == OutcomeView::Got(m3.reg(dest)->0));
    match current {
        None => {
            assert(end == i + 3);
            assert(m3 == b);
        },
        Some(prev) => {
            let both = (c.registers + 3) as usize;
            assert(end == i + 4);
            assert(ops[i + 3] == f.ops[i + 3]);
            register_stays(a, m3, lhs as int, prev);
            let n4 = runs_one(ops, i + 3, m3, b, r);
            one_value(ops[i + 3], m3, n4, r, both, both as int);
            registers_join(a, m3, b, lhs as int, both as int);
        },
    }
}

/// Comparing columns finds whether they are equal.
proof fn using_computed(
    columns: Seq<Seq<char>>,
    env: Seq<RowSourceView>,
    left: int,
    cells: Seq<CellView>,
    c: CodeView,
    ops: Seq<OperationView>,
    a: VMInstance,
    b: VMInstance,
    r: RealAnswers,
)
    requires
        countable(c),
        0 <= left <= env.len(),
        using_code(columns, env, left, c) matches Ok(x) && x.0.ops.len() <= usize::MAX
            && holds_code(ops, c, x.0) && runs_through(
            ops,
            c.ops.len() as int,
            x.0.ops.len() as int,
            a,
            b,
            r,
        ),
        stands_at(a, env, cells),
    ensures
        only_registers(a, b, c.registers as int),
        decided(
            b,
            using_code(columns, env, left, c)->Ok_0.1,
            equal_columns(columns, env, left, cells, r),
            using_code(columns, env, left, c)->Ok_0.0.registers as int,
        ),
    decreases columns.len(),
{
    if columns.len() > 0 {
        let rest = columns.drop_last();
        let (d, current) = using_code(rest, env, left, c)->Ok_0;
        let (f, reg) = using_code(columns, env, left, c)->Ok_0;
        let name = columns.last();
        let kind = "USING column"@;
        let s = env.subrange(0, left);
        let t = env.subrange(left, env.len() as int);
        let p = only_column(columns_named(s, None, name), kind, name)->Ok_0;
        let q = only_column(columns_named(t, None, name), kind, name)->Ok_0;
        assert forall|k: int| 0 <= k < s.len() implies (#[trigger] s[k]).cursor_id == 0 + k by {
            assert(s[k] == env[k]);
        }
        assert forall|k: int| 0 <= k < t.len() implies (#[trigger] t[k]).cursor_id == left + k by {
            assert(t[k] == env[left + k]);
        }
        named_in(s, None, name, 0);
        named_in(t, None, name, left);
        assert(columns_named(s, None, name)[0] == p);
        assert(columns_named(t, None, name)[0] == q);
        assert(env[p.cursor_id as int].cursor_id == p.cursor_id);
        assert(env[q.cursor_id as int].cursor_id == q.cursor_id);
        using_longer(rest, env, left, c);
        using_straight(rest, env, left, c);
        pair_straight(p, q, current, d);
        let m = runs_split(
            ops,
            c.ops.len() as int,
            d.ops.len() as int,
            f.ops.len() as int,
            a,
            b,
            r,
        );
        assert(holds_code(ops, c, d)) by {
            assert forall|i: int| c.ops.len() <= i < d.ops.len() implies #[trigger] ops[i]
                == d.ops[i] by {
                assert(ops[i] == f.ops[i]);
            }
        }
        using_computed(rest, env, left, cells, c, ops, a, m, r);
        still_stands(a, m, c.registers as int, env, cells);
        pair_computed(
            p,
            q,
            current,
            equal_columns(rest, env, left, cells, r),
            cells[p.cursor_id as int],
            cells[q.cursor_id as int],
            d,
            ops,
            m,
            b,
            r,
        );
        registers_join(a, m, b, c.registers as int, d.registers as int);
    } else {
        assert(runs_through(ops, c.ops.len() as int, c.ops.len() as int, a, b, r));
    }
}

/// Deciding whether rows belong together finds whether they do.
pub proof fn constraint_computed(
    constraint: JoinConstraintView,
    env: Seq<RowSourceView>,
    left: int,
    cells: Seq<CellView>,
    c: CodeView,
    ops: Seq<OperationView>,
    a: VMInstance,
    b: VMInstance,
    r: RealAnswers,
)
    requires
        countable(c),
        0 <= left <= env.len(),
        constraint_code(constraint, env, left, c) matches Ok(x) && x.0.ops.len() <= usize::MAX
            && holds_code(ops, c, x.0) && runs_through(
            ops,
            c.ops.len() as int,
            x.0.ops.len() as int,
            a,
            b,
            r,
        ),
        stands_at(a, env, cells),
    ensures
        only_registers(a, b, c.registers as int),
        decided(
            b,
            constraint_code(constraint, env, left, c)->Ok_0.1,
            belonging(constraint, env, left, cells, r),
            constraint_code(constraint, env, left, c)->Ok_0.0.registers as int,
        ),
{
    match constraint {
        JoinConstraintView::Unconstrained => {
            assert(runs_through(ops, c.ops.len() as int, c.ops.len() as int, a, b, r));
        },
        JoinConstraintView::On(e) => {
            let sc = ScopeView::Sources(env);
            expression_computed(e, sc, c, ops, a, b, r);
            expr_code_grows(e, sc, c);
            value_there(e, env, cells, a, r);
        },
        JoinConstraintView::Using(columns) => {
            using_computed(columns, env, left, cells, c, ops, a, b, r);
        },
    }
}

} // verus!
