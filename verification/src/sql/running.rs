//! Programs of plans give out the rows of the plans.
use vstd::prelude::*;

use crate::engine::btree::BTree;
use crate::engine::cursor::{advanced, leaf_cells, leaves, rewound, rows_by_leaves, BTreeCursor};
use crate::engine::node::CellView;
use crate::engine::tree::flat_cells;
use crate::engine::value::DataView;
use crate::sql::ast::TableNameView;
use crate::sql::evaluation::{code_longer, expression_computed, only_registers, runs_through, still};
use crate::sql::flow::{guard, row_grows, row_longer, rows_longer, sink_grows, sink_longer, small};
use crate::sql::operations::{
    Close, Goto, Halt, IfCursorEnd, IfResultsGe, MoveNext, OpenRead, OperationView, ResultRowView,
    Rewind,
};
use crate::sql::plan::{PhysicalPlanNodeView, PhysicalPlanView};
use crate::sql::planner::{
    all_columns, constraint_code, items_code, limit_of, output_code, peeled, plan_program,
    plan_size, row_code, rows_code, scan_end, scan_start, sink_code, sink_fits, sink_fits_more,
    sink_size, SinkView, TableBindingView,
};
use crate::sql::program::{
    expr_code, grown, resolved, target_of, with_target, CodeView, RowSourceView, ScopeView,
};
use crate::sql::reals::RealAnswers;
use crate::sql::relation::ProjectionItemView;
use crate::sql::results::{fed, found_by, given_out, plan_rows, row_of, scanned, source_of, Source};
use crate::sql::straight::{
    all_columns_longer, all_columns_straight, constraint_computed, constraint_longer,
    constraint_straight, countable, expr_straight, hold, holds_code, items_computed, items_longer,
    items_straight, stands_at, straight, value_there, wildcard_computed,
};
use crate::sql::values::truthy;
use crate::sql::vm::{executed, gathered, opened, ran, stepped, RunView, StepView, VMInstance};

verus! {

/// Whether a program runs through from `a` to `fin` in at most `n` operations.
pub open spec fn goes(
    ops: Seq<OperationView>,
    a: VMInstance,
    fin: VMInstance,
    r: RealAnswers,
    n: nat,
) -> bool {
    ran(ops, a, fin, r, n, RunView::Finished)
}

/// The next operation of a program that runs through is done.
pub proof fn next_step(
    ops: Seq<OperationView>,
    a: VMInstance,
    fin: VMInstance,
    r: RealAnswers,
    n: nat,
) -> (m: VMInstance)
    requires
        goes(ops, a, fin, r, n),
        !a.flag_halt,
        a.pc < ops.len(),
    ensures
        n > 0,
        executed(ops[a.pc as int], a, m, r, StepView::Done),
        goes(ops, stepped(m, a.pc), fin, r, (n - 1) as nat),
{
    let (m, s) = choose|m: VMInstance, s: StepView| #[trigger]
        executed(ops[a.pc as int], a, m, r, s) && match s {
            StepView::Done => ran(
                ops,
                stepped(m, a.pc),
                fin,
                r,
                (n - 1) as nat,
                RunView::Finished,
            ),
            StepView::Failed => fin == m && RunView::Finished == RunView::Failed(
                crate::sql::vm::failure(a.pc, ops[a.pc as int]),
            ),
            StepView::Needs(q) => fin == m && RunView::Finished == RunView::Needs(q),
        };
    m
}

/// An operation that does not jump or halt goes on with the next.
pub proof fn no_jump(op: OperationView, a: VMInstance, m: VMInstance, r: RealAnswers, s: StepView)
    requires
        executed(op, a, m, r, s),
        target_of(op) is None,
        !(op is Halt),
    ensures
        m.pc == a.pc,
        m.flag_halt == a.flag_halt,
{
}

/// Operations without jumps run one after the other.
pub proof fn run_straight(
    ops: Seq<OperationView>,
    i: int,
    j: int,
    a: VMInstance,
    fin: VMInstance,
    r: RealAnswers,
    n: nat,
) -> (b: (VMInstance, nat))
    requires
        goes(ops, a, fin, r, n),
        a.pc == i,
        !a.flag_halt,
        0 <= i <= j <= ops.len(),
        j <= usize::MAX,
        forall|k: int|
            i <= k < j ==> target_of(#[trigger] ops[k]) is None && !(ops[k] is Halt),
    ensures
        runs_through(ops, i, j, a, b.0, r),
        goes(ops, b.0, fin, r, b.1),
        b.0.pc == j,
        !b.0.flag_halt,
    decreases j - i,
{
    if i == j {
        (a, n)
    } else {
        let m = next_step(ops, a, fin, r, n);
        assert(target_of(ops[i]) is None && !(ops[i] is Halt));
        no_jump(ops[i], a, m, r, StepView::Done);
        let s = stepped(m, a.pc);
        let b = run_straight(ops, i + 1, j, s, fin, r, (n - 1) as nat);
        assert(executed(ops[i], a, m, r, StepView::Done) && runs_through(
            ops,
            i + 1,
            j,
            stepped(m, a.pc),
            b.0,
            r,
        ));
        b
    }
}

// -- Programs and code -----------------------------------------

/// Whether a program is code with places in place of labels; more operations may
/// follow.
pub open spec fn links(ops: Seq<OperationView>, f: CodeView) -> bool {
    &&& f.ops.len() <= ops.len()
    &&& forall|i: int|
        0 <= i < f.ops.len() ==> match target_of(#[trigger] f.ops[i]) {
            None => ops[i] == f.ops[i],
            Some(l) => l < f.labels.len() && f.labels[l as int] is Some && ops[i] == with_target(
                f.ops[i],
                f.labels[l as int]->0,
            ),
        }
}

/// Resolved code is code with places in place of labels.
pub proof fn resolved_links(f: CodeView, n: int)
    requires
        0 <= n <= f.ops.len(),
        resolved(f.ops.take(n), f.labels) is Ok,
    ensures
        resolved(f.ops.take(n), f.labels)->Ok_0.len() == n,
        forall|i: int|
            0 <= i < n ==> match target_of(#[trigger] f.ops[i]) {
                None => resolved(f.ops.take(n), f.labels)->Ok_0[i] == f.ops[i],
                Some(l) => l < f.labels.len() && f.labels[l as int] is Some && resolved(
                    f.ops.take(n),
                    f.labels,
                )->Ok_0[i] == with_target(f.ops[i], f.labels[l as int]->0),
            },
    decreases n,
{
    if n > 0 {
        let t = f.ops.take(n);
        assert(t.drop_last() =~= f.ops.take(n - 1));
        assert(t.last() == f.ops[n - 1]);
        resolved_links(f, n - 1);
    } else {
        assert(f.ops.take(0) =~= seq![]);
    }
}

/// Whether `f` holds what `d` has and `c` has not.
pub open spec fn agrees(f: CodeView, c: CodeView, d: CodeView) -> bool {
    &&& d.ops.len() <= f.ops.len()
    &&& d.labels.len() <= f.labels.len()
    &&& forall|i: int| c.ops.len() <= i < d.ops.len() ==> #[trigger] f.ops[i] == d.ops[i]
    &&& forall|l: int|
        c.labels.len() <= l < d.labels.len() ==> #[trigger] f.labels[l] == d.labels[l]
}

// -- Machines --------------------------------------------------

/// Whether a machine's database has the tables and rows of a source.
pub open spec fn knows(a: VMInstance, src: Source) -> bool {
    forall|t: TableNameView|
        (#[trigger] (src.cat)(t)) matches Some(b) ==> a.btree.is_tree(b.root_pgno) && a.btree.rows(
            b.root_pgno,
        ) == (src.db)(b.root_pgno)
}

/// Whether `b` is `a` with the first `k` cursors where they were, and the same trees.
pub open spec fn calm(a: VMInstance, b: VMInstance, k: int) -> bool {
    &&& still(a.btree, b.btree)
    &&& a.cursors@.len() <= b.cursors@.len()
    &&& forall|i: int|
        0 <= i < k && i < a.cursors@.len() ==> #[trigger] b.cursors@[i] == a.cursors@[i]
}

proof fn calm_twice(a: VMInstance, b: VMInstance, c: VMInstance, k: int, l: int)
    requires
        calm(a, b, k),
        calm(b, c, l),
        k <= l,
    ensures
        calm(a, c, k),
{
    assert forall|i: int| 0 <= i < k && i < a.cursors@.len() implies #[trigger] c.cursors@[i]
        == a.cursors@[i] by {
        assert(b.cursors@[i] == a.cursors@[i]);
    }
}

/// The same trees have the same rows.
pub proof fn still_rows(a: BTree, b: BTree, root: u32)
    requires
        still(a, b),
        a.is_tree(root),
    ensures
        b.is_tree(root),
        b.rows(root) == a.rows(root),
        b.height(root) == a.height(root),
{
    assert(a.tree_at(root, a.height(root)));
    b.same_trees(&a, root);
}

proof fn calm_knows(a: VMInstance, b: VMInstance, k: int, src: Source)
    requires
        calm(a, b, k),
        knows(a, src),
    ensures
        knows(b, src),
{
    assert forall|t: TableNameView| (#[trigger] (src.cat)(t)) is Some implies b.btree.is_tree(
        (src.cat)(t)->0.root_pgno,
    ) && b.btree.rows((src.cat)(t)->0.root_pgno) == (src.db)((src.cat)(t)->0.root_pgno) by {
        still_rows(a.btree, b.btree, (src.cat)(t)->0.root_pgno);
    }
}

proof fn calm_stands(
    a: VMInstance,
    b: VMInstance,
    env: Seq<RowSourceView>,
    cells: Seq<CellView>,
    k: int,
)
    requires
        calm(a, b, k),
        env.len() <= k,
        stands_at(a, env, cells),
    ensures
        stands_at(b, env, cells),
{
    assert forall|i: int| 0 <= i < env.len() implies (#[trigger] env[i]).cursor_id == i && b.entry(
        i as usize,
    ) == Some(cells[i]) by {
        assert(a.entry(i as usize) == Some(cells[i]));
        assert(b.cursors@[i] == a.cursors@[i]);
    }
}

pub proof fn registers_calm(a: VMInstance, b: VMInstance, n: int, k: int)
    requires
        only_registers(a, b, n),
    ensures
        calm(a, b, k),
        b.rows() == a.rows(),
{
}

/// A cursor at an entry sees that entry.
pub proof fn entry_there(c: BTreeCursor, b: BTree, pos: int)
    requires
        c.on_entry(&b, pos),
    ensures
        b.store().dom().contains(c.node),
        c.cell_idx < b.store()[c.node].cells.len(),
        0 <= pos < b.rows(c.root).len(),
        b.store()[c.node].cells[c.cell_idx as int] == b.rows(c.root)[pos],
{
    let l = leaves(&b, c.root);
    let j = choose|j: int| c.on(&b, j, pos);
    rows_by_leaves(&b, c.root);
    leaf_cells(b.store(), l, j);
    let before = flat_cells(b.store(), l.take(j));
    let cells = b.store()[l[j]].cells;
    let all = b.rows(c.root);
    assert(b.store().dom().contains(l[j]));
    assert(all == before + cells + flat_cells(b.store(), l.skip(j + 1)));
    assert(all[pos] == cells[c.cell_idx as int]);
}

/// A cursor stays at its entry while nothing changes.
pub proof fn entry_stays(c: BTreeCursor, a: BTree, b: BTree, pos: int)
    requires
        c.on_entry(&a, pos),
        still(a, b),
    ensures
        c.on_entry(&b, pos),
{
    still_rows(a, b, c.root);
    let j = choose|j: int| c.on(&a, j, pos);
    assert(leaves(&b, c.root) == leaves(&a, c.root));
    assert(c.on(&b, j, pos));
}


// -- Rows ------------------------------------------------------

/// An operation of a program is that of its code, with a place in place of a label.
pub proof fn op_at(ops: Seq<OperationView>, f: CodeView, c: CodeView, d: CodeView, i: int)
    requires
        agrees(f, c, d),
        links(ops, f),
        c.ops.len() <= i < d.ops.len(),
    ensures
        i < ops.len(),
        match target_of(d.ops[i]) {
            None => ops[i] == d.ops[i],
            Some(l) => l < f.labels.len() && f.labels[l as int] is Some && ops[i] == with_target(
                d.ops[i],
                f.labels[l as int]->0,
            ),
        },
{
    assert(f.ops[i] == d.ops[i]);
}

/// Code without jumps within other code is in the program as it is.
pub proof fn straight_at(
    ops: Seq<OperationView>,
    f: CodeView,
    c: CodeView,
    d: CodeView,
    x: CodeView,
    y: CodeView,
)
    requires
        agrees(f, c, d),
        links(ops, f),
        straight(x, y),
        c.ops.len() <= x.ops.len(),
        y.ops.len() <= d.ops.len(),
        forall|i: int| x.ops.len() <= i < y.ops.len() ==> #[trigger] d.ops[i] == y.ops[i],
    ensures
        holds_code(ops, x, y),
        forall|i: int|
            x.ops.len() <= i < y.ops.len() ==> target_of(#[trigger] ops[i]) is None && !(
            ops[i] is Halt),
{
    assert forall|i: int| x.ops.len() <= i < y.ops.len() implies #[trigger] ops[i] == y.ops[i]
        && target_of(ops[i]) is None && !(ops[i] is Halt) by {
        assert(d.ops[i] == y.ops[i]);
        op_at(ops, f, c, d, i);
        assert(target_of(y.ops[i]) is None);
    }
}

/// Giving a row out gives it out.
#[verifier::rlimit(60)]
#[verifier::spinoff_prover]
proof fn row_flow(
    items: Option<Seq<ProjectionItemView>>,
    env: Seq<RowSourceView>,
    cells: Seq<CellView>,
    limit: Option<usize>,
    r: RealAnswers,
    c: CodeView,
    f: CodeView,
    ops: Seq<OperationView>,
    a: VMInstance,
    fin: VMInstance,
    n: nat,
) -> (b: (VMInstance, nat))
    requires
        countable(c),
        row_code(items, env, limit, c) matches Ok(d) && small(d) && agrees(f, c, d),
        links(ops, f),
        stands_at(a, env, cells),
        a.pc == c.ops.len(),
        !a.flag_halt,
        goes(ops, a, fin, r, n),
    ensures
        goes(ops, b.0, fin, r, b.1),
        b.0.pc == row_code(items, env, limit, c)->Ok_0.ops.len(),
        !b.0.flag_halt,
        calm(a, b.0, a.cursors@.len() as int),
        b.0.cursors == a.cursors,
        b.0.rows() == given_out(items, env, cells, limit, r, a.rows()),
{
    let d = row_code(items, env, limit, c)->Ok_0;
    let i = c.ops.len() as int;
    let skip = c.next_label();
    let x = match limit {
        Some(limit) => c.label().emit(
            OperationView::IfResultsGe(IfResultsGe { limit, target: skip }),
        ),
        None => c,
    };
    let (y, regs) = match items {
        Some(items) => items_code(items, env, x)->Ok_0,
        None => all_columns(env, x),
    };
    row_longer(items, env, limit, c);
    match items {
        Some(items) => {
            items_longer(items, env, x);
            items_straight(items, env, x);
        },
        None => {
            all_columns_longer(env, x);
            all_columns_straight(env, x);
        },
    }
    let row = OperationView::ResultRow(ResultRowView { fields: regs });
    assert(d.ops == y.ops.push(row));
    straight_at(ops, f, c, d, x, y);
    let (a1, n1) = match limit {
        None => (a, n),
        Some(limit) => {
            assert(y.ops[i] == x.ops[i]);
            op_at(ops, f, c, d, i);
            assert(f.labels[skip as int] == d.labels[skip as int]);
            let m = next_step(ops, a, fin, r, n);
            (stepped(m, a.pc), (n - 1) as nat)
        },
    };
    if limit is Some && a.rows().len() >= limit->0 {
        assert(a1.pc == d.ops.len());
        (a1, n1)
    } else {
        assert(a1.pc == x.ops.len());
        assert(stands_at(a1, env, cells)) by {
            assert forall|k: int| 0 <= k < env.len() implies (#[trigger] env[k]).cursor_id == k
                && a1.entry(k as usize) == Some(cells[k]) by {
                assert(a.entry(k as usize) == Some(cells[k]));
            }
        }
        let (a2, n2) = run_straight(
            ops,
            x.ops.len() as int,
            y.ops.len() as int,
            a1,
            fin,
            r,
            n1,
        );
        match items {
            Some(items) => {
                items_computed(items, env, cells, x, ops, a1, a2, r);
            },
            None => {
                wildcard_computed(env, cells, x, ops, a1, a2, r);
            },
        }
        registers_calm(a1, a2, x.registers as int, a.cursors@.len() as int);
        op_at(ops, f, c, d, y.ops.len() as int);
        let m = next_step(ops, a2, fin, r, n2);
        let v = row_of(items, env, cells, r)->0;
        assert(hold(a2, regs, v));
        assert forall|k: int| 0 <= k < regs.len() implies #[trigger] regs[k] < a2.regs().len()
            && a2.regs()[regs[k] as int] == v[k] by {
            assert(a2.reg(regs[k]) == Some(v[k]));
        }
        assert(gathered(a2.regs(), regs) is Some);
        assert(gathered(a2.regs(), regs)->0 =~= v);
        let b = stepped(m, a2.pc);
        assert(b.rows() == m.rows());
        assert(a1.rows() == a.rows());
        (b, (n2 - 1) as nat)
    }
}

/// A jump over what follows is taken where the condition does not hold.
proof fn guard_flow(
    d: CodeView,
    cond_reg: usize,
    v: DataView,
    g: CodeView,
    c: CodeView,
    f: CodeView,
    ops: Seq<OperationView>,
    r: RealAnswers,
    a: VMInstance,
    fin: VMInstance,
    n: nat,
) -> (b: (VMInstance, nat))
    requires
        c.ops.len() <= d.ops.len(),
        c.labels.len() <= d.labels.len(),
        small(g),
        grown(guard(d, cond_reg), g),
        agrees(f, c, g.mark(d.next_label())),
        links(ops, f),
        a.pc == d.ops.len(),
        a.reg(cond_reg) == Some(v),
        !a.flag_halt,
        goes(ops, a, fin, r, n),
    ensures
        goes(ops, b.0, fin, r, b.1),
        b.0 == (VMInstance { pc: b.0.pc, ..a }),
        b.0.pc == if truthy(v) {
            d.ops.len() + 1
        } else {
            g.ops.len()
        },
{
    let e = g.mark(d.next_label());
    let x = guard(d, cond_reg);
    let i = d.ops.len() as int;
    assert(x.labels.len() == d.labels.len() + 1);
    assert(g.ops[i] == x.ops[i]);
    op_at(ops, f, c, e, i);
    let l = d.next_label() as int;
    assert(f.labels[l] == e.labels[l]);
    let m = next_step(ops, a, fin, r, n);
    (stepped(m, a.pc), (n - 1) as nat)
}


/// Code within code, up to a label that is marked behind it.
proof fn agrees_inside(f: CodeView, c: CodeView, d: CodeView, x: CodeView, y: CodeView, l: usize)
    requires
        agrees(f, c, y.mark(l)),
        c.ops.len() <= x.ops.len(),
        c.labels.len() <= x.labels.len(),
        l < x.labels.len() <= y.labels.len(),
    ensures
        agrees(f, x, y),
{
    let e = y.mark(l);
    assert forall|i: int| x.ops.len() <= i < y.ops.len() implies #[trigger] f.ops[i]
        == y.ops[i] by {
        assert(e.ops[i] == y.ops[i]);
    }
    assert forall|k: int| x.labels.len() <= k < y.labels.len() implies #[trigger] f.labels[k]
        == y.labels[k] by {
        assert(f.labels[k] == e.labels[k]);
    }
}

/// Code at the start of code.
proof fn agrees_before(f: CodeView, c: CodeView, d: CodeView, e: CodeView)
    requires
        agrees(f, c, e),
        grown(d, e),
    ensures
        agrees(f, c, d),
{
    assert forall|i: int| c.ops.len() <= i < d.ops.len() implies #[trigger] f.ops[i]
        == d.ops[i] by {
        assert(e.ops[i] == d.ops[i]);
    }
    assert forall|k: int| c.labels.len() <= k < d.labels.len() implies #[trigger] f.labels[k]
        == d.labels[k] by {
        assert(e.labels[k] == d.labels[k]);
    }
}

/// Code at the end of code.
proof fn agrees_after(f: CodeView, c: CodeView, d: CodeView, e: CodeView)
    requires
        agrees(f, c, e),
        c.ops.len() <= d.ops.len(),
        c.labels.len() <= d.labels.len(),
    ensures
        agrees(f, d, e),
{
}

/// Feeding a row on gives out what it should.
#[verifier::rlimit(100)]
#[verifier::spinoff_prover]
proof fn sink_flow(
    sink: SinkView,
    env: Seq<RowSourceView>,
    cells: Seq<CellView>,
    src: Source,
    c: CodeView,
    f: CodeView,
    ops: Seq<OperationView>,
    a: VMInstance,
    fin: VMInstance,
    n: nat,
) -> (b: (VMInstance, nat))
    requires
        countable(c),
        c.cursors == env.len(),
        sink_fits(sink, env.len()),
        sink_code(env, sink, src.cat, c) matches Ok(d) && small(d) && agrees(f, c, d),
        links(ops, f),
        stands_at(a, env, cells),
        knows(a, src),
        a.pc == c.ops.len(),
        !a.flag_halt,
        goes(ops, a, fin, src.reals, n),
    ensures
        goes(ops, b.0, fin, src.reals, b.1),
        b.0.pc == sink_code(env, sink, src.cat, c)->Ok_0.ops.len(),
        !b.0.flag_halt,
        calm(a, b.0, env.len() as int),
        b.0.rows() == fed(sink, env, cells, src, a.rows()),
    decreases sink_size(sink), 0int, 0int,
{
    let r = src.reals;
    let d = sink_code(env, sink, src.cat, c)->Ok_0;
    let k = env.len() as int;
    match sink {
        SinkView::Row { items, limit } => {
            row_flow(items, env, cells, limit, r, c, f, ops, a, fin, n)
        },
        SinkView::Filter { predicate, next } => {
            let sc = ScopeView::Sources(env);
            let (x, cond_reg) = expr_code(predicate, sc, c)->Ok_0;
            let y = guard(x, cond_reg);
            let g = sink_code(env, *next, src.cat, y)->Ok_0;
            sink_longer(env, *next, src.cat, y);
            code_longer(predicate, sc, c);
            expr_straight(predicate, sc, c);
            sink_grows(env, *next, src.cat, y);
            assert forall|i: int| c.ops.len() <= i < x.ops.len() implies #[trigger] d.ops[i]
                == x.ops[i] by {
                assert(g.ops[i] == y.ops[i]);
            }
            straight_at(ops, f, c, d, c, x);
            let (a1, n1) = run_straight(ops, c.ops.len() as int, x.ops.len() as int, a, fin, r, n);
            expression_computed(predicate, sc, c, ops, a, a1, r);
            value_there(predicate, env, cells, a, r);
            registers_calm(a, a1, c.registers as int, k);
            let v = a1.reg(cond_reg)->0;
            guarded_flow(
                *next,
                env,
                cells,
                src,
                c,
                x,
                cond_reg,
                v,
                f,
                ops,
                a,
                a1,
                fin,
                n1,
            )
        },
        SinkView::Also { items, next } => {
            row_longer(Some(items), env, None, c);
            let x = row_code(Some(items), env, None, c)->Ok_0;
            sink_longer(env, *next, src.cat, x);
            row_grows(Some(items), env, None, c);
            sink_grows(env, *next, src.cat, x);
            agrees_before(f, c, x, d);
            agrees_after(f, c, x, d);
            row_cursors(Some(items), env, None, c);
            let (a1, n1) = row_flow(Some(items), env, cells, None, r, c, f, ops, a, fin, n);
            calm_stands(a, a1, env, cells, k);
            calm_knows(a, a1, k, src);
            let (b, m) = sink_flow(*next, env, cells, src, x, f, ops, a1, fin, n1);
            calm_twice(a, a1, b, k, k);
            (b, m)
        },
        SinkView::Right { plan, constraint, next } => {
            rows_flow(
                plan,
                SinkView::Check { constraint, left: env.len() as usize, next },
                env,
                cells,
                src,
                c,
                f,
                ops,
                a,
                fin,
                n,
            )
        },
        SinkView::Check { constraint, left, next } => {
            constraint_longer(constraint, env, left as int, c);
            let (x, cond) = constraint_code(constraint, env, left as int, c)->Ok_0;
            match cond {
                None => {
                    sink_longer(env, *next, src.cat, x);
                    constraint_straight(constraint, env, left as int, c);
                    sink_grows(env, *next, src.cat, x);
                    assert forall|i: int| c.ops.len() <= i < x.ops.len() implies #[trigger] d.ops[i]
                        == x.ops[i] by {}
                    straight_at(ops, f, c, d, c, x);
                    let (a1, n1) = run_straight(
                        ops,
                        c.ops.len() as int,
                        x.ops.len() as int,
                        a,
                        fin,
                        r,
                        n,
                    );
                    constraint_computed(constraint, env, left as int, cells, c, ops, a, a1, r);
                    registers_calm(a, a1, c.registers as int, k);
                    calm_stands(a, a1, env, cells, k);
                    calm_knows(a, a1, k, src);
                    agrees_after(f, c, x, d);
                    let (b, m) = sink_flow(*next, env, cells, src, x, f, ops, a1, fin, n1);
                    calm_twice(a, a1, b, k, k);
                    (b, m)
                },
                Some(cond_reg) => {
                    let y = guard(x, cond_reg);
                    let g = sink_code(env, *next, src.cat, y)->Ok_0;
                    sink_longer(env, *next, src.cat, y);
                    constraint_straight(constraint, env, left as int, c);
                    sink_grows(env, *next, src.cat, y);
                    assert forall|i: int| c.ops.len() <= i < x.ops.len() implies #[trigger] d.ops[i]
                        == x.ops[i] by {
                        assert(g.ops[i] == y.ops[i]);
                    }
                    straight_at(ops, f, c, d, c, x);
                    let (a1, n1) = run_straight(
                        ops,
                        c.ops.len() as int,
                        x.ops.len() as int,
                        a,
                        fin,
                        r,
                        n,
                    );
                    constraint_computed(constraint, env, left as int, cells, c, ops, a, a1, r);
                    registers_calm(a, a1, c.registers as int, k);
                    let v = a1.reg(cond_reg)->0;
                    guarded_flow(
                        *next,
                        env,
                        cells,
                        src,
                        c,
                        x,
                        cond_reg,
                        v,
                        f,
                        ops,
                        a,
                        a1,
                        fin,
                        n1,
                    )
                },
            }
        },
    }
}

/// Giving a row out opens no cursors.
proof fn row_cursors(
    items: Option<Seq<ProjectionItemView>>,
    env: Seq<RowSourceView>,
    limit: Option<usize>,
    c: CodeView,
)
    requires
        countable(c),
        row_code(items, env, limit, c) matches Ok(d) && small(d),
    ensures
        row_code(items, env, limit, c)->Ok_0.cursors == c.cursors,
{
    let x = match limit {
        Some(limit) => c.label().emit(
            OperationView::IfResultsGe(IfResultsGe { limit, target: c.next_label() }),
        ),
        None => c,
    };
    row_longer(items, env, limit, c);
    match items {
        Some(items) => {
            items_longer(items, env, x);
            items_straight(items, env, x);
        },
        None => {
            all_columns_longer(env, x);
            all_columns_straight(env, x);
        },
    }
}

/// Feeding a row on where a condition holds.
#[verifier::rlimit(60)]
#[verifier::spinoff_prover]
proof fn guarded_flow(
    next: SinkView,
    env: Seq<RowSourceView>,
    cells: Seq<CellView>,
    src: Source,
    c: CodeView,
    x: CodeView,
    cond_reg: usize,
    v: DataView,
    f: CodeView,
    ops: Seq<OperationView>,
    a: VMInstance,
    a1: VMInstance,
    fin: VMInstance,
    n: nat,
) -> (b: (VMInstance, nat))
    requires
        countable(c),
        straight(c, x),
        x.cursors == env.len(),
        sink_fits(next, env.len()),
        sink_code(env, next, src.cat, guard(x, cond_reg)) matches Ok(g) && small(g) && agrees(
            f,
            c,
            g.mark(x.next_label()),
        ),
        links(ops, f),
        stands_at(a, env, cells),
        knows(a, src),
        calm(a, a1, env.len() as int),
        a1.rows() == a.rows(),
        a1.pc == x.ops.len(),
        a1.reg(cond_reg) == Some(v),
        !a1.flag_halt,
        goes(ops, a1, fin, src.reals, n),
    ensures
        goes(ops, b.0, fin, src.reals, b.1),
        b.0.pc == sink_code(env, next, src.cat, guard(x, cond_reg))->Ok_0.ops.len(),
        !b.0.flag_halt,
        calm(a, b.0, env.len() as int),
        b.0.rows() == if truthy(v) {
            fed(next, env, cells, src, a.rows())
        } else {
            a.rows()
        },
    decreases sink_size(next), 1int, 0int,
{
    let k = env.len() as int;
    let y = guard(x, cond_reg);
    let g = sink_code(env, next, src.cat, y)->Ok_0;
    sink_longer(env, next, src.cat, y);
    sink_grows(env, next, src.cat, y);
    let (a2, n2) = guard_flow(x, cond_reg, v, g, c, f, ops, src.reals, a1, fin, n);
    assert(calm(a, a2, k));
    assert(a2.rows() == a.rows());
    if truthy(v) {
        agrees_inside(f, c, x, y, g, x.next_label());
        calm_stands(a, a2, env, cells, k);
        calm_knows(a, a2, k, src);
        let (b, m) = sink_flow(next, env, cells, src, y, f, ops, a2, fin, n2);
        calm_twice(a, a2, b, k, k);
        (b, m)
    } else {
        (a2, n2)
    }
}

/// Finding the rows of a plan gives out what it should.
proof fn rows_flow(
    p: PhysicalPlanView,
    sink: SinkView,
    env: Seq<RowSourceView>,
    cells: Seq<CellView>,
    src: Source,
    c: CodeView,
    f: CodeView,
    ops: Seq<OperationView>,
    a: VMInstance,
    fin: VMInstance,
    n: nat,
) -> (b: (VMInstance, nat))
    requires
        countable(c),
        c.cursors == env.len(),
        sink_fits(sink, env.len()),
        rows_code(p, env, sink, src.cat, c) matches Ok(d) && small(d) && agrees(f, c, d),
        links(ops, f),
        stands_at(a, env, cells),
        knows(a, src),
        a.pc == c.ops.len(),
        !a.flag_halt,
        goes(ops, a, fin, src.reals, n),
    ensures
        goes(ops, b.0, fin, src.reals, b.1),
        b.0.pc == rows_code(p, env, sink, src.cat, c)->Ok_0.ops.len(),
        !b.0.flag_halt,
        calm(a, b.0, env.len() as int),
        b.0.rows() == found_by(p, env, cells, sink, src, a.rows()),
    decreases plan_size(p) + sink_size(sink), 0int, 0int,
{
    match p.node {
        PhysicalPlanNodeView::OneRow => sink_flow(
            sink,
            env,
            cells,
            src,
            c,
            f,
            ops,
            a,
            fin,
            n,
        ),
        PhysicalPlanNodeView::SeqScan { table, alias } => scan_flow(
            table,
            alias,
            sink,
            env,
            cells,
            src,
            c,
            f,
            ops,
            a,
            fin,
            n,
        ),
        PhysicalPlanNodeView::Filter { predicate, input } => rows_flow(
            *input,
            SinkView::Filter { predicate, next: Box::new(sink) },
            env,
            cells,
            src,
            c,
            f,
            ops,
            a,
            fin,
            n,
        ),
        PhysicalPlanNodeView::Project { items, input } => rows_flow(
            *input,
            SinkView::Also { items, next: Box::new(sink) },
            env,
            cells,
            src,
            c,
            f,
            ops,
            a,
            fin,
            n,
        ),
        PhysicalPlanNodeView::NestedLoopJoin { join_type, constraint, left, right } => rows_flow(
            *left,
            SinkView::Right { plan: *right, constraint, next: Box::new(sink) },
            env,
            cells,
            src,
            c,
            f,
            ops,
            a,
            fin,
            n,
        ),
        PhysicalPlanNodeView::HashJoin { join_type, constraint, left, right } => rows_flow(
            *left,
            SinkView::Right { plan: *right, constraint, next: Box::new(sink) },
            env,
            cells,
            src,
            c,
            f,
            ops,
            a,
            fin,
            n,
        ),
        PhysicalPlanNodeView::Limit { count, input } => rows_flow(
            *input,
            SinkView::Row { items: None, limit: Some(limit_of(count)->Ok_0) },
            env,
            cells,
            src,
            c,
            f,
            ops,
            a,
            fin,
            n,
        ),
        PhysicalPlanNodeView::Sort { items, input } => (a, n),
    }
}

/// What holds of a scan: where its parts are, and that its table is there.
pub open spec fn scan_ok(
    b: TableBindingView,
    inner: Seq<RowSourceView>,
    env: Seq<RowSourceView>,
    sink: SinkView,
    src: Source,
    c: CodeView,
    f: CodeView,
    ops: Seq<OperationView>,
) -> bool {
    let s = scan_start(b.root_pgno, c);
    &&& countable(c)
    &&& c.cursors == env.len()
    &&& inner.len() == env.len() + 1
    &&& inner.drop_last() == env
    &&& inner.last().cursor_id == c.cursors
    &&& sink_fits(sink, env.len())
    &&& links(ops, f)
    &&& sink_code(inner, sink, src.cat, s) matches Ok(d) && {
        let e = scan_end(c.cursors, c.next_label(), c.label().next_label(), d);
        small(e) && agrees(f, c, e) && grown(s, d) && countable(s)
    }
}

/// The end of a scan.
pub open spec fn scan_done(
    b: TableBindingView,
    inner: Seq<RowSourceView>,
    sink: SinkView,
    src: Source,
    c: CodeView,
) -> CodeView {
    let d = sink_code(inner, sink, src.cat, scan_start(b.root_pgno, c))->Ok_0;
    scan_end(c.cursors, c.next_label(), c.label().next_label(), d)
}

/// The places of a scan in a program.
proof fn scan_places(
    b: TableBindingView,
    inner: Seq<RowSourceView>,
    env: Seq<RowSourceView>,
    sink: SinkView,
    src: Source,
    c: CodeView,
    f: CodeView,
    ops: Seq<OperationView>,
)
    requires
        scan_ok(b, inner, env, sink, src, c, f, ops),
    ensures
        ({
            let s = scan_start(b.root_pgno, c);
            let d = sink_code(inner, sink, src.cat, s)->Ok_0;
            let i = c.ops.len() as int;
            let j = d.ops.len() as int;
            let id = c.cursors;
            &&& s.ops.len() == i + 3
            &&& i + 3 <= j
            &&& j + 4 <= ops.len()
            &&& j + 4 <= usize::MAX
            &&& scan_done(b, inner, sink, src, c).ops.len() == j + 4
            &&& ops[i] == OperationView::OpenRead(
                OpenRead { cursor_id: id, root_pgno: b.root_pgno },
            )
            &&& ops[i + 1] == OperationView::Rewind(Rewind { cursor_id: id })
            &&& ops[i + 2] == OperationView::IfCursorEnd(IfCursorEnd { target: (j + 3) as usize })
            &&& ops[j] == OperationView::MoveNext(MoveNext { cursor_id: id })
            &&& ops[j + 1] == OperationView::IfCursorEnd(IfCursorEnd { target: (j + 3) as usize })
            &&& ops[j + 2] == OperationView::Goto(Goto { target: (i + 3) as usize })
            &&& ops[j + 3] == OperationView::Close(Close { cursor_id: id })
            &&& agrees(f, s, d)
        }),
{
    let s = scan_start(b.root_pgno, c);
    let d = sink_code(inner, sink, src.cat, s)->Ok_0;
    let e = scan_done(b, inner, sink, src, c);
    let i = c.ops.len() as int;
    let j = d.ops.len() as int;
    let start = c.next_label() as int;
    let end = c.label().next_label() as int;
    assert(s.ops.len() == i + 3);
    assert(s.labels.len() == c.labels.len() + 2);
    assert(e.ops.len() == j + 4);
    assert(start == c.labels.len() && end == c.labels.len() + 1);
    assert(s.labels[start] == Some((i + 3) as usize));
    assert(d.labels[start] == s.labels[start]);
    assert(e.labels[start] == d.labels[start]);
    assert(e.labels[end] == Some((j + 3) as usize));
    assert(f.labels[start] == e.labels[start]);
    assert(f.labels[end] == e.labels[end]);
    assert(d.ops[i] == s.ops[i] && d.ops[i + 1] == s.ops[i + 1] && d.ops[i + 2] == s.ops[i + 2]);
    assert(e.ops[i] == d.ops[i] && e.ops[i + 1] == d.ops[i + 1] && e.ops[i + 2] == d.ops[i + 2]);
    op_at(ops, f, c, e, i);
    op_at(ops, f, c, e, i + 1);
    op_at(ops, f, c, e, i + 2);
    op_at(ops, f, c, e, j);
    op_at(ops, f, c, e, j + 1);
    op_at(ops, f, c, e, j + 2);
    op_at(ops, f, c, e, j + 3);
    assert forall|k: int| s.ops.len() <= k < d.ops.len() implies #[trigger] f.ops[k]
        == d.ops[k] by {
        assert(e.ops[k] == d.ops[k]);
    }
    assert forall|k: int| s.labels.len() <= k < d.labels.len() implies #[trigger] f.labels[k]
        == d.labels[k] by {
        assert(f.labels[k] == e.labels[k]);
    }
}

/// The end of a scan closes its cursor.
proof fn scan_closes(
    b: TableBindingView,
    inner: Seq<RowSourceView>,
    env: Seq<RowSourceView>,
    sink: SinkView,
    src: Source,
    c: CodeView,
    f: CodeView,
    ops: Seq<OperationView>,
    a: VMInstance,
    fin: VMInstance,
    n: nat,
) -> (z: (VMInstance, nat))
    requires
        scan_ok(b, inner, env, sink, src, c, f, ops),
        a.pc == scan_done(b, inner, sink, src, c).ops.len() - 1,
        !a.flag_halt,
        goes(ops, a, fin, src.reals, n),
    ensures
        goes(ops, z.0, fin, src.reals, z.1),
        z.0.pc == scan_done(b, inner, sink, src, c).ops.len(),
        !z.0.flag_halt,
        calm(a, z.0, env.len() as int),
        z.0.rows() == a.rows(),
{
    scan_places(b, inner, env, sink, src, c, f, ops);
    let m = next_step(ops, a, fin, src.reals, n);
    (stepped(m, a.pc), (n - 1) as nat)
}

/// The rows of a table from one on are fed on.
#[verifier::rlimit(100)]
#[verifier::spinoff_prover]
proof fn scan_loop(
    b: TableBindingView,
    inner: Seq<RowSourceView>,
    env: Seq<RowSourceView>,
    cells: Seq<CellView>,
    sink: SinkView,
    src: Source,
    c: CodeView,
    f: CodeView,
    ops: Seq<OperationView>,
    out: Seq<Seq<DataView>>,
    pos: int,
    a: VMInstance,
    fin: VMInstance,
    n: nat,
) -> (z: (VMInstance, nat))
    requires
        scan_ok(b, inner, env, sink, src, c, f, ops),
        stands_at(a, env, cells),
        knows(a, src),
        a.btree.is_tree(b.root_pgno),
        a.btree.rows(b.root_pgno) == (src.db)(b.root_pgno),
        0 <= pos < (src.db)(b.root_pgno).len(),
        a.pc == c.ops.len() + 3,
        !a.flag_halt,
        a.cursor(c.cursors) matches Some(cur) && cur.root == b.root_pgno && !cur.before_entry
            && cur.on_entry(&a.btree, pos),
        a.rows() == scanned(
            (src.db)(b.root_pgno),
            pos as nat,
            inner,
            cells,
            sink,
            src,
            out,
        ),
        goes(ops, a, fin, src.reals, n),
    ensures
        goes(ops, z.0, fin, src.reals, z.1),
        z.0.pc == scan_done(b, inner, sink, src, c).ops.len(),
        !z.0.flag_halt,
        calm(a, z.0, env.len() as int),
        z.0.rows() == scanned(
            (src.db)(b.root_pgno),
            (src.db)(b.root_pgno).len(),
            inner,
            cells,
            sink,
            src,
            out,
        ),
    decreases sink_size(sink), 2int, (src.db)(b.root_pgno).len() - pos,
{
    let r = src.reals;
    let root = b.root_pgno;
    let es = (src.db)(root);
    let id = c.cursors;
    let k = env.len() as int;
    let s = scan_start(root, c);
    let d = sink_code(inner, sink, src.cat, s)->Ok_0;
    let j = d.ops.len() as int;
    scan_places(b, inner, env, sink, src, c, f, ops);
    let cur = a.cursor(id)->0;
    entry_there(cur, a.btree, pos);
    let more = cells.push(es[pos]);
    assert(stands_at(a, inner, more)) by {
        assert forall|i: int| 0 <= i < inner.len() implies (#[trigger] inner[i]).cursor_id == i
            && a.entry(i as usize) == Some(more[i]) by {
            if i < k {
                assert(inner.drop_last()[i] == env[i]);
                assert(env[i].cursor_id == i);
            } else {
                assert(inner[i] == inner.last());
            }
        }
    }
    sink_fits_more(sink, env.len(), inner.len());
    let (a1, n1) = sink_flow(sink, inner, more, src, s, f, ops, a, fin, n);
    assert(a1.rows() == scanned(es, (pos + 1) as nat, inner, cells, sink, src, out));
    assert(a1.cursors@[id as int] == a.cursors@[id as int]);
    entry_stays(cur, a.btree, a1.btree, pos);
    still_rows(a.btree, a1.btree, root);
    let m = next_step(ops, a1, fin, r, n1);
    let a2 = stepped(m, a1.pc);
    let found = !m.flag_cursor_end;
    let cur2 = m.cursor(id)->0;
    assert(advanced(&a1.btree, &cur, &m.btree, &cur2, found));
    assert(still(a1.btree, m.btree)) by {
        assert(a1.btree.tree_at(root, a1.btree.height(root)));
    }
    assert(calm(a1, a2, k)) by {
        assert forall|i: int| 0 <= i < k && i < a1.cursors@.len() implies #[trigger] a2.cursors@[i]
            == a1.cursors@[i] by {}
    }
    calm_twice(a, a1, a2, k, k);
    assert(found == (pos + 1 < es.len()));
    let m3 = next_step(ops, a2, fin, r, (n1 - 1) as nat);
    let a3 = stepped(m3, a2.pc);
    let n3 = (n1 - 2) as nat;
    if found {
        assert(a3.pc == j + 2);
        let m4 = next_step(ops, a3, fin, r, n3);
        let a4 = stepped(m4, a3.pc);
        assert(a4.pc == c.ops.len() + 3);
        assert(calm(a, a4, k));
        calm_stands(a, a4, env, cells, k);
        calm_knows(a, a4, k, src);
        still_rows(a.btree, a4.btree, root);
        assert(a4.rows() == a1.rows());
        assert(a4.btree == m.btree && a4.cursors == m.cursors);
        let (z, l) = scan_loop(
            b,
            inner,
            env,
            cells,
            sink,
            src,
            c,
            f,
            ops,
            out,
            pos + 1,
            a4,
            fin,
            (n3 - 1) as nat,
        );
        calm_twice(a, a4, z, k, k);
        (z, l)
    } else {
        assert(pos + 1 == es.len());
        assert(a3.pc == j + 3);
        assert(calm(a, a3, k));
        assert(a3.rows() == a1.rows());
        let (z, l) = scan_closes(b, inner, env, sink, src, c, f, ops, a3, fin, n3);
        calm_twice(a, a3, z, k, k);
        (z, l)
    }
}

/// The rows of a table are fed on.
#[verifier::rlimit(100)]
#[verifier::spinoff_prover]
proof fn scan_flow(
    table: TableNameView,
    alias: Option<Seq<char>>,
    sink: SinkView,
    env: Seq<RowSourceView>,
    cells: Seq<CellView>,
    src: Source,
    c: CodeView,
    f: CodeView,
    ops: Seq<OperationView>,
    a: VMInstance,
    fin: VMInstance,
    n: nat,
) -> (z: (VMInstance, nat))
    requires
        countable(c),
        c.cursors == env.len(),
        sink_fits(sink, env.len()),
        (src.cat)(table) matches Some(b) && {
            let inner = env.push(source_of(table, alias, b, c.cursors));
            sink_code(inner, sink, src.cat, scan_start(b.root_pgno, c)) is Ok && small(
                scan_done(b, inner, sink, src, c),
            ) && agrees(f, c, scan_done(b, inner, sink, src, c))
        },
        links(ops, f),
        stands_at(a, env, cells),
        knows(a, src),
        a.pc == c.ops.len(),
        !a.flag_halt,
        goes(ops, a, fin, src.reals, n),
    ensures
        goes(ops, z.0, fin, src.reals, z.1),
        ({
            let b = (src.cat)(table)->0;
            let inner = env.push(source_of(table, alias, b, c.cursors));
            let es = (src.db)(b.root_pgno);
            &&& z.0.pc == scan_done(b, inner, sink, src, c).ops.len()
            &&& z.0.rows() == scanned(es, es.len(), inner, cells, sink, src, a.rows())
        }),
        !z.0.flag_halt,
        calm(a, z.0, env.len() as int),
    decreases sink_size(sink), 3int, 0int,
{
    let r = src.reals;
    let b = (src.cat)(table)->0;
    let root = b.root_pgno;
    let inner = env.push(source_of(table, alias, b, c.cursors));
    let es = (src.db)(root);
    let id = c.cursors;
    let k = env.len() as int;
    let s = scan_start(root, c);
    let d = sink_code(inner, sink, src.cat, s)->Ok_0;
    let e = scan_done(b, inner, sink, src, c);
    sink_longer(inner, sink, src.cat, s);
    assert(e.ops.len() == d.ops.len() + 4);
    assert(s.ops.len() == c.ops.len() + 3);
    assert(s.labels.len() == c.labels.len() + 2);
    assert(e.labels.len() == d.labels.len());
    sink_grows(inner, sink, src.cat, s);
    assert(inner.drop_last() =~= env);
    assert(scan_ok(b, inner, env, sink, src, c, f, ops));
    scan_places(b, inner, env, sink, src, c, f, ops);
    assert(a.btree.is_tree(root) && a.btree.rows(root) == es);
    let m1 = next_step(ops, a, fin, r, n);
    let a1 = stepped(m1, a.pc);
    assert(opened(a, m1, id, root));
    let m2 = next_step(ops, a1, fin, r, (n - 1) as nat);
    let a2 = stepped(m2, a1.pc);
    let found = !m2.flag_cursor_end;
    let cur = a1.cursor(id)->0;
    let cur2 = m2.cursor(id)->0;
    assert(rewound(&a1.btree, &cur, &m2.btree, &cur2, found));
    assert(still(a1.btree, m2.btree)) by {
        assert(a1.btree.tree_at(root, a1.btree.height(root)));
    }
    assert(calm(a, a2, k)) by {
        assert forall|i: int| 0 <= i < k && i < a.cursors@.len() implies #[trigger] a2.cursors@[i]
            == a.cursors@[i] by {
            assert(m1.cursors@[i] == a.cursors@[i]);
        }
    }
    let m3 = next_step(ops, a2, fin, r, (n - 2) as nat);
    let a3 = stepped(m3, a2.pc);
    let n3 = (n - 3) as nat;
    assert(calm(a, a3, k));
    assert(a3.rows() == a.rows());
    if found {
        calm_stands(a, a3, env, cells, k);
        calm_knows(a, a3, k, src);
        still_rows(a.btree, a3.btree, root);
        let (z, l) = scan_loop(
            b,
            inner,
            env,
            cells,
            sink,
            src,
            c,
            f,
            ops,
            a.rows(),
            0,
            a3,
            fin,
            n3,
        );
        calm_twice(a, a3, z, k, k);
        (z, l)
    } else {
        let (z, l) = scan_closes(b, inner, env, sink, src, c, f, ops, a3, fin, n3);
        calm_twice(a, a3, z, k, k);
        (z, l)
    }
}


// -- Plans -----------------------------------------------------

/// Whether a machine has not begun a program: no row is out.
pub open spec fn at_start(a: VMInstance) -> bool {
    &&& a.pc == 0
    &&& !a.flag_halt
    &&& a.rows() == Seq::<Seq<DataView>>::empty()
}

/// A program of a plan that runs through gives out the rows of the plan.
pub proof fn plan_gives_rows(
    p: PhysicalPlanView,
    halt: bool,
    src: Source,
    a: VMInstance,
    fin: VMInstance,
    n: nat,
)
    requires
        plan_program(p, src.cat, halt) matches Ok(ops) && {
            &&& ops.len() <= usize::MAX
            &&& goes(ops, a, fin, src.reals, n)
        },
        knows(a, src),
        at_start(a),
    ensures
        fin.rows() == plan_rows(p, src),
        still(a.btree, fin.btree),
{
    let r = src.reals;
    let ops = plan_program(p, src.cat, halt)->Ok_0;
    let (q, limit) = peeled(p, None)->Ok_0;
    let none = CodeView::empty();
    let c = output_code(q, limit, src.cat, none)->Ok_0;
    let env = Seq::<RowSourceView>::empty();
    let cells = Seq::<CellView>::empty();
    let f = if halt {
        CodeView { ops: c.ops.push(OperationView::Halt(Halt)), ..c }
    } else {
        c
    };
    assert(f.ops.take(f.ops.len() as int) =~= f.ops);
    resolved_links(f, f.ops.len() as int);
    assert(links(ops, f));
    assert(agrees(f, none, c));
    assert(stands_at(a, env, cells));
    match q.node {
        PhysicalPlanNodeView::Project { items, input } => {
            rows_longer(
                *input,
                env,
                SinkView::Row { items: Some(items), limit },
                src.cat,
                none,
            );
        },
        _ => {
            rows_longer(q, env, SinkView::Row { items: None, limit }, src.cat, none);
        },
    }
    let (b, m) = match q.node {
        PhysicalPlanNodeView::Project { items, input } => rows_flow(
            *input,
            SinkView::Row { items: Some(items), limit },
            env,
            cells,
            src,
            none,
            f,
            ops,
            a,
            fin,
            n,
        ),
        _ => rows_flow(
            q,
            SinkView::Row { items: None, limit },
            env,
            cells,
            src,
            none,
            f,
            ops,
            a,
            fin,
            n,
        ),
    };
    assert(b.pc == c.ops.len());
    if halt {
        assert(f.ops[c.ops.len() as int] == OperationView::Halt(Halt));
        let h = next_step(ops, b, fin, r, m);
        let z = stepped(h, b.pc);
        assert(z.flag_halt);
        assert(fin == z);
    } else {
        assert(fin == b);
    }
}

} // verus!
