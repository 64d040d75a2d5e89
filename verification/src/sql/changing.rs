//! Programs that change rows change the rows that they should.
use vstd::prelude::*;

use crate::engine::btree::BTree;
use crate::engine::cursor::{advanced, rewound, row_inserted, row_removed, rows_by_leaves, BTreeCursor};
use crate::engine::laws::found_is;
use crate::engine::node::CellView;
use crate::engine::record::encode_record;
use crate::engine::tree::{as_held, without_key};
use crate::engine::value::DataView;
use crate::sql::ast::{DeleteStmtView, ExprView, TableNameView, UpdateStmtView};
use crate::sql::columns::{
    sees_one, slot_values, slots_computed, slots_longer, slots_straight, the_entry, value_here,
};
use crate::sql::evaluation::{code_longer, evaluated, expression_computed, still};
use crate::sql::mutation::{
    assigned_names, assigned_values, change_end, change_start, column_slots, delete_program,
    slots_code, update_program, update_row,
};
use crate::sql::operations::{
    Close, DeleteRow, Goto, IfCursorEnd, IfNot, MoveNext, OpenWrite, OperationView, Rewind, Rowid,
    UpdateRow,
};
use crate::sql::planner::TableBindingView;
use crate::sql::program::{expr_code, target_of, CodeView, ScopeView};
use crate::sql::reals::{OutcomeView, RealAnswers};
use crate::sql::running::{
    entry_stays, entry_there, goes, links, next_step, resolved_links, run_straight, still_rows,
};
use crate::sql::straight::{countable, expr_straight, holds_code};
use crate::sql::values::truthy;
use crate::sql::vm::{
    executed, gathered, opened, record_of, row_updated, stepped, update_replaces, written,
    VMInstance,
};

verus! {

/// What is done with rows.
pub enum Change {
    Remove,
    /// The columns get new values.
    Replace { slots: Seq<Option<usize>>, exprs: Seq<ExprView> },
}

/// A change to the rows of a table that a condition holds of.
pub struct Work {
    pub root: u32,
    pub predicate: Option<ExprView>,
    pub sc: ScopeView,
    pub change: Change,
    pub reals: RealAnswers,
}

/// A record as it is kept.
pub open spec fn stored(v: Seq<DataView>) -> Seq<DataView> {
    record_of(DataView::Blob(encode_record(v)))->0
}

impl Work {
    /// Whether a row is changed.
    pub open spec fn picks(self, cell: CellView) -> bool {
        match self.predicate {
            None => true,
            Some(p) => match evaluated(p, self.sc, the_entry(cell), self.reals) {
                OutcomeView::Got(v) => truthy(v),
                _ => false,
            },
        }
    }

    /// What becomes of a row.
    pub open spec fn becomes(self, cell: CellView) -> Seq<CellView> {
        if !self.picks(cell) {
            seq![cell]
        } else {
            match self.change {
                Change::Remove => seq![],
                Change::Replace { slots, exprs } => seq![
                    (
                        cell.0,
                        stored(
                            slot_values(slots, exprs, self.sc, true, cell, self.reals)->0,
                        ),
                    ),
                ],
            }
        }
    }

    /// What becomes of the first `n` rows.
    pub open spec fn changed(self, es: Seq<CellView>, n: nat) -> Seq<CellView>
        decreases n,
    {
        if n == 0 {
            seq![]
        } else {
            self.changed(es, (n - 1) as nat) + self.becomes(es[n - 1])
        }
    }

    /// The operations that change one row.
    pub open spec fn body(self, c: CodeView) -> Result<CodeView, Seq<char>> {
        let key = c.registers;
        let d = c.put(OperationView::Rowid(Rowid { cursor_id: 0, dest: key }));
        match self.change {
            Change::Remove => Ok(
                d.emit(OperationView::DeleteRow(DeleteRow { cursor_id: 0, key_reg: key })),
            ),
            Change::Replace { slots, exprs } => match slots_code(slots, exprs, self.sc, true, d) {
                Err(m) => Err(m),
                Ok((f, fields)) => Ok(update_row(key, fields, f)),
            },
        }
    }

    /// The code of the change.
    pub open spec fn code(self) -> Result<CodeView, Seq<char>> {
        match change_start(self.root, self.predicate, self.sc) {
            Err(m) => Err(m),
            Ok(c) => match self.body(c) {
                Err(m) => Err(m),
                Ok(y) => Ok(change_end(y)),
            },
        }
    }
}

/// The code of a change up to the condition.
pub open spec fn loop_start(root_pgno: u32) -> CodeView {
    CodeView::empty().label().label().label().emit(
        OperationView::OpenWrite(OpenWrite { cursor_id: 0, root_pgno }),
    ).emit(OperationView::Rewind(Rewind { cursor_id: 0 })).emit(
        OperationView::IfCursorEnd(IfCursorEnd { target: 1 }),
    ).mark(0)
}

/// Whether a program is that of a change.
pub open spec fn is_work(w: Work, ops: Seq<OperationView>) -> bool {
    &&& sees_one(w.sc)
    &&& w.sc is Table
    &&& w.code() matches Ok(e) && links(ops, e) && ops.len() == e.ops.len() && e.ops.len()
        <= usize::MAX
}

/// The parts of the code of a change.
proof fn work_parts(w: Work, ops: Seq<OperationView>)
    requires
        is_work(w, ops),
    ensures
        ({
            let s = loop_start(w.root);
            let c = change_start(w.root, w.predicate, w.sc)->Ok_0;
            let y = w.body(c)->Ok_0;
            let e = w.code()->Ok_0;
            let q = y.ops.len() as int;
            &&& s.ops.len() == 3
            &&& s.labels =~= seq![Some(3usize), None, None]
            &&& countable(s)
            &&& countable(c)
            &&& 3 <= c.ops.len() < q
            &&& c.labels == s.labels
            &&& y.labels == s.labels
            &&& e.ops.len() == q + 4
            &&& q + 4 <= usize::MAX
            &&& forall|i: int| 0 <= i < 3 ==> #[trigger] c.ops[i] == s.ops[i]
            &&& forall|i: int| 0 <= i < c.ops.len() ==> #[trigger] y.ops[i] == c.ops[i]
            &&& forall|i: int| 0 <= i < q ==> #[trigger] e.ops[i] == y.ops[i]
            &&& e.labels[0] == Some(3usize)
            &&& e.labels[1] == Some((q + 3) as usize)
            &&& e.labels[2] == Some(q as usize)
            &&& e.labels.len() == 3
        }),
{
    let s = loop_start(w.root);
    let c = change_start(w.root, w.predicate, w.sc)->Ok_0;
    let y = w.body(c)->Ok_0;
    let e = w.code()->Ok_0;
    let q = y.ops.len() as int;
    assert(s.ops.len() == 3);
    assert(s.labels =~= seq![Some(3usize), None, None]);
    let d = c.put(OperationView::Rowid(Rowid { cursor_id: 0, dest: c.registers }));
    assert(e.ops.len() == q + 4);
    if let Change::Replace { slots, exprs } = w.change {
        slots_longer(slots, exprs, w.sc, true, d);
    }
    assert(c.ops.len() < q);
    if let Some(p) = w.predicate {
        code_longer(p, w.sc, s);
        expr_straight(p, w.sc, s);
    }
    assert(countable(c));
    if let Change::Replace { slots, exprs } = w.change {
        slots_straight(slots, exprs, w.sc, true, d);
        let f = slots_code(slots, exprs, w.sc, true, d)->Ok_0.0;
        assert forall|i: int| 0 <= i < c.ops.len() implies #[trigger] y.ops[i] == c.ops[i] by {
            assert(f.ops[i] == d.ops[i]);
        }
    }
    assert(y.labels == s.labels);
}

/// The places of a change in its program.
proof fn work_places(w: Work, ops: Seq<OperationView>)
    requires
        is_work(w, ops),
    ensures
        ({
            let q = w.body(change_start(w.root, w.predicate, w.sc)->Ok_0)->Ok_0.ops.len() as int;
            &&& ops.len() == q + 4
            &&& q > 3
            &&& ops[0] == OperationView::OpenWrite(OpenWrite { cursor_id: 0, root_pgno: w.root })
            &&& ops[1] == OperationView::Rewind(Rewind { cursor_id: 0 })
            &&& ops[2] == OperationView::IfCursorEnd(IfCursorEnd { target: (q + 3) as usize })
            &&& ops[q] == OperationView::MoveNext(MoveNext { cursor_id: 0 })
            &&& ops[q + 1] == OperationView::IfCursorEnd(IfCursorEnd { target: (q + 3) as usize })
            &&& ops[q + 2] == OperationView::Goto(Goto { target: 3 })
            &&& ops[q + 3] == OperationView::Close(Close { cursor_id: 0 })
        }),
{
    work_parts(w, ops);
    let s = loop_start(w.root);
    let c = change_start(w.root, w.predicate, w.sc)->Ok_0;
    let y = w.body(c)->Ok_0;
    let e = w.code()->Ok_0;
    let q = y.ops.len() as int;
    assert(e.ops[0] == y.ops[0] && y.ops[0] == c.ops[0] && c.ops[0] == s.ops[0]);
    assert(e.ops[1] == y.ops[1] && y.ops[1] == c.ops[1] && c.ops[1] == s.ops[1]);
    assert(e.ops[2] == y.ops[2] && y.ops[2] == c.ops[2] && c.ops[2] == s.ops[2]);
    assert(target_of(e.ops[0]) is None && target_of(e.ops[1]) is None);
    assert(target_of(e.ops[q]) is None && target_of(e.ops[q + 3]) is None);
    assert(target_of(e.ops[2]) == Some(1usize) && target_of(e.ops[q + 1]) == Some(1usize));
    assert(target_of(e.ops[q + 2]) == Some(0usize));
}

/// Whether a machine is at the row `i` of the rows that are being changed.
pub open spec fn at_row(w: Work, es: Seq<CellView>, i: int, a: VMInstance) -> bool {
    let done = w.changed(es, i as nat);
    &&& 0 <= i < es.len()
    &&& a.btree.is_tree(w.root)
    &&& a.btree.rows(w.root) == done + es.skip(i)
    &&& a.cursor(0) matches Some(cur) && cur.root == w.root && !cur.before_entry && cur.on_entry(
        &a.btree,
        done.len() as int,
    )
}

/// Whether a machine is done with the rows before `i`, and its cursor is on the last
/// of them, or before the next row where that one was removed.
pub open spec fn past_row(w: Work, es: Seq<CellView>, i: int, a: VMInstance) -> bool {
    let done = w.changed(es, i as nat);
    let n = done.len() as int;
    &&& 0 < i <= es.len()
    &&& a.btree.is_tree(w.root)
    &&& a.btree.rows(w.root) == done + es.skip(i)
    &&& a.cursor(0) matches Some(cur) && cur.root == w.root && if cur.before_entry {
        cur.at(&a.btree, n) && (n < a.btree.rows(w.root).len() ==> cur.on_entry(&a.btree, n))
    } else {
        n > 0 && cur.on_entry(&a.btree, n - 1)
    }
}

/// The row that a machine is at is there.
proof fn row_there(w: Work, es: Seq<CellView>, i: int, a: VMInstance)
    requires
        at_row(w, es, i, a),
    ensures
        a.entry(0) == Some(es[i]),
        a.btree.rows(w.root)[w.changed(es, i as nat).len() as int] == es[i],
{
    let done = w.changed(es, i as nat);
    let cur = a.cursor(0)->0;
    entry_there(cur, a.btree, done.len() as int);
    assert((done + es.skip(i))[done.len() as int] == es[i]);
}

/// Registers that change leave a machine at its row.
proof fn row_stays(w: Work, es: Seq<CellView>, i: int, a: VMInstance, b: VMInstance)
    requires
        at_row(w, es, i, a),
        still(a.btree, b.btree),
        b.cursors == a.cursors,
    ensures
        at_row(w, es, i, b),
{
    still_rows(a.btree, b.btree, w.root);
    entry_stays(a.cursor(0)->0, a.btree, b.btree, w.changed(es, i as nat).len() as int);
}

/// A row that is left alone is behind the machine.
proof fn row_left(w: Work, es: Seq<CellView>, i: int, a: VMInstance)
    requires
        at_row(w, es, i, a),
        !w.picks(es[i]),
    ensures
        past_row(w, es, i + 1, a),
{
    let done = w.changed(es, i as nat);
    assert(w.changed(es, (i + 1) as nat) == done + seq![es[i]]);
    assert(done + es.skip(i) =~= done + seq![es[i]] + es.skip(i + 1));
}

/// Removing the row that a machine is at.
proof fn row_gone(
    w: Work,
    es: Seq<CellView>,
    i: int,
    a: VMInstance,
    b: VMInstance,
    key_reg: usize,
)
    requires
        at_row(w, es, i, a),
        w.picks(es[i]),
        w.change is Remove,
        a.reg(key_reg) == Some(es[i].0),
        executed(
            OperationView::DeleteRow(DeleteRow { cursor_id: 0, key_reg }),
            a,
            b,
            w.reals,
            crate::sql::vm::StepView::Done,
        ),
    ensures
        past_row(w, es, i + 1, b),
{
    let done = w.changed(es, i as nat);
    let n = done.len() as int;
    let e = a.btree.rows(w.root);
    let cur = a.cursor(0)->0;
    row_there(w, es, i, a);
    rows_by_leaves(&a.btree, w.root);
    assert(as_held(e, e[n].0) == e[n].0);
    assert(row_removed(&a.btree, &cur, &b.btree, &b.cursor(0)->0, es[i].0, true));
    found_is(e, n);
    assert(without_key(e, es[i].0) =~= done + es.skip(i + 1));
    assert(w.becomes(es[i]) =~= seq![]);
    assert(w.changed(es, (i + 1) as nat) =~= done);
}

/// Replacing the row that a machine is at.
proof fn row_replaced(
    w: Work,
    es: Seq<CellView>,
    i: int,
    a: VMInstance,
    b: VMInstance,
    key_reg: usize,
    value_reg: usize,
    v: Seq<DataView>,
)
    requires
        at_row(w, es, i, a),
        w.picks(es[i]),
        w.change is Replace,
        slot_values(
            w.change->slots,
            w.change->exprs,
            w.sc,
            true,
            es[i],
            w.reals,
        ) == Some(v),
        a.reg(key_reg) == Some(es[i].0),
        a.reg(value_reg) == Some(DataView::Blob(encode_record(v))),
        executed(
            OperationView::UpdateRow(UpdateRow { cursor_id: 0, key_reg, value_reg }),
            a,
            b,
            w.reals,
            crate::sql::vm::StepView::Done,
        ),
    ensures
        past_row(w, es, i + 1, b),
{
    let done = w.changed(es, i as nat);
    let n = done.len() as int;
    let e = a.btree.rows(w.root);
    let cur = a.cursor(0)->0;
    let cur2 = b.cursor(0)->0;
    let k = es[i].0;
    row_there(w, es, i, a);
    rows_by_leaves(&a.btree, w.root);
    assert(as_held(e, e[n].0) == e[n].0);
    assert(record_of(DataView::Blob(encode_record(v))) is Some);
    assert(row_updated(&a.btree, &cur, &b.btree, &cur2, k, stored(v), true));
    update_replaces(&a.btree, &cur, &b.btree, &cur2, k, stored(v));
    found_is(e, n);
    let cell = (k, stored(v));
    let f = b.btree.rows(w.root);
    assert(f == e.update(n, cell));
    assert(w.becomes(es[i]) =~= seq![cell]);
    let more = w.changed(es, (i + 1) as nat);
    assert(more =~= done.push(cell));
    assert(f =~= more + es.skip(i + 1));
    rows_by_leaves(&b.btree, w.root);
    assert(f[n] == cell);
    found_is(f, n);
    let (m, c1) = choose|m: BTree, c1: BTreeCursor|
        row_removed(&a.btree, &cur, &m, &c1, k, true) && #[trigger] row_inserted(
            &m,
            &c1,
            &b.btree,
            &cur2,
            k,
            stored(v),
            true,
        );
    assert(cur2.on_entry(&b.btree, n));
}


// -- The loop --------------------------------------------------

/// An operation of the program of a change, where it does not jump.
proof fn work_op(w: Work, ops: Seq<OperationView>, i: int)
    requires
        is_work(w, ops),
        ({
            let y = w.body(change_start(w.root, w.predicate, w.sc)->Ok_0)->Ok_0;
            0 <= i < y.ops.len() && target_of(y.ops[i]) is None
        }),
    ensures
        ops[i] == w.body(change_start(w.root, w.predicate, w.sc)->Ok_0)->Ok_0.ops[i],
{
    work_parts(w, ops);
    let y = w.body(change_start(w.root, w.predicate, w.sc)->Ok_0)->Ok_0;
    let e = w.code()->Ok_0;
    assert(e.ops[i] == y.ops[i]);
}

/// The condition decides whether the row that a machine is at is changed.
#[verifier::rlimit(60)]
#[verifier::spinoff_prover]
proof fn condition_flow(
    w: Work,
    ops: Seq<OperationView>,
    es: Seq<CellView>,
    i: int,
    a: VMInstance,
    fin: VMInstance,
    n: nat,
) -> (z: (VMInstance, nat))
    requires
        is_work(w, ops),
        at_row(w, es, i, a),
        a.pc == 3,
        !a.flag_halt,
        goes(ops, a, fin, w.reals, n),
    ensures
        goes(ops, z.0, fin, w.reals, z.1),
        !z.0.flag_halt,
        at_row(w, es, i, z.0),
        ({
            let c = change_start(w.root, w.predicate, w.sc)->Ok_0;
            let y = w.body(c)->Ok_0;
            z.0.pc == if w.picks(es[i]) {
                c.ops.len()
            } else {
                y.ops.len()
            }
        }),
{
    work_parts(w, ops);
    let s = loop_start(w.root);
    let c = change_start(w.root, w.predicate, w.sc)->Ok_0;
    let y = w.body(c)->Ok_0;
    let e = w.code()->Ok_0;
    row_there(w, es, i, a);
    match w.predicate {
        None => (a, n),
        Some(p) => {
            let (d, cond_reg) = expr_code(p, w.sc, s)->Ok_0;
            code_longer(p, w.sc, s);
            expr_straight(p, w.sc, s);
            assert forall|k: int| 3 <= k < d.ops.len() implies #[trigger] ops[k] == d.ops[k]
                && target_of(ops[k]) is None && !(ops[k] is Halt) by {
                assert(c.ops[k] == d.ops[k]);
                assert(y.ops[k] == c.ops[k]);
                assert(target_of(d.ops[k]) is None);
                work_op(w, ops, k);
            }
            assert(holds_code(ops, s, d));
            let (a1, n1) = run_straight(ops, 3, d.ops.len() as int, a, fin, w.reals, n);
            expression_computed(p, w.sc, s, ops, a, a1, w.reals);
            value_here(p, w.sc, es[i], a, w.reals);
            row_stays(w, es, i, a, a1);
            let j = d.ops.len() as int;
            assert(c.ops[j] == OperationView::IfNot(IfNot { cond_reg, target: 2 }));
            assert(e.ops[j] == y.ops[j] && y.ops[j] == c.ops[j]);
            assert(target_of(e.ops[j]) == Some(2usize));
            let m = next_step(ops, a1, fin, w.reals, n1);
            let a2 = stepped(m, a1.pc);
            row_stays(w, es, i, a1, a2);
            (a2, (n1 - 1) as nat)
        },
    }
}

/// The operations that change a row change the row that a machine is at.
#[verifier::rlimit(80)]
#[verifier::spinoff_prover]
proof fn body_flow(
    w: Work,
    ops: Seq<OperationView>,
    es: Seq<CellView>,
    i: int,
    a: VMInstance,
    fin: VMInstance,
    n: nat,
) -> (z: (VMInstance, nat))
    requires
        is_work(w, ops),
        at_row(w, es, i, a),
        w.picks(es[i]),
        a.pc == change_start(w.root, w.predicate, w.sc)->Ok_0.ops.len(),
        !a.flag_halt,
        goes(ops, a, fin, w.reals, n),
    ensures
        goes(ops, z.0, fin, w.reals, z.1),
        !z.0.flag_halt,
        past_row(w, es, i + 1, z.0),
        z.0.pc == w.body(change_start(w.root, w.predicate, w.sc)->Ok_0)->Ok_0.ops.len(),
{
    let r = w.reals;
    work_parts(w, ops);
    let c = change_start(w.root, w.predicate, w.sc)->Ok_0;
    let y = w.body(c)->Ok_0;
    let key = c.registers;
    let d = c.put(OperationView::Rowid(Rowid { cursor_id: 0, dest: key }));
    let j = c.ops.len() as int;
    row_there(w, es, i, a);
    match w.change {
        Change::Remove => {
            work_op(w, ops, j);
            work_op(w, ops, j + 1);
            let m1 = next_step(ops, a, fin, r, n);
            let a1 = stepped(m1, a.pc);
            assert(written(a.regs(), key, es[i].0)[key as int] == es[i].0);
            row_stays(w, es, i, a, a1);
            let m2 = next_step(ops, a1, fin, r, (n - 1) as nat);
            row_gone(w, es, i, a1, m2, key);
            let z = stepped(m2, a1.pc);
            assert(past_row(w, es, i + 1, z));
            (z, (n - 2) as nat)
        },
        Change::Replace { slots, exprs } => {
            let (f, fields) = slots_code(slots, exprs, w.sc, true, d)->Ok_0;
            slots_longer(slots, exprs, w.sc, true, d);
            slots_straight(slots, exprs, w.sc, true, d);
            let k = f.ops.len() as int;
            assert(f.ops[j] == d.ops[j]);
            assert(y.ops[j] == f.ops[j]);
            work_op(w, ops, j);
            assert forall|x: int| d.ops.len() <= x < k implies #[trigger] ops[x] == f.ops[x]
                && target_of(ops[x]) is None && !(ops[x] is Halt) by {
                assert(y.ops[x] == f.ops[x]);
                assert(target_of(f.ops[x]) is None);
                work_op(w, ops, x);
            }
            assert(holds_code(ops, d, f));
            work_op(w, ops, k);
            work_op(w, ops, k + 1);
            let m1 = next_step(ops, a, fin, r, n);
            let a1 = stepped(m1, a.pc);
            let reg = written(a.regs(), key, es[i].0);
            assert(m1.regs() == reg);
            assert(reg[key as int] == es[i].0);
            assert(a1.reg(key) == Some(es[i].0));
            row_stays(w, es, i, a, a1);
            row_there(w, es, i, a1);
            let (a2, n2) = run_straight(
                ops,
                d.ops.len() as int,
                k,
                a1,
                fin,
                r,
                (n - 1) as nat,
            );
            slots_computed(slots, exprs, w.sc, true, es[i], d, ops, a1, a2, r);
            row_stays(w, es, i, a1, a2);
            assert(a2.regs()[key as int] == a1.regs()[key as int]);
            let v = slot_values(slots, exprs, w.sc, true, es[i], r)->0;
            assert forall|x: int| 0 <= x < fields.len() implies #[trigger] fields[x]
                < a2.regs().len() && a2.regs()[fields[x] as int] == v[x] by {
                assert(a2.reg(fields[x]) == Some(v[x]));
            }
            assert(gathered(a2.regs(), fields) is Some);
            assert(gathered(a2.regs(), fields)->0 =~= v);
            let m3 = next_step(ops, a2, fin, r, n2);
            let a3 = stepped(m3, a2.pc);
            let record = f.registers;
            let blob = DataView::Blob(encode_record(v));
            let reg3 = written(a2.regs(), record, blob);
            assert(m3.regs() == reg3);
            assert(reg3[record as int] == blob);
            assert(key < record);
            assert(reg3[key as int] == a2.regs()[key as int]);
            row_stays(w, es, i, a2, a3);
            let m4 = next_step(ops, a3, fin, r, (n2 - 1) as nat);
            row_replaced(w, es, i, a3, m4, key, record, v);
            let z = stepped(m4, a3.pc);
            assert(past_row(w, es, i + 1, z));
            (z, (n2 - 2) as nat)
        },
    }
}

/// Whether a machine has changed all rows.
pub open spec fn all_changed(w: Work, es: Seq<CellView>, a: VMInstance) -> bool {
    a.btree.is_tree(w.root) && a.btree.rows(w.root) == w.changed(es, es.len())
}

/// The loop of a change goes on to the end of the program.
#[verifier::rlimit(80)]
#[verifier::spinoff_prover]
proof fn loop_flow(
    w: Work,
    ops: Seq<OperationView>,
    es: Seq<CellView>,
    i: int,
    a: VMInstance,
    fin: VMInstance,
    n: nat,
)
    requires
        is_work(w, ops),
        at_row(w, es, i, a),
        a.pc == 3,
        !a.flag_halt,
        goes(ops, a, fin, w.reals, n),
    ensures
        all_changed(w, es, fin),
    decreases es.len() - i,
{
    let r = w.reals;
    work_parts(w, ops);
    work_places(w, ops);
    let c = change_start(w.root, w.predicate, w.sc)->Ok_0;
    let q = w.body(c)->Ok_0.ops.len() as int;
    let (a1, n1) = condition_flow(w, ops, es, i, a, fin, n);
    let (a2, n2) = if w.picks(es[i]) {
        body_flow(w, ops, es, i, a1, fin, n1)
    } else {
        row_left(w, es, i, a1);
        (a1, n1)
    };
    assert(past_row(w, es, i + 1, a2));
    assert(a2.pc == q);
    let done = w.changed(es, (i + 1) as nat);
    let e = a2.btree.rows(w.root);
    assert(e.len() == done.len() + (es.len() - (i + 1)));
    let m = next_step(ops, a2, fin, r, n2);
    let a3 = stepped(m, a2.pc);
    let cur = a2.cursor(0)->0;
    let cur2 = m.cursor(0)->0;
    let found = !m.flag_cursor_end;
    assert(advanced(&a2.btree, &cur, &m.btree, &cur2, found));
    assert(still(a2.btree, m.btree)) by {
        assert(a2.btree.tree_at(w.root, a2.btree.height(w.root)));
    }
    still_rows(a2.btree, m.btree, w.root);
    let at = if cur.before_entry {
        done.len() as int
    } else {
        done.len() - 1
    };
    if cur.before_entry {
        assert(cur.at(&a2.btree, at));
    } else {
        assert(cur.on_entry(&a2.btree, at));
    }
    assert(found == (i + 1 < es.len()));
    let m4 = next_step(ops, a3, fin, r, (n2 - 1) as nat);
    let a4 = stepped(m4, a3.pc);
    if found {
        assert(a4.pc == q + 2);
        let m5 = next_step(ops, a4, fin, r, (n2 - 2) as nat);
        let a5 = stepped(m5, a4.pc);
        assert(cur2.on_entry(&m.btree, done.len() as int));
        assert(a5.btree == m.btree && a5.cursors == m.cursors);
        assert(at_row(w, es, i + 1, a5));
        loop_flow(w, ops, es, i + 1, a5, fin, (n2 - 3) as nat);
    } else {
        assert(a4.pc == q + 3);
        assert(es.skip(i + 1) =~= seq![]);
        assert(e =~= done);
        let m5 = next_step(ops, a4, fin, r, (n2 - 2) as nat);
        let a5 = stepped(m5, a4.pc);
        assert(a5.pc == q + 4);
        assert(fin == a5);
    }
}

/// A program of a change that runs through changes the rows that it should, and no
/// others of its table.
pub proof fn work_done(
    w: Work,
    ops: Seq<OperationView>,
    a: VMInstance,
    fin: VMInstance,
    n: nat,
)
    requires
        is_work(w, ops),
        a.btree.is_tree(w.root),
        a.pc == 0,
        !a.flag_halt,
        goes(ops, a, fin, w.reals, n),
    ensures
        all_changed(w, a.btree.rows(w.root), fin),
{
    let r = w.reals;
    let es = a.btree.rows(w.root);
    work_parts(w, ops);
    work_places(w, ops);
    let q = w.body(change_start(w.root, w.predicate, w.sc)->Ok_0)->Ok_0.ops.len() as int;
    let m1 = next_step(ops, a, fin, r, n);
    let a1 = stepped(m1, a.pc);
    assert(opened(a, m1, 0, w.root));
    let m2 = next_step(ops, a1, fin, r, (n - 1) as nat);
    let a2 = stepped(m2, a1.pc);
    let cur = a1.cursor(0)->0;
    let cur2 = m2.cursor(0)->0;
    let found = !m2.flag_cursor_end;
    assert(rewound(&a1.btree, &cur, &m2.btree, &cur2, found));
    assert(still(a1.btree, m2.btree)) by {
        assert(a1.btree.tree_at(w.root, a1.btree.height(w.root)));
    }
    still_rows(a1.btree, m2.btree, w.root);
    let m3 = next_step(ops, a2, fin, r, (n - 2) as nat);
    let a3 = stepped(m3, a2.pc);
    if found {
        assert(a3.pc == 3);
        let none = w.changed(es, 0);
        assert(none + es.skip(0) =~= es);
        assert(at_row(w, es, 0, a3));
        loop_flow(w, ops, es, 0, a3, fin, (n - 3) as nat);
    } else {
        assert(a3.pc == q + 3);
        let m4 = next_step(ops, a3, fin, r, (n - 3) as nat);
        let a4 = stepped(m4, a3.pc);
        assert(a4.pc == q + 4);
        assert(fin == a4);
        assert(es =~= seq![]);
        assert(w.changed(es, es.len()) =~= es);
    }
}

// -- Statements ------------------------------------------------

/// The change that a DELETE statement is.
pub open spec fn delete_work(stmt: DeleteStmtView, b: TableBindingView, r: RealAnswers) -> Work {
    Work {
        root: b.root_pgno,
        predicate: stmt.where_clause,
        sc: ScopeView::Table(stmt.table.name, b.columns),
        change: Change::Remove,
        reals: r,
    }
}

/// A DELETE statement that runs through removes the rows that its condition holds of,
/// and no others.
pub proof fn delete_removes(
    stmt: DeleteStmtView,
    cat: spec_fn(TableNameView) -> Option<TableBindingView>,
    r: RealAnswers,
    a: VMInstance,
    fin: VMInstance,
    n: nat,
)
    requires
        delete_program(stmt, cat) matches Ok(ops) && ops.len() <= usize::MAX && goes(
            ops,
            a,
            fin,
            r,
            n,
        ),
        a.btree.is_tree(cat(stmt.table)->0.root_pgno),
        a.pc == 0,
        !a.flag_halt,
    ensures
        ({
            let b = cat(stmt.table)->0;
            let w = delete_work(stmt, b, r);
            let es = a.btree.rows(b.root_pgno);
            &&& fin.btree.is_tree(b.root_pgno)
            &&& fin.btree.rows(b.root_pgno) == es.filter(|c: CellView| !w.picks(c))
        }),
{
    let b = cat(stmt.table)->0;
    let w = delete_work(stmt, b, r);
    let ops = delete_program(stmt, cat)->Ok_0;
    let es = a.btree.rows(b.root_pgno);
    let e = w.code()->Ok_0;
    assert(e.ops.take(e.ops.len() as int) =~= e.ops);
    resolved_links(e, e.ops.len() as int);
    assert(is_work(w, ops));
    work_done(w, ops, a, fin, n);
    kept_rows(w, es, es.len());
    assert(es.take(es.len() as int) =~= es);
}

/// What is left of rows are those that are not picked.
proof fn kept_rows(w: Work, es: Seq<CellView>, n: nat)
    requires
        n <= es.len(),
        w.change is Remove,
    ensures
        w.changed(es, n) == es.take(n as int).filter(|c: CellView| !w.picks(c)),
    decreases n,
{
    let keep = |c: CellView| !w.picks(c);
    reveal(Seq::filter);
    if n > 0 {
        kept_rows(w, es, (n - 1) as nat);
        let t = es.take(n as int);
        assert(t.drop_last() =~= es.take(n - 1));
        assert(t.last() == es[n - 1]);
        let k = w.changed(es, (n - 1) as nat);
        if w.picks(es[n - 1]) {
            assert(k + w.becomes(es[n - 1]) =~= k);
        } else {
            assert(k + w.becomes(es[n - 1]) =~= k.push(es[n - 1]));
        }
    } else {
        assert(es.take(0) =~= seq![]);
    }
}

/// The change that an UPDATE statement is.
pub open spec fn update_work(stmt: UpdateStmtView, b: TableBindingView, r: RealAnswers) -> Work {
    Work {
        root: b.root_pgno,
        predicate: stmt.where_clause,
        sc: ScopeView::Table(stmt.table.name, b.columns),
        change: Change::Replace {
            slots: column_slots(
                assigned_names(stmt.assignments),
                b.columns,
                "duplicate assignment to column"@,
            )->Ok_0,
            exprs: assigned_values(stmt.assignments),
        },
        reals: r,
    }
}

/// An UPDATE statement that runs through gives new values to the rows that its
/// condition holds of, and leaves the others as they are.
pub proof fn update_changes(
    stmt: UpdateStmtView,
    cat: spec_fn(TableNameView) -> Option<TableBindingView>,
    r: RealAnswers,
    a: VMInstance,
    fin: VMInstance,
    n: nat,
)
    requires
        update_program(stmt, cat) matches Ok(ops) && ops.len() <= usize::MAX && goes(
            ops,
            a,
            fin,
            r,
            n,
        ),
        a.btree.is_tree(cat(stmt.table)->0.root_pgno),
        a.pc == 0,
        !a.flag_halt,
    ensures
        ({
            let b = cat(stmt.table)->0;
            let w = update_work(stmt, b, r);
            let es = a.btree.rows(b.root_pgno);
            &&& fin.btree.is_tree(b.root_pgno)
            &&& fin.btree.rows(b.root_pgno).len() == es.len()
            &&& forall|i: int|
                0 <= i < es.len() ==> #[trigger] fin.btree.rows(b.root_pgno)[i] == if w.picks(
                    es[i],
                ) {
                    (
                        es[i].0,
                        stored(
                            slot_values(
                                w.change->slots,
                                w.change->exprs,
                                w.sc,
                                true,
                                es[i],
                                r,
                            )->0,
                        ),
                    )
                } else {
                    es[i]
                }
        }),
{
    let b = cat(stmt.table)->0;
    let w = update_work(stmt, b, r);
    let ops = update_program(stmt, cat)->Ok_0;
    let es = a.btree.rows(b.root_pgno);
    let e = w.code()->Ok_0;
    assert(e.ops.take(e.ops.len() as int) =~= e.ops);
    resolved_links(e, e.ops.len() as int);
    assert(is_work(w, ops));
    work_done(w, ops, a, fin, n);
    new_rows(w, es, es.len());
}

/// Rows that are changed one by one.
proof fn new_rows(w: Work, es: Seq<CellView>, n: nat)
    requires
        n <= es.len(),
        w.change is Replace,
    ensures
        w.changed(es, n).len() == n,
        forall|i: int| 0 <= i < n ==> #[trigger] w.changed(es, n)[i] == w.becomes(es[i])[0],
    decreases n,
{
    if n > 0 {
        new_rows(w, es, (n - 1) as nat);
        assert(w.becomes(es[n - 1]).len() == 1);
    }
}

} // verus!
