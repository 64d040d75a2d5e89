//! Programs that add rows add the rows that they should.
use vstd::prelude::*;

use crate::engine::cursor::{
    end_below, entry_same, in_order, next_key, root_below, row_inserted, rows_below, rows_by_leaves,
};
use crate::engine::node::CellView;
use crate::engine::record::encode_record;
use crate::engine::order::{key_lt, key_lt_irreflexive, key_lt_transitive};
use crate::engine::tree::{lower_bound, lower_bound_is, sorted, with_cell};
use crate::engine::value::DataView;
use crate::sql::ast::{ExprView, InsertStmtView, TableNameView};
use crate::sql::changing::stored;
use crate::sql::columns::{slot_values, slots_computed, slots_longer, slots_straight};
use crate::sql::evaluation::still;
use crate::sql::mutation::{
    column_slots, insert_fields, insert_program, insert_row, insert_rows, slots_code,
    slots_in_order,
};
use crate::sql::operations::{Close, OpenWrite, OperationView};
use crate::sql::planner::TableBindingView;
use crate::sql::program::{target_of, CodeView, ScopeView};
use crate::sql::reals::RealAnswers;
use crate::sql::running::{goes, next_step, resolved_links, run_straight, still_rows};
use crate::sql::schema::ColumnDefView;
use crate::sql::straight::{countable, holds_code, straight, straight_twice};
use crate::sql::vm::{gathered, opened, record_of, stepped, written, VMInstance};

verus! {

/// Which of the values of a row each column has.
pub open spec fn row_slots(
    stmt: InsertStmtView,
    row: Seq<ExprView>,
    columns: Seq<ColumnDefView>,
) -> Seq<Option<usize>> {
    match stmt.columns {
        Some(names) => column_slots(names, columns, "duplicate INSERT column"@)->Ok_0,
        None => slots_in_order(row.len()),
    }
}

/// The entry for a row that is added: under the next key.
pub open spec fn new_entry(
    e: Seq<CellView>,
    stmt: InsertStmtView,
    row: Seq<ExprView>,
    columns: Seq<ColumnDefView>,
    r: RealAnswers,
) -> CellView {
    (
        DataView::Integer(next_key(e)->0),
        stored(
            slot_values(
                row_slots(stmt, row, columns),
                row,
                ScopeView::NoColumns,
                false,
                no_entry(),
                r,
            )->0,
        ),
    )
}

/// An entry without fields: rows that are added are computed from nothing.
pub open spec fn no_entry() -> CellView {
    (DataView::Null, seq![])
}

/// The entries of a table with rows added.
pub open spec fn with_rows(
    e: Seq<CellView>,
    stmt: InsertStmtView,
    rows: Seq<Seq<ExprView>>,
    columns: Seq<ColumnDefView>,
    r: RealAnswers,
) -> Seq<CellView>
    decreases rows.len(),
{
    if rows.len() == 0 {
        e
    } else {
        let before = with_rows(e, stmt, rows.drop_last(), columns, r);
        with_cell(before, new_entry(before, stmt, rows.last(), columns, r))
    }
}

/// The columns of a row are those of its slots.
proof fn fields_are_slots(
    stmt: InsertStmtView,
    row: Seq<ExprView>,
    columns: Seq<ColumnDefView>,
    c: CodeView,
)
    requires
        insert_fields(stmt, row, columns, c) is Ok,
    ensures
        insert_fields(stmt, row, columns, c) == slots_code(
            row_slots(stmt, row, columns),
            row,
            ScopeView::NoColumns,
            false,
            c,
        ),
{
}

/// Adding rows does not jump.
proof fn rows_straight(
    stmt: InsertStmtView,
    rows: Seq<Seq<ExprView>>,
    columns: Seq<ColumnDefView>,
    c: CodeView,
)
    requires
        countable(c),
        insert_rows(stmt, rows, columns, c) matches Ok(d) && d.ops.len() <= usize::MAX,
    ensures
        straight(c, insert_rows(stmt, rows, columns, c)->Ok_0),
    decreases rows.len(),
{
    if rows.len() > 0 {
        let d = insert_rows(stmt, rows.drop_last(), columns, c)->Ok_0;
        let row = rows.last();
        let slots = row_slots(stmt, row, columns);
        fields_are_slots(stmt, row, columns, d);
        let (f, fields) = insert_fields(stmt, row, columns, d)->Ok_0;
        let g = insert_row(fields, f);
        slots_longer(slots, row, ScopeView::NoColumns, false, d);
        rows_straight(stmt, rows.drop_last(), columns, c);
        slots_straight(slots, row, ScopeView::NoColumns, false, d);
        assert(straight(f, g));
        straight_twice(c, d, f);
        straight_twice(c, f, g);
    }
}

/// Whether a machine can add rows to a table that has some.
pub open spec fn can_add(a: VMInstance, root: u32, e: Seq<CellView>) -> bool {
    &&& a.btree.is_tree(root)
    &&& a.btree.rows(root) == e
    &&& a.cursor(0) matches Some(cur) && cur.root == root
}

/// Whether the next key after what is below the cursor of a machine is that after all
/// rows of the table: the cursor is at the root, or at the last row.
pub open spec fn at_end(a: VMInstance, root: u32) -> bool {
    a.cursor(0) matches Some(cur) && (cur.node == root || cur.on_entry(
        &a.btree,
        a.btree.rows(root).len() - 1,
    ))
}

/// The next key is that after all rows.
proof fn next_at_end(a: VMInstance, root: u32, e: Seq<CellView>)
    requires
        can_add(a, root, e),
        at_end(a, root),
    ensures
        ({
            let cur = a.cursor(0)->0;
            in_order(&a.btree, cur.node) && next_key(rows_below(&a.btree, cur.node)) == next_key(e)
        }),
{
    let cur = a.cursor(0)->0;
    if cur.node == root {
        root_below(&a.btree, root);
    } else {
        end_below(&a.btree, cur);
    }
}

/// The next key comes behind all others.
proof fn next_is_last(e: Seq<CellView>, v: Seq<DataView>)
    requires
        sorted(e),
        next_key(e) is Some,
    ensures
        ({
            let k = DataView::Integer(next_key(e)->0);
            let f = with_cell(e, (k, v));
            f.len() == e.len() + 1 && lower_bound(f, k) == e.len()
        }),
{
    broadcast use {key_lt_transitive, key_lt_irreflexive};

    let k = DataView::Integer(next_key(e)->0);
    let n = e.len() as int;
    assert forall|i: int| 0 <= i < n implies key_lt((#[trigger] e[i]).0, k) by {
        assert(e.last() == e[n - 1]);
        assert(e.last().0 matches DataView::Integer(x) && next_key(e)->0 == x + 1);
        assert(key_lt(e[n - 1].0, k)) by {
            reveal(key_lt);
        }
        if i < n - 1 {
            assert(key_lt(e[i].0, e[n - 1].0));
        }
    }
    lower_bound_is(e, k, n);
    let f = with_cell(e, (k, v));
    assert forall|i: int| 0 <= i < f.len() implies (i < n) == key_lt((#[trigger] f[i]).0, k) by {
        if i < n {
            assert(f[i] == e[i]);
        }
    }
    lower_bound_is(f, k, n);
}

/// Registers that change leave tables as they are.
proof fn add_stays(a: VMInstance, b: VMInstance, root: u32, e: Seq<CellView>)
    requires
        can_add(a, root, e),
        still(a.btree, b.btree),
        b.cursor(0) matches Some(cur) && cur.root == root,
    ensures
        can_add(b, root, e),
{
    still_rows(a.btree, b.btree, root);
}

/// Registers that change leave the cursor where it is.
proof fn end_stays(a: VMInstance, b: VMInstance, root: u32, e: Seq<CellView>)
    requires
        can_add(a, root, e),
        at_end(a, root),
        still(a.btree, b.btree),
        b.cursor(0) == a.cursor(0),
    ensures
        at_end(b, root),
{
    let cur = a.cursor(0)->0;
    still_rows(a.btree, b.btree, root);
    if cur.node != root {
        assert(a.btree.tree_at(root, a.btree.height(root)));
        entry_same(&a.btree, &b.btree, cur, e.len() - 1);
    }
}

/// Whether a program holds operations that do not jump.
pub open spec fn plainly(ops: Seq<OperationView>, c: CodeView, d: CodeView) -> bool {
    &&& holds_code(ops, c, d)
    &&& forall|i: int|
        c.ops.len() <= i < d.ops.len() ==> target_of(#[trigger] ops[i]) is None && !(
        ops[i] is Halt)
}

/// One row is added.
#[verifier::rlimit(80)]
#[verifier::spinoff_prover]
proof fn row_added(
    stmt: InsertStmtView,
    row: Seq<ExprView>,
    columns: Seq<ColumnDefView>,
    root: u32,
    e: Seq<CellView>,
    d: CodeView,
    ops: Seq<OperationView>,
    r: RealAnswers,
    a: VMInstance,
    fin: VMInstance,
    n: nat,
) -> (z: (VMInstance, nat))
    requires
        countable(d),
        insert_fields(stmt, row, columns, d) matches Ok(x) && {
            let g = insert_row(x.1, x.0);
            g.ops.len() <= usize::MAX && plainly(ops, d, g)
        },
        can_add(a, root, e),
        at_end(a, root),
        a.pc == d.ops.len(),
        !a.flag_halt,
        goes(ops, a, fin, r, n),
    ensures
        goes(ops, z.0, fin, r, z.1),
        !z.0.flag_halt,
        ({
            let x = insert_fields(stmt, row, columns, d)->Ok_0;
            z.0.pc == insert_row(x.1, x.0).ops.len()
        }),
        can_add(z.0, root, with_cell(e, new_entry(e, stmt, row, columns, r))),
        at_end(z.0, root),
{
    let slots = row_slots(stmt, row, columns);
    let sc = ScopeView::NoColumns;
    fields_are_slots(stmt, row, columns, d);
    let (f, fields) = insert_fields(stmt, row, columns, d)->Ok_0;
    let g = insert_row(fields, f);
    slots_longer(slots, row, sc, false, d);
    slots_straight(slots, row, sc, false, d);
    let k = f.ops.len() as int;
    assert(g.ops.len() == k + 3);
    assert(holds_code(ops, d, f)) by {
        assert forall|i: int| d.ops.len() <= i < k implies #[trigger] ops[i] == f.ops[i] by {
            assert(ops[i] == g.ops[i]);
        }
    }
    let (a1, n1) = run_straight(ops, d.ops.len() as int, k, a, fin, r, n);
    slots_computed(slots, row, sc, false, no_entry(), d, ops, a, a1, r);
    add_stays(a, a1, root, e);
    end_stays(a, a1, root, e);
    next_at_end(a1, root, e);
    let v = slot_values(slots, row, sc, false, no_entry(), r)->0;
    assert(ops[k] == g.ops[k] && ops[k + 1] == g.ops[k + 1] && ops[k + 2] == g.ops[k + 2]);
    let key = f.registers;
    let record = (f.registers + 1) as usize;
    let m2 = next_step(ops, a1, fin, r, n1);
    let a2 = stepped(m2, a1.pc);
    let id = DataView::Integer(next_key(e)->0);
    let reg2 = written(a1.regs(), key, id);
    assert(m2.regs() == reg2);
    assert(reg2[key as int] == id);
    assert(still(a1.btree, a2.btree)) by {
        assert(a1.btree.tree_at(root, a1.btree.height(root)));
    }
    add_stays(a1, a2, root, e);
    assert forall|x: int| 0 <= x < fields.len() implies #[trigger] fields[x] < a2.regs().len()
        && a2.regs()[fields[x] as int] == v[x] by {
        assert(a1.reg(fields[x]) == Some(v[x]));
        assert(fields[x] < key);
        assert(reg2[fields[x] as int] == a1.regs()[fields[x] as int]);
    }
    assert(gathered(a2.regs(), fields) is Some);
    assert(gathered(a2.regs(), fields)->0 =~= v);
    let m3 = next_step(ops, a2, fin, r, (n1 - 1) as nat);
    let a3 = stepped(m3, a2.pc);
    let blob = DataView::Blob(encode_record(v));
    let reg3 = written(a2.regs(), record, blob);
    assert(m3.regs() == reg3);
    assert(reg3[record as int] == blob);
    assert(reg3[key as int] == id);
    add_stays(a2, a3, root, e);
    let m4 = next_step(ops, a3, fin, r, (n1 - 2) as nat);
    let a4 = stepped(m4, a3.pc);
    assert(record_of(blob) is Some);
    assert(row_inserted(
        &a3.btree,
        &a3.cursor(0)->0,
        &m4.btree,
        &m4.cursor(0)->0,
        id,
        stored(v),
        true,
    ));
    rows_by_leaves(&a3.btree, root);
    next_is_last(e, stored(v));
    assert(a4.cursor(0)->0.on_entry(&a4.btree, e.len() as int));
    (a4, (n1 - 3) as nat)
}

/// Rows are added one after the other.
proof fn rows_added(
    stmt: InsertStmtView,
    rows: Seq<Seq<ExprView>>,
    columns: Seq<ColumnDefView>,
    root: u32,
    e: Seq<CellView>,
    c: CodeView,
    ops: Seq<OperationView>,
    r: RealAnswers,
    a: VMInstance,
    fin: VMInstance,
    n: nat,
) -> (z: (VMInstance, nat))
    requires
        countable(c),
        insert_rows(stmt, rows, columns, c) matches Ok(d) && d.ops.len() <= usize::MAX && plainly(
            ops,
            c,
            d,
        ),
        can_add(a, root, e),
        at_end(a, root),
        a.pc == c.ops.len(),
        !a.flag_halt,
        goes(ops, a, fin, r, n),
    ensures
        goes(ops, z.0, fin, r, z.1),
        !z.0.flag_halt,
        z.0.pc == insert_rows(stmt, rows, columns, c)->Ok_0.ops.len(),
        can_add(z.0, root, with_rows(e, stmt, rows, columns, r)),
        at_end(z.0, root),
    decreases rows.len(),
{
    if rows.len() == 0 {
        (a, n)
    } else {
        let rest = rows.drop_last();
        let row = rows.last();
        let d = insert_rows(stmt, rest, columns, c)->Ok_0;
        let (f, fields) = insert_fields(stmt, row, columns, d)->Ok_0;
        let g = insert_row(fields, f);
        let slots = row_slots(stmt, row, columns);
        fields_are_slots(stmt, row, columns, d);
        slots_longer(slots, row, ScopeView::NoColumns, false, d);
        rows_straight(stmt, rest, columns, c);
        rows_straight(stmt, rows, columns, c);
        slots_straight(slots, row, ScopeView::NoColumns, false, d);
        assert(straight(f, g));
        straight_twice(d, f, g);
        assert(plainly(ops, c, d)) by {
            assert forall|i: int| c.ops.len() <= i < d.ops.len() implies #[trigger] ops[i]
                == d.ops[i] by {
                assert(ops[i] == g.ops[i]);
            }
        }
        assert(plainly(ops, d, g)) by {
            assert forall|i: int| d.ops.len() <= i < g.ops.len() implies #[trigger] ops[i]
                == g.ops[i] && target_of(ops[i]) is None && !(ops[i] is Halt) by {}
        }
        let (a1, n1) = rows_added(stmt, rest, columns, root, e, c, ops, r, a, fin, n);
        let e1 = with_rows(e, stmt, rest, columns, r);
        row_added(stmt, row, columns, root, e1, d, ops, r, a1, fin, n1)
    }
}

/// An INSERT statement that runs through adds its rows, each under the next key, and
/// leaves the others of its table as they are.
pub proof fn insert_adds(
    stmt: InsertStmtView,
    cat: spec_fn(TableNameView) -> Option<TableBindingView>,
    r: RealAnswers,
    a: VMInstance,
    fin: VMInstance,
    n: nat,
)
    requires
        insert_program(stmt, cat) matches Ok(ops) && ops.len() <= usize::MAX && goes(
            ops,
            a,
            fin,
            r,
            n,
        ),
        a.btree.is_tree(cat(stmt.table)->0.root_pgno),
        a.pc == 0,
        !a.flag_halt,
    ensures
        ({
            let b = cat(stmt.table)->0;
            let e = a.btree.rows(b.root_pgno);
            &&& fin.btree.is_tree(b.root_pgno)
            &&& fin.btree.rows(b.root_pgno) == with_rows(e, stmt, stmt.rows, b.columns, r)
        }),
{
    let ops = insert_program(stmt, cat)->Ok_0;
    let b = cat(stmt.table)->0;
    let root = b.root_pgno;
    let e = a.btree.rows(root);
    let c = CodeView::empty().emit(
        OperationView::OpenWrite(OpenWrite { cursor_id: 0, root_pgno: root }),
    );
    let d = insert_rows(stmt, stmt.rows, b.columns, c)->Ok_0;
    let g = d.emit(OperationView::Close(Close { cursor_id: 0 }));
    assert(g.ops.take(g.ops.len() as int) =~= g.ops);
    resolved_links(g, g.ops.len() as int);
    rows_straight(stmt, stmt.rows, b.columns, c);
    assert forall|i: int| 0 <= i < g.ops.len() implies #[trigger] ops[i] == g.ops[i]
        && target_of(ops[i]) is None && !(ops[i] is Halt) by {
        if i < c.ops.len() {
            assert(d.ops[i] == c.ops[i]);
        } else if i < d.ops.len() {
            assert(target_of(d.ops[i]) is None);
        }
        assert(target_of(g.ops[i]) is None);
    }
    assert(ops[0] == g.ops[0] && g.ops[0] == d.ops[0] && d.ops[0] == c.ops[0]);
    assert(plainly(ops, c, d)) by {
        assert forall|i: int| c.ops.len() <= i < d.ops.len() implies #[trigger] ops[i]
            == d.ops[i] && target_of(ops[i]) is None && !(ops[i] is Halt) by {
            assert(g.ops[i] == d.ops[i]);
        }
    }
    let m1 = next_step(ops, a, fin, r, n);
    let a1 = stepped(m1, a.pc);
    assert(opened(a, m1, 0, root));
    assert(can_add(a1, root, e));
    let (a2, n2) = rows_added(
        stmt,
        stmt.rows,
        b.columns,
        root,
        e,
        c,
        ops,
        r,
        a1,
        fin,
        (n - 1) as nat,
    );
    let k = d.ops.len() as int;
    assert(ops[k] == g.ops[k]);
    let m3 = next_step(ops, a2, fin, r, n2);
    let a3 = stepped(m3, a2.pc);
    assert(a3.pc == ops.len());
    assert(fin == a3);
}

} // verus!
