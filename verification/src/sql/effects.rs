//! What statements that change rows do, said of the statements themselves.
use vstd::prelude::*;

use crate::engine::cursor::{next_key, rows_by_leaves};
use crate::engine::node::CellView;
use crate::engine::order::{key_lt, key_lt_irreflexive, key_lt_transitive};
use crate::engine::record::{decode_encode_record, record_lengths_fit};
use crate::engine::tree::{lower_bound_is, sorted, with_cell};
use crate::engine::value::DataView;
use crate::sql::adding::{insert_adds, no_entry, row_slots, with_rows};
use crate::sql::ast::{
    DeleteStmtView, ExprView, InsertStmtView, TableNameView, UpdateStmtView,
};
use crate::sql::changing::{delete_removes, delete_work, stored, update_changes, update_work};
use crate::sql::columns::{slot_value, slot_values, the_entry};
use crate::sql::evaluation::{evaluated, field};
use crate::sql::mutation::{
    assigned_names, assigned_values, column_slots, delete_program, insert_fields, insert_program,
    insert_rows, update_program,
};
use crate::sql::planner::TableBindingView;
use crate::sql::program::{column_place, CodeView, ScopeView};
use crate::sql::reals::{OutcomeView, RealAnswers};
use crate::sql::running::goes;
use crate::sql::schema::ColumnDefView;
use crate::sql::text::same_name;
use crate::sql::values::truthy;
use crate::sql::vm::VMInstance;

verus! {

// -- Columns by name -------------------------------------------

/// Whether a name stands for a column: it is the first with that name, whatever its case.
pub open spec fn named_at(columns: Seq<ColumnDefView>, name: Seq<char>, p: int) -> bool {
    &&& 0 <= p < columns.len()
    &&& same_name(columns[p].name, name)
    &&& forall|q: int| 0 <= q < p ==> !same_name((#[trigger] columns[q]).name, name)
}

/// The column that is found by a name is the one that the name stands for.
pub proof fn place_is_named(columns: Seq<ColumnDefView>, name: Seq<char>)
    requires
        columns.len() <= usize::MAX,
    ensures
        match column_place(columns, name) {
            Some(p) => named_at(columns, name, p as int),
            None => forall|p: int|
                0 <= p < columns.len() ==> !same_name((#[trigger] columns[p]).name, name),
        },
    decreases columns.len(),
{
    if columns.len() > 0 {
        let d = columns.drop_last();
        place_is_named(d, name);
        assert forall|q: int| 0 <= q < d.len() implies d[q] == #[trigger] columns[q] by {}
        match column_place(d, name) {
            Some(p) => {
                assert(d[p as int] == columns[p as int]);
                assert forall|q: int| 0 <= q < p implies !same_name(
                    (#[trigger] columns[q]).name,
                    name,
                ) by {
                    assert(d[q] == columns[q]);
                }
            },
            None => {
                assert forall|q: int| 0 <= q < d.len() implies !same_name(
                    (#[trigger] columns[q]).name,
                    name,
                ) by {
                    assert(d[q] == columns[q]);
                }
            },
        }
    }
}

/// Two names of one column, and one name of two columns.
proof fn named_once(columns: Seq<ColumnDefView>, name: Seq<char>, p: int, q: int)
    requires
        named_at(columns, name, p),
        named_at(columns, name, q),
    ensures
        p == q,
{
    if p < q {
        assert(!same_name(columns[p].name, name));
    }
    if q < p {
        assert(!same_name(columns[q].name, name));
    }
}

/// Names go to the columns that they stand for.
proof fn slots_by_name(
    names: Seq<Seq<char>>,
    columns: Seq<ColumnDefView>,
    twice: Seq<char>,
)
    requires
        columns.len() <= usize::MAX,
        names.len() <= usize::MAX,
        column_slots(names, columns, twice) is Ok,
    ensures
        ({
            let slots = column_slots(names, columns, twice)->Ok_0;
            &&& slots.len() == columns.len()
            &&& forall|p: int|
                0 <= p < slots.len() ==> (#[trigger] slots[p] matches Some(k) ==> k < names.len()
                    && named_at(columns, names[k as int], p))
            &&& forall|p: int, k: int|
                0 <= p < slots.len() && 0 <= k < names.len() && #[trigger] named_at(
                    columns,
                    names[k],
                    p,
                ) ==> slots[p] == Some(k as usize)
        }),
    decreases names.len(),
{
    if names.len() > 0 {
        let d = names.drop_last();
        slots_by_name(d, columns, twice);
        place_is_named(columns, names.last());
        let before = column_slots(d, columns, twice)->Ok_0;
        let slots = column_slots(names, columns, twice)->Ok_0;
        let i = column_place(columns, names.last())->0 as int;
        assert forall|p: int| 0 <= p < slots.len() implies (#[trigger] slots[p] matches Some(k)
            ==> k < names.len() && named_at(columns, names[k as int], p)) by {
            if p != i {
                assert(slots[p] == before[p]);
                if let Some(k) = before[p] {
                    assert(d[k as int] == names[k as int]);
                }
            }
        }
        assert forall|p: int, k: int|
            0 <= p < slots.len() && 0 <= k < names.len() && #[trigger] named_at(
                columns,
                names[k],
                p,
            ) implies slots[p] == Some(k as usize) by {
            if k < d.len() {
                assert(d[k] == names[k]);
                assert(named_at(columns, d[k], p));
                assert(before[p] == Some(k as usize));
                assert(before[i] is None);
            } else {
                named_once(columns, names[k], p, i);
            }
        }
    }
}

/// The values of columns, one by one.
proof fn slot_values_are(
    slots: Seq<Option<usize>>,
    exprs: Seq<ExprView>,
    sc: ScopeView,
    keep: bool,
    cell: CellView,
    r: RealAnswers,
)
    requires
        forall|p: int|
            0 <= p < slots.len() ==> slot_value(#[trigger] slots[p], p, exprs, sc, keep, cell, r)
                is Got,
    ensures
        slot_values(slots, exprs, sc, keep, cell, r) is Some,
        slot_values(slots, exprs, sc, keep, cell, r)->0.len() == slots.len(),
        forall|p: int|
            0 <= p < slots.len() ==> #[trigger] (slot_values(
                slots,
                exprs,
                sc,
                keep,
                cell,
                r,
            )->0)[p] == slot_value(slots[p], p, exprs, sc, keep, cell, r)->Got_0,
    decreases slots.len(),
{
    if slots.len() > 0 {
        let d = slots.drop_last();
        assert forall|p: int| 0 <= p < d.len() implies slot_value(
            #[trigger] d[p],
            p,
            exprs,
            sc,
            keep,
            cell,
            r,
        ) is Got by {
            assert(d[p] == slots[p]);
        }
        slot_values_are(d, exprs, sc, keep, cell, r);
        let n = slots.len() - 1;
        assert(slots[n] == slots.last());
        assert forall|p: int| 0 <= p < slots.len() implies #[trigger] (slot_values(
            slots,
            exprs,
            sc,
            keep,
            cell,
            r,
        )->0)[p] == slot_value(slots[p], p, exprs, sc, keep, cell, r)->Got_0 by {
            if p < n {
                assert(d[p] == slots[p]);
            }
        }
    }
}

/// A record whose values are not too long is kept as it is.
proof fn stored_as_is(v: Seq<DataView>)
    requires
        record_lengths_fit(v),
    ensures
        stored(v) == v,
{
    decode_encode_record(v);
}

// -- UPDATE and DELETE -----------------------------------------

/// What an expression in a statement that changes rows is worth on a row.
pub open spec fn worth(
    e: ExprView,
    table: TableNameView,
    columns: Seq<ColumnDefView>,
    row: CellView,
    r: RealAnswers,
) -> OutcomeView<DataView> {
    evaluated(e, ScopeView::Table(table.name, columns), the_entry(row), r)
}

/// Whether the condition of a statement holds of a row; without one it does.
pub open spec fn meant(
    condition: Option<ExprView>,
    table: TableNameView,
    columns: Seq<ColumnDefView>,
    row: CellView,
    r: RealAnswers,
) -> bool {
    match condition {
        Some(e) => worth(e, table, columns, row, r) matches OutcomeView::Got(v) && truthy(v),
        None => true,
    }
}

/// A DELETE statement removes the rows that its condition holds of, and leaves all others
/// as they are and in their order.
pub proof fn delete_removes_meant(
    stmt: DeleteStmtView,
    cat: spec_fn(TableNameView) -> Option<TableBindingView>,
    r: RealAnswers,
    a: VMInstance,
    fin: VMInstance,
    n: nat,
)
    requires
        delete_program(stmt, cat) matches Ok(ops) && ops.len() <= usize::MAX && goes(
            ops,
            a,
            fin,
            r,
            n,
        ),
        a.btree.is_tree(cat(stmt.table)->0.root_pgno),
        a.pc == 0,
        !a.flag_halt,
    ensures
        ({
            let b = cat(stmt.table)->0;
            fin.btree.rows(b.root_pgno) == a.btree.rows(b.root_pgno).filter(
                |row: CellView| !meant(stmt.where_clause, stmt.table, b.columns, row, r),
            )
        }),
{
    let b = cat(stmt.table)->0;
    delete_removes(stmt, cat, r, a, fin, n);
    let w = delete_work(stmt, b, r);
    let f = |c: CellView| !w.picks(c);
    let g = |row: CellView| !meant(stmt.where_clause, stmt.table, b.columns, row, r);
    assert(f =~= g);
}

/// Whether an assignment of a statement is to a column.
pub open spec fn assigns(
    stmt: UpdateStmtView,
    columns: Seq<ColumnDefView>,
    k: int,
    p: int,
) -> bool {
    0 <= k < stmt.assignments.len() && named_at(columns, stmt.assignments[k].column, p)
}

/// The values of a row once the assignments of a statement are made: of each column that
/// an assignment is to, what the assignment is worth on the row as it was, and of all
/// others what they had.
pub open spec fn set_row(
    stmt: UpdateStmtView,
    columns: Seq<ColumnDefView>,
    row: CellView,
    r: RealAnswers,
) -> Seq<DataView> {
    Seq::new(
        columns.len(),
        |p: int|
            if exists|k: int| assigns(stmt, columns, k, p) {
                let k = choose|k: int| assigns(stmt, columns, k, p);
                worth(stmt.assignments[k].value, stmt.table, columns, row, r)->Got_0
            } else {
                field(row, p)
            },
    )
}

/// Whether the assignments of a statement can be made to a row: all have values, and no
/// value is too long to be kept.
pub open spec fn settable(
    stmt: UpdateStmtView,
    columns: Seq<ColumnDefView>,
    row: CellView,
    r: RealAnswers,
) -> bool {
    &&& forall|k: int|
        0 <= k < stmt.assignments.len() ==> worth(
            (#[trigger] stmt.assignments[k]).value,
            stmt.table,
            columns,
            row,
            r,
        ) is Got
    &&& record_lengths_fit(set_row(stmt, columns, row, r))
}

/// The values that the columns of a row get are those of the assignments to them.
proof fn set_row_is(
    stmt: UpdateStmtView,
    columns: Seq<ColumnDefView>,
    row: CellView,
    r: RealAnswers,
    twice: Seq<char>,
)
    requires
        columns.len() <= usize::MAX,
        stmt.assignments.len() <= usize::MAX,
        column_slots(assigned_names(stmt.assignments), columns, twice) is Ok,
        settable(stmt, columns, row, r),
    ensures
        slot_values(
            column_slots(assigned_names(stmt.assignments), columns, twice)->Ok_0,
            assigned_values(stmt.assignments),
            ScopeView::Table(stmt.table.name, columns),
            true,
            row,
            r,
        ) == Some(set_row(stmt, columns, row, r)),
{
    let names = assigned_names(stmt.assignments);
    let values = assigned_values(stmt.assignments);
    let slots = column_slots(names, columns, twice)->Ok_0;
    let sc = ScopeView::Table(stmt.table.name, columns);
    slots_by_name(names, columns, twice);
    assert forall|p: int| 0 <= p < slots.len() implies slot_value(
        #[trigger] slots[p],
        p,
        values,
        sc,
        true,
        row,
        r,
    ) is Got by {
        if let Some(k) = slots[p] {
            assert(stmt.assignments[k as int].value == values[k as int]);
        }
    }
    slot_values_are(slots, values, sc, true, row, r);
    let v = slot_values(slots, values, sc, true, row, r)->0;
    let w = set_row(stmt, columns, row, r);
    assert forall|p: int| 0 <= p < v.len() implies v[p] == w[p] by {
        if exists|k: int| assigns(stmt, columns, k, p) {
            let k = choose|k: int| assigns(stmt, columns, k, p);
            assert(named_at(columns, names[k], p));
            assert(slots[p] == Some(k as usize));
        } else {
            if let Some(k) = slots[p] {
                assert(names[k as int] == stmt.assignments[k as int].column);
                assert(assigns(stmt, columns, k as int, p));
            }
        }
    }
    assert(v =~= w);
}

/// An UPDATE statement sets, in every row that its condition holds of, each column that it
/// assigns to what the assignment is worth on the row as it was; it leaves the other
/// columns, the other rows and all keys as they are.
pub proof fn update_sets_meant(
    stmt: UpdateStmtView,
    cat: spec_fn(TableNameView) -> Option<TableBindingView>,
    r: RealAnswers,
    a: VMInstance,
    fin: VMInstance,
    n: nat,
)
    requires
        update_program(stmt, cat) matches Ok(ops) && ops.len() <= usize::MAX && goes(
            ops,
            a,
            fin,
            r,
            n,
        ),
        a.btree.is_tree(cat(stmt.table)->0.root_pgno),
        a.pc == 0,
        !a.flag_halt,
        cat(stmt.table)->0.columns.len() <= usize::MAX,
        stmt.assignments.len() <= usize::MAX,
    ensures
        ({
            let b = cat(stmt.table)->0;
            let before = a.btree.rows(b.root_pgno);
            let after = fin.btree.rows(b.root_pgno);
            &&& after.len() == before.len()
            &&& forall|i: int|
                0 <= i < before.len() ==> (#[trigger] after[i]).0 == before[i].0
            &&& forall|i: int|
                0 <= i < before.len() && !meant(
                    stmt.where_clause,
                    stmt.table,
                    b.columns,
                    before[i],
                    r,
                ) ==> #[trigger] after[i] == before[i]
            &&& forall|i: int|
                0 <= i < before.len() && meant(
                    stmt.where_clause,
                    stmt.table,
                    b.columns,
                    before[i],
                    r,
                ) && settable(stmt, b.columns, before[i], r) ==> (#[trigger] after[i]).1 == set_row(
                    stmt,
                    b.columns,
                    before[i],
                    r,
                )
        }),
{
    let b = cat(stmt.table)->0;
    let before = a.btree.rows(b.root_pgno);
    let after = fin.btree.rows(b.root_pgno);
    update_changes(stmt, cat, r, a, fin, n);
    let w = update_work(stmt, b, r);
    assert forall|i: int| 0 <= i < before.len() implies w.picks(#[trigger] before[i]) == meant(
        stmt.where_clause,
        stmt.table,
        b.columns,
        before[i],
        r,
    ) by {}
    assert forall|i: int|
        0 <= i < before.len() && meant(
            stmt.where_clause,
            stmt.table,
            b.columns,
            before[i],
            r,
        ) && settable(stmt, b.columns, before[i], r) implies (#[trigger] after[i]).1 == set_row(
        stmt,
        b.columns,
        before[i],
        r,
    ) by {
        set_row_is(stmt, b.columns, before[i], r, "duplicate assignment to column"@);
        stored_as_is(set_row(stmt, b.columns, before[i], r));
        assert(w.picks(before[i]));
    }
    assert forall|i: int| 0 <= i < before.len() implies (#[trigger] after[i]).0
        == before[i].0 by {
        assert(w.picks(before[i]) || !w.picks(before[i]));
    }
}

// -- INSERT ----------------------------------------------------

/// Whether a value of a row that is added is for a column: it stands at the place of the
/// column, or where columns are named at the place of its name.
pub open spec fn is_for(
    stmt: InsertStmtView,
    columns: Seq<ColumnDefView>,
    k: int,
    p: int,
) -> bool {
    match stmt.columns {
        Some(names) => 0 <= k < names.len() && named_at(columns, names[k], p),
        None => k == p,
    }
}

/// What a value that is given to INSERT is worth.
pub open spec fn given(e: ExprView, r: RealAnswers) -> OutcomeView<DataView> {
    evaluated(e, ScopeView::NoColumns, the_entry(no_entry()), r)
}

/// The values of a row that is added: of each column that has one the value given for it,
/// and of all others nothing.
pub open spec fn given_row(
    stmt: InsertStmtView,
    columns: Seq<ColumnDefView>,
    row: Seq<ExprView>,
    r: RealAnswers,
) -> Seq<DataView> {
    Seq::new(
        columns.len(),
        |p: int|
            if exists|k: int| is_for(stmt, columns, k, p) {
                let k = choose|k: int| is_for(stmt, columns, k, p);
                given(row[k], r)->Got_0
            } else {
                DataView::Null
            },
    )
}

/// Whether a row can be added: all its values are worth something, and none is too long
/// to be kept.
pub open spec fn addable(
    stmt: InsertStmtView,
    columns: Seq<ColumnDefView>,
    row: Seq<ExprView>,
    r: RealAnswers,
) -> bool {
    &&& row.len() <= usize::MAX
    &&& forall|k: int| 0 <= k < row.len() ==> given(#[trigger] row[k], r) is Got
    &&& record_lengths_fit(given_row(stmt, columns, row, r))
}

/// The entries of a table with rows added at its end, under the numbers from `key` on.
pub open spec fn appended(
    e: Seq<CellView>,
    stmt: InsertStmtView,
    columns: Seq<ColumnDefView>,
    rows: Seq<Seq<ExprView>>,
    key: int,
    r: RealAnswers,
) -> Seq<CellView> {
    e + Seq::new(
        rows.len(),
        |j: int|
            (DataView::Integer((key + j) as u64), given_row(stmt, columns, rows[j], r)),
    )
}

proof fn given_row_is(
    stmt: InsertStmtView,
    columns: Seq<ColumnDefView>,
    row: Seq<ExprView>,
    r: RealAnswers,
    c: CodeView,
)
    requires
        columns.len() <= usize::MAX,
        insert_fields(stmt, row, columns, c) is Ok,
        addable(stmt, columns, row, r),
    ensures
        slot_values(
            row_slots(stmt, row, columns),
            row,
            ScopeView::NoColumns,
            false,
            no_entry(),
            r,
        ) == Some(given_row(stmt, columns, row, r)),
{
    let slots = row_slots(stmt, row, columns);
    let sc = ScopeView::NoColumns;
    let w = given_row(stmt, columns, row, r);
    if let Some(names) = stmt.columns {
        slots_by_name(names, columns, "duplicate INSERT column"@);
    }
    assert(slots.len() == columns.len());
    assert forall|p: int| 0 <= p < slots.len() implies (#[trigger] slots[p] matches Some(k) ==> k
        < row.len() && is_for(stmt, columns, k as int, p)) by {}
    assert forall|p: int| 0 <= p < slots.len() implies slot_value(
        #[trigger] slots[p],
        p,
        row,
        sc,
        false,
        no_entry(),
        r,
    ) is Got by {
        if let Some(k) = slots[p] {
            assert(given(row[k as int], r) is Got);
        }
    }
    slot_values_are(slots, row, sc, false, no_entry(), r);
    let v = slot_values(slots, row, sc, false, no_entry(), r)->0;
    assert forall|p: int| 0 <= p < v.len() implies v[p] == w[p] by {
        if exists|k: int| is_for(stmt, columns, k, p) {
            let k = choose|k: int| is_for(stmt, columns, k, p);
            if let Some(names) = stmt.columns {
                assert(named_at(columns, names[k], p));
            }
            assert(slots[p] == Some(k as usize));
        } else {
            if let Some(k) = slots[p] {
                assert(is_for(stmt, columns, k as int, p));
            }
        }
    }
    assert(v =~= w);
}

/// A key behind all others goes to the end.
proof fn added_last(e: Seq<CellView>, c: CellView)
    requires
        forall|i: int| 0 <= i < e.len() ==> key_lt((#[trigger] e[i]).0, c.0),
    ensures
        with_cell(e, c) == e.push(c),
{
    lower_bound_is(e, c.0, e.len() as int);
    assert(e.insert(e.len() as int, c) =~= e.push(c));
}

proof fn rows_appended(
    e: Seq<CellView>,
    stmt: InsertStmtView,
    columns: Seq<ColumnDefView>,
    rows: Seq<Seq<ExprView>>,
    key: int,
    r: RealAnswers,
    c: CodeView,
)
    requires
        sorted(e),
        next_key(e) == Some(key as u64),
        0 < key,
        key + rows.len() <= u64::MAX,
        columns.len() <= usize::MAX,
        insert_rows(stmt, rows, columns, c) is Ok,
        forall|j: int| 0 <= j < rows.len() ==> addable(stmt, columns, #[trigger] rows[j], r),
    ensures
        with_rows(e, stmt, rows, columns, r) == appended(e, stmt, columns, rows, key, r),
        next_key(with_rows(e, stmt, rows, columns, r)) == Some((key + rows.len()) as u64),
        sorted(with_rows(e, stmt, rows, columns, r)),
    decreases rows.len(),
{
    broadcast use {key_lt_transitive, key_lt_irreflexive};

    if rows.len() == 0 {
        assert(appended(e, stmt, columns, rows, key, r) =~= e);
    } else {
        let d = rows.drop_last();
        assert forall|j: int| 0 <= j < d.len() implies addable(
            stmt,
            columns,
            #[trigger] d[j],
            r,
        ) by {
            assert(d[j] == rows[j]);
        }
        rows_appended(e, stmt, columns, d, key, r, c);
        let f = with_rows(e, stmt, d, columns, r);
        let row = rows.last();
        assert(rows[rows.len() - 1] == row);
        given_row_is(stmt, columns, row, r, insert_rows(stmt, d, columns, c)->Ok_0);
        stored_as_is(given_row(stmt, columns, row, r));
        let k = DataView::Integer((key + d.len()) as u64);
        let x = (k, given_row(stmt, columns, row, r));
        let m = f.len() as int;
        assert forall|i: int| 0 <= i < m implies key_lt((#[trigger] f[i]).0, k) by {
            assert(f.last() == f[m - 1]);
            assert(key_lt(f[m - 1].0, k)) by {
                reveal(key_lt);
            }
            if i < m - 1 {
                assert(key_lt(f[i].0, f[m - 1].0));
            }
        }
        added_last(f, x);
        let g = f.push(x);
        assert(with_rows(e, stmt, rows, columns, r) == g);
        assert(appended(e, stmt, columns, rows, key, r) =~= g) by {
            assert(appended(e, stmt, columns, d, key, r) =~= f);
        }
        assert(g.last() == x);
    }
}

/// An INSERT statement adds its rows at the end of its table, in their order and under the
/// numbers that follow the last key; each column gets the value given for it, or nothing.
/// The rows that were there stay as they are.
pub proof fn insert_appends(
    stmt: InsertStmtView,
    cat: spec_fn(TableNameView) -> Option<TableBindingView>,
    r: RealAnswers,
    a: VMInstance,
    fin: VMInstance,
    n: nat,
    key: int,
)
    requires
        insert_program(stmt, cat) matches Ok(ops) && ops.len() <= usize::MAX && goes(
            ops,
            a,
            fin,
            r,
            n,
        ),
        a.btree.is_tree(cat(stmt.table)->0.root_pgno),
        a.pc == 0,
        !a.flag_halt,
        cat(stmt.table)->0.columns.len() <= usize::MAX,
        ({
            let e = a.btree.rows(cat(stmt.table)->0.root_pgno);
            if e.len() == 0 {
                key == 1
            } else {
                e.last().0 == DataView::Integer((key - 1) as u64) && key >= 1
            }
        }),
        key + stmt.rows.len() <= u64::MAX,
        forall|j: int|
            0 <= j < stmt.rows.len() ==> addable(
                stmt,
                cat(stmt.table)->0.columns,
                #[trigger] stmt.rows[j],
                r,
            ),
    ensures
        ({
            let b = cat(stmt.table)->0;
            fin.btree.rows(b.root_pgno) == appended(
                a.btree.rows(b.root_pgno),
                stmt,
                b.columns,
                stmt.rows,
                key,
                r,
            )
        }),
{
    let b = cat(stmt.table)->0;
    let e = a.btree.rows(b.root_pgno);
    insert_adds(stmt, cat, r, a, fin, n);
    rows_by_leaves(&a.btree, b.root_pgno);
    let c = CodeView::empty().emit(
        crate::sql::operations::OperationView::OpenWrite(
            crate::sql::operations::OpenWrite { cursor_id: 0, root_pgno: b.root_pgno },
        ),
    );
    rows_appended(e, stmt, b.columns, stmt.rows, key, r, c);
}

// -- What a statement needs ------------------------------------

/// Whether a name stands for some column.
pub open spec fn has_column(columns: Seq<ColumnDefView>, name: Seq<char>) -> bool {
    exists|p: int| named_at(columns, name, p)
}

/// Names that have columns to go to: each stands for a column, and no two for the same.
proof fn names_have_columns(
    names: Seq<Seq<char>>,
    columns: Seq<ColumnDefView>,
    twice: Seq<char>,
)
    requires
        columns.len() <= usize::MAX,
        names.len() <= usize::MAX,
        column_slots(names, columns, twice) is Ok,
    ensures
        forall|k: int|
            0 <= k < names.len() ==> has_column(columns, #[trigger] names[k]),
        forall|j: int, k: int, p: int|
            0 <= j < names.len() && 0 <= k < names.len() && #[trigger] named_at(
                columns,
                names[j],
                p,
            ) && #[trigger] named_at(columns, names[k], p) ==> j == k,
    decreases names.len(),
{
    slots_by_name(names, columns, twice);
    if names.len() > 0 {
        let d = names.drop_last();
        let n = names.len() - 1;
        names_have_columns(d, columns, twice);
        place_is_named(columns, names.last());
        assert(named_at(columns, names[n], column_place(columns, names.last())->0 as int));
        assert forall|k: int| 0 <= k < names.len() implies has_column(columns, #[trigger] names[k]) by {
            if k < n {
                assert(d[k] == names[k]);
                assert(has_column(columns, d[k]));
            }
        }
    }
    let slots = column_slots(names, columns, twice)->Ok_0;
    assert forall|j: int, k: int, p: int|
        0 <= j < names.len() && 0 <= k < names.len() && #[trigger] named_at(
            columns,
            names[j],
            p,
        ) && #[trigger] named_at(columns, names[k], p) implies j == k by {
        assert(slots[p] == Some(j as usize));
        assert(slots[p] == Some(k as usize));
    }
}

/// An UPDATE statement is made into operations only where its table is known, each of its
/// assignments is to a column of it, and no two are to the same.
pub proof fn update_needs(
    stmt: UpdateStmtView,
    cat: spec_fn(TableNameView) -> Option<TableBindingView>,
)
    requires
        update_program(stmt, cat) is Ok,
        cat(stmt.table) is Some ==> cat(stmt.table)->0.columns.len() <= usize::MAX,
        stmt.assignments.len() <= usize::MAX,
    ensures
        cat(stmt.table) is Some,
        forall|k: int|
            0 <= k < stmt.assignments.len() ==> has_column(
                cat(stmt.table)->0.columns,
                (#[trigger] stmt.assignments[k]).column,
            ),
        forall|j: int, k: int, p: int| #[trigger]
            assigns(stmt, cat(stmt.table)->0.columns, j, p) && #[trigger] assigns(
                stmt,
                cat(stmt.table)->0.columns,
                k,
                p,
            ) ==> j == k,
{
    let columns = cat(stmt.table)->0.columns;
    let names = assigned_names(stmt.assignments);
    names_have_columns(names, columns, "duplicate assignment to column"@);
    assert forall|k: int| 0 <= k < stmt.assignments.len() implies has_column(
        columns,
        (#[trigger] stmt.assignments[k]).column,
    ) by {
        assert(names[k] == stmt.assignments[k].column);
    }
    assert forall|j: int, k: int, p: int| #[trigger]
        assigns(stmt, columns, j, p) && #[trigger] assigns(stmt, columns, k, p) implies j == k by {
        assert(named_at(columns, names[j], p));
        assert(named_at(columns, names[k], p));
    }
}

/// A DELETE statement is made into operations only where its table is known.
pub proof fn delete_needs(
    stmt: DeleteStmtView,
    cat: spec_fn(TableNameView) -> Option<TableBindingView>,
)
    requires
        delete_program(stmt, cat) is Ok,
    ensures
        cat(stmt.table) is Some,
{
}

/// Each row of an INSERT statement has as many values as columns are named, or as the
/// table has where none are; the names stand for columns of the table, no two for the
/// same.
pub open spec fn rows_match(
    stmt: InsertStmtView,
    columns: Seq<ColumnDefView>,
    row: Seq<ExprView>,
) -> bool {
    match stmt.columns {
        Some(names) => {
            &&& row.len() == names.len()
            &&& forall|k: int|
                0 <= k < names.len() ==> has_column(columns, #[trigger] names[k])
            &&& forall|j: int, k: int, p: int|
                0 <= j < names.len() && 0 <= k < names.len() && #[trigger] named_at(
                    columns,
                    names[j],
                    p,
                ) && #[trigger] named_at(columns, names[k], p) ==> j == k
        },
        None => row.len() == columns.len(),
    }
}

proof fn rows_needed(
    stmt: InsertStmtView,
    columns: Seq<ColumnDefView>,
    rows: Seq<Seq<ExprView>>,
    c: CodeView,
)
    requires
        columns.len() <= usize::MAX,
        stmt.columns matches Some(names) ==> names.len() <= usize::MAX,
        insert_rows(stmt, rows, columns, c) is Ok,
    ensures
        forall|j: int| 0 <= j < rows.len() ==> rows_match(stmt, columns, #[trigger] rows[j]),
    decreases rows.len(),
{
    if rows.len() > 0 {
        let d = rows.drop_last();
        rows_needed(stmt, columns, d, c);
        if let Some(names) = stmt.columns {
            names_have_columns(names, columns, "duplicate INSERT column"@);
        }
        assert(rows_match(stmt, columns, rows.last()));
        assert forall|j: int| 0 <= j < rows.len() implies rows_match(
            stmt,
            columns,
            #[trigger] rows[j],
        ) by {
            if j < d.len() {
                assert(d[j] == rows[j]);
            } else {
                assert(rows[j] == rows.last());
            }
        }
    }
}

/// An INSERT statement is made into operations only where its table is known and its rows
/// match the columns.
pub proof fn insert_needs(
    stmt: InsertStmtView,
    cat: spec_fn(TableNameView) -> Option<TableBindingView>,
)
    requires
        insert_program(stmt, cat) is Ok,
        cat(stmt.table) is Some ==> cat(stmt.table)->0.columns.len() <= usize::MAX,
        stmt.columns matches Some(names) ==> names.len() <= usize::MAX,
    ensures
        cat(stmt.table) is Some,
        forall|j: int|
            0 <= j < stmt.rows.len() ==> rows_match(
                stmt,
                cat(stmt.table)->0.columns,
                #[trigger] stmt.rows[j],
            ),
{
    let b = cat(stmt.table)->0;
    let c = CodeView::empty().emit(
        crate::sql::operations::OperationView::OpenWrite(
            crate::sql::operations::OpenWrite { cursor_id: 0, root_pgno: b.root_pgno },
        ),
    );
    rows_needed(stmt, b.columns, stmt.rows, c);
}

} // verus!
