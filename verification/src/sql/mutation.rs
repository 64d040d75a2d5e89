//! Programs that change tables.
use vstd::prelude::*;
use vstd::string::StringExecFns;

use crate::sql::ast::{
    assignment_views, expr_lists, expr_views, texts, Assignment, AssignmentView, DeleteStmt,
    DeleteStmtView, Expr, ExprView, InsertStmt, InsertStmtView, TableNameView, UpdateStmt,
    UpdateStmtView,
};
use crate::sql::operations::{
    operation_views, Close, Column, DeleteRow, Goto, IfCursorEnd, IfNot, InsertRow, MakeRecord,
    MakeRecordView, MoveNext, NewRowid, Null, OpenWrite, Operation, OperationView, Rewind, Rowid,
    UpdateRow,
};
use crate::sql::planner::{known, Catalog, TableBindingView};
use crate::sql::program::{
    column_place, expr_code, find_column, grown, grown_once, grown_resolves, grown_twice,
    is_program, jumps_below, jumps_inside, never_halts, resolved, Code, CodeView, Scope, ScopeView,
};
use crate::sql::schema::{column_def_views, ColumnDef, ColumnDefView};
use crate::sql::text::{decimal, join3, push_decimal};

verus! {

// -- Columns that are given ------------------------------------

/// Which of the names each column has, where names stand for different columns.
pub open spec fn column_slots(
    names: Seq<Seq<char>>,
    columns: Seq<ColumnDefView>,
    twice: Seq<char>,
) -> Result<Seq<Option<usize>>, Seq<char>>
    decreases names.len(),
{
    if names.len() == 0 {
        Ok(Seq::new(columns.len(), |i: int| None))
    } else {
        match column_slots(names.drop_last(), columns, twice) {
            Err(m) => Err(m),
            Ok(slots) => match column_place(columns, names.last()) {
                None => Err("unknown column '"@ + names.last() + "'"@),
                Some(i) => if slots[i as int] is Some {
                    Err(twice + " '"@ + names.last() + "'"@)
                } else {
                    Ok(slots.update(i as int, Some((names.len() - 1) as usize)))
                },
            },
        }
    }
}

proof fn slots_error_stays(
    names: Seq<Seq<char>>,
    columns: Seq<ColumnDefView>,
    twice: Seq<char>,
    n: int,
)
    requires
        0 <= n <= names.len(),
        column_slots(names.take(n), columns, twice) is Err,
    ensures
        column_slots(names, columns, twice) == column_slots(names.take(n), columns, twice),
    decreases names.len(),
{
    if n < names.len() {
        assert(names.drop_last().take(n) =~= names.take(n));
        slots_error_stays(names.drop_last(), columns, twice, n);
    } else {
        assert(names.take(n) =~= names);
    }
}

/// Whether slots tell of names below `n`.
pub open spec fn slots_below(slots: Seq<Option<usize>>, n: int) -> bool {
    forall|i: int| 0 <= i < slots.len() ==> (#[trigger] slots[i] matches Some(k) ==> k < n)
}

fn empty_slots(n: usize) -> (r: Vec<Option<usize>>)
    ensures
        r@.len() == n,
        forall|i: int| 0 <= i < n ==> (#[trigger] r@[i]) is None,
{
    let mut r: Vec<Option<usize>> = Vec::new();
    let mut i: usize = 0;
    while i < n
        invariant
            i <= n,
            r@.len() == i,
            forall|j: int| 0 <= j < i ==> (#[trigger] r@[j]) is None,
        decreases n - i,
    {
        r.push(None);
        i = i + 1;
    }
    r
}

/// Finds the column of one more name.
fn fill_slot(
    slots: &mut Vec<Option<usize>>,
    columns: &Vec<ColumnDef>,
    name: &String,
    k: usize,
    twice: &str,
) -> (r: Result<(), String>)
    requires
        old(slots)@.len() == columns@.len(),
        slots_below(old(slots)@, k as int),
    ensures
        final(slots)@.len() == columns@.len(),
        match column_place(column_def_views(columns@), name@) {
            None => r is Err && r->Err_0@ == "unknown column '"@ + name@ + "'"@,
            Some(i) => if old(slots)@[i as int] is Some {
                r is Err && r->Err_0@ == twice@ + " '"@ + name@ + "'"@
            } else {
                r is Ok && final(slots)@ == old(slots)@.update(i as int, Some(k))
            },
        },
        r is Ok ==> slots_below(final(slots)@, k + 1),
{
    let ghost before = slots@;
    match find_column(columns, name.as_str()) {
        None => Err(join3("unknown column '", name.as_str(), "'")),
        Some(i) => {
            if slots[i].is_some() {
                let mut s = join3(twice, " '", name.as_str());
                s.append("'");
                Err(s)
            } else {
                slots[i] = Some(k);
                assert(slots@ == before.update(i as int, Some(k)));
                Ok(())
            }
        },
    }
}

/// Which of the names each column has.
fn names_to_slots(names: &Vec<String>, columns: &Vec<ColumnDef>, twice: &str) -> (r: Result<
    Vec<Option<usize>>,
    String,
>)
    ensures
        ({
            let s = column_slots(texts(names@), column_def_views(columns@), twice@);
            match r {
                Ok(v) => s == Ok::<Seq<Option<usize>>, Seq<char>>(v@) && v@.len() == columns@.len()
                    && slots_below(v@, names@.len() as int),
                Err(m) => s == Err::<Seq<Option<usize>>, Seq<char>>(m@),
            }
        }),
{
    let ghost v = texts(names@);
    let ghost w = column_def_views(columns@);
    let mut slots = empty_slots(columns.len());
    let mut k: usize = 0;
    assert(v.take(0) =~= seq![]);
    assert(slots@ =~= Seq::new(w.len(), |i: int| None));
    while k < names.len()
        invariant
            k <= names@.len(),
            v == texts(names@),
            w == column_def_views(columns@),
            slots@.len() == columns@.len(),
            slots_below(slots@, k as int),
            column_slots(v.take(k as int), w, twice@) == Ok::<Seq<Option<usize>>, Seq<char>>(
                slots@,
            ),
        decreases names.len() - k,
    {
        proof {
            let t = v.take(k + 1);
            assert(t.drop_last() =~= v.take(k as int));
            assert(t.last() == names@[k as int]@);
        }
        match fill_slot(&mut slots, columns, &names[k], k, twice) {
            Ok(_) => {},
            Err(m) => {
                proof {
                    slots_error_stays(v, w, twice@, k + 1);
                }
                return Err(m);
            },
        }
        k = k + 1;
    }
    assert(v.take(v.len() as int) =~= v);
    Ok(slots)
}

/// The columns that are assigned to.
pub open spec fn assigned_names(a: Seq<AssignmentView>) -> Seq<Seq<char>> {
    Seq::new(a.len(), |i: int| a[i].column)
}

/// The values that are assigned.
pub open spec fn assigned_values(a: Seq<AssignmentView>) -> Seq<ExprView> {
    Seq::new(a.len(), |i: int| a[i].value)
}

/// Which of the assignments each column has.
pub fn assignment_map(assignments: &Vec<Assignment>, columns: &Vec<ColumnDef>) -> (r: Result<
    Vec<Option<usize>>,
    String,
>)
    ensures
        ({
            let s = column_slots(
                assigned_names(assignment_views(assignments@)),
                column_def_views(columns@),
                "duplicate assignment to column"@,
            );
            match r {
                Ok(v) => s == Ok::<Seq<Option<usize>>, Seq<char>>(v@) && v@.len() == columns@.len()
                    && slots_below(v@, assignments@.len() as int),
                Err(m) => s == Err::<Seq<Option<usize>>, Seq<char>>(m@),
            }
        }),
{
    let ghost v = assigned_names(assignment_views(assignments@));
    let ghost w = column_def_views(columns@);
    let ghost twice = "duplicate assignment to column"@;
    let mut slots = empty_slots(columns.len());
    let mut k: usize = 0;
    assert(v.take(0) =~= seq![]);
    assert(slots@ =~= Seq::new(w.len(), |i: int| None));
    while k < assignments.len()
        invariant
            k <= assignments@.len(),
            v == assigned_names(assignment_views(assignments@)),
            w == column_def_views(columns@),
            twice == "duplicate assignment to column"@,
            slots@.len() == columns@.len(),
            slots_below(slots@, k as int),
            column_slots(v.take(k as int), w, twice) == Ok::<Seq<Option<usize>>, Seq<char>>(
                slots@,
            ),
        decreases assignments.len() - k,
    {
        proof {
            let t = v.take(k + 1);
            assert(t.drop_last() =~= v.take(k as int));
            assert(t.last() == assignments@[k as int].column@);
        }
        match fill_slot(
            &mut slots,
            columns,
            &assignments[k].column,
            k,
            "duplicate assignment to column",
        ) {
            Ok(_) => {},
            Err(m) => {
                proof {
                    slots_error_stays(v, w, twice, k + 1);
                }
                return Err(m);
            },
        }
        k = k + 1;
    }
    assert(v.take(v.len() as int) =~= v);
    Ok(slots)
}

// -- Values of columns -----------------------------------------

/// Computes the value of one column: that of its expression where it has one;
/// else it keeps the value it has, or holds nothing.
pub open spec fn slot_code(
    slot: Option<usize>,
    col_idx: usize,
    exprs: Seq<ExprView>,
    sc: ScopeView,
    keep: bool,
    c: CodeView,
) -> Result<(CodeView, usize), Seq<char>> {
    match slot {
        Some(k) => expr_code(exprs[k as int], sc, c),
        None => if keep {
            Ok(
                (
                    c.put(
                        OperationView::Column(Column { cursor_id: 0, col_idx, dest: c.registers }),
                    ),
                    c.registers,
                ),
            )
        } else {
            Ok((c.put(OperationView::Null(Null { dest: c.registers })), c.registers))
        },
    }
}

/// Computes the values of the first columns.
pub open spec fn slots_code(
    slots: Seq<Option<usize>>,
    exprs: Seq<ExprView>,
    sc: ScopeView,
    keep: bool,
    c: CodeView,
) -> Result<(CodeView, Seq<usize>), Seq<char>>
    decreases slots.len(),
{
    if slots.len() == 0 {
        Ok((c, seq![]))
    } else {
        match slots_code(slots.drop_last(), exprs, sc, keep, c) {
            Err(m) => Err(m),
            Ok((d, regs)) => match slot_code(
                slots.last(),
                (slots.len() - 1) as usize,
                exprs,
                sc,
                keep,
                d,
            ) {
                Err(m) => Err(m),
                Ok((f, reg)) => Ok((f, regs.push(reg))),
            },
        }
    }
}

proof fn values_error_stays(
    slots: Seq<Option<usize>>,
    exprs: Seq<ExprView>,
    sc: ScopeView,
    keep: bool,
    c: CodeView,
    n: int,
)
    requires
        0 <= n <= slots.len(),
        slots_code(slots.take(n), exprs, sc, keep, c) is Err,
    ensures
        slots_code(slots, exprs, sc, keep, c) == slots_code(slots.take(n), exprs, sc, keep, c),
    decreases slots.len(),
{
    if n < slots.len() {
        assert(slots.drop_last().take(n) =~= slots.take(n));
        values_error_stays(slots.drop_last(), exprs, sc, keep, c, n);
    } else {
        assert(slots.take(n) =~= slots);
    }
}

/// Whether registers of computed values are what they should be.
pub open spec fn are_values(
    r: Result<Vec<usize>, String>,
    c: CodeView,
    s: Result<(CodeView, Seq<usize>), Seq<char>>,
) -> bool {
    match r {
        Ok(v) => s == Ok::<(CodeView, Seq<usize>), Seq<char>>((c, v@)),
        Err(e) => s == Err::<(CodeView, Seq<usize>), Seq<char>>(e@),
    }
}

/// Adds the operations that compute the value of one column.
fn compile_slot(
    code: &mut Code,
    expr: Option<&Expr>,
    col_idx: usize,
    sc: &Scope<'_>,
    keep: bool,
    Ghost(slot): Ghost<Option<usize>>,
    Ghost(exprs): Ghost<Seq<ExprView>>,
) -> (r: Result<usize, String>)
    requires
        old(code).wf(),
        expr is Some <==> slot is Some,
        expr matches Some(e) ==> e@ == exprs[slot->0 as int],
    ensures
        final(code).wf(),
        crate::sql::program::is_made(
            r,
            final(code)@,
            slot_code(slot, col_idx, exprs, sc@, keep, old(code)@),
        ),
        r is Ok ==> grown(old(code)@, final(code)@),
{
    let dest: usize = code.registers;
    let ghost c = code@;
    match expr {
        Some(e) => code.compile_expr(e, sc),
        None => {
            let op = if keep {
                Operation::Column(Column { cursor_id: 0, col_idx, dest })
            } else {
                Operation::Null(Null { dest })
            };
            proof {
                grown_once(c, op@);
            }
            Ok(code.put(op))
        },
    }
}

/// Adds the operations that compute the values of columns of a row that is added.
fn compile_values(code: &mut Code, slots: &Vec<Option<usize>>, exprs: &Vec<Expr>) -> (r: Result<
    Vec<usize>,
    String,
>)
    requires
        old(code).wf(),
        slots_below(slots@, exprs@.len() as int),
    ensures
        final(code).wf(),
        are_values(
            r,
            final(code)@,
            slots_code(slots@, expr_views(exprs@), ScopeView::NoColumns, false, old(code)@),
        ),
        r is Ok ==> grown(old(code)@, final(code)@),
{
    let ghost c = code@;
    let ghost v = expr_views(exprs@);
    let mut regs: Vec<usize> = Vec::new();
    let mut i: usize = 0;
    assert(slots@.take(0) =~= seq![]);
    assert(regs@ =~= seq![]);
    while i < slots.len()
        invariant
            i <= slots@.len(),
            v == expr_views(exprs@),
            slots_below(slots@, exprs@.len() as int),
            code.wf(),
            c == old(code)@,
            slots_code(slots@.take(i as int), v, ScopeView::NoColumns, false, c) == Ok::<
                (CodeView, Seq<usize>),
                Seq<char>,
            >((code@, regs@)),
            grown(c, code@),
        decreases slots.len() - i,
    {
        let ghost mid = code@;
        proof {
            let t = slots@.take(i + 1);
            assert(t.drop_last() =~= slots@.take(i as int));
            assert(t.last() == slots@[i as int]);
        }
        let slot: Option<usize> = slots[i];
        let expr = match slot {
            Some(k) => Some(&exprs[k]),
            None => None,
        };
        match compile_slot(code, expr, i, &Scope::NoColumns, false, Ghost(slot), Ghost(v)) {
            Ok(reg) => {
                regs.push(reg);
            },
            Err(m) => {
                proof {
                    values_error_stays(slots@, v, ScopeView::NoColumns, false, c, i + 1);
                }
                return Err(m);
            },
        }
        proof {
            grown_twice(c, mid, code@);
        }
        i = i + 1;
    }
    assert(slots@.take(slots@.len() as int) =~= slots@);
    Ok(regs)
}

/// Adds the operations that compute the values of columns of a row that is
/// changed.
fn compile_changes(
    code: &mut Code,
    slots: &Vec<Option<usize>>,
    assignments: &Vec<Assignment>,
    sc: &Scope<'_>,
) -> (r: Result<Vec<usize>, String>)
    requires
        old(code).wf(),
        slots_below(slots@, assignments@.len() as int),
    ensures
        final(code).wf(),
        are_values(
            r,
            final(code)@,
            slots_code(
                slots@,
                assigned_values(assignment_views(assignments@)),
                sc@,
                true,
                old(code)@,
            ),
        ),
        r is Ok ==> grown(old(code)@, final(code)@),
{
    let ghost c = code@;
    let ghost v = assigned_values(assignment_views(assignments@));
    let mut regs: Vec<usize> = Vec::new();
    let mut i: usize = 0;
    assert(slots@.take(0) =~= seq![]);
    assert(regs@ =~= seq![]);
    while i < slots.len()
        invariant
            i <= slots@.len(),
            v == assigned_values(assignment_views(assignments@)),
            slots_below(slots@, assignments@.len() as int),
            code.wf(),
            c == old(code)@,
            slots_code(slots@.take(i as int), v, sc@, true, c) == Ok::<
                (CodeView, Seq<usize>),
                Seq<char>,
            >((code@, regs@)),
            grown(c, code@),
        decreases slots.len() - i,
    {
        let ghost mid = code@;
        proof {
            let t = slots@.take(i + 1);
            assert(t.drop_last() =~= slots@.take(i as int));
            assert(t.last() == slots@[i as int]);
        }
        let slot: Option<usize> = slots[i];
        let expr = match slot {
            Some(k) => Some(&assignments[k].value),
            None => None,
        };
        match compile_slot(code, expr, i, sc, true, Ghost(slot), Ghost(v)) {
            Ok(reg) => {
                regs.push(reg);
            },
            Err(m) => {
                proof {
                    values_error_stays(slots@, v, sc@, true, c, i + 1);
                }
                return Err(m);
            },
        }
        proof {
            grown_twice(c, mid, code@);
        }
        i = i + 1;
    }
    assert(slots@.take(slots@.len() as int) =~= slots@);
    Ok(regs)
}


// -- INSERT ----------------------------------------------------

/// Each column has the value at its own place.
pub open spec fn slots_in_order(n: nat) -> Seq<Option<usize>> {
    Seq::new(n, |i: int| Some(i as usize))
}

/// Computes the columns of a row that is added.
pub open spec fn insert_fields(
    stmt: InsertStmtView,
    row: Seq<ExprView>,
    columns: Seq<ColumnDefView>,
    c: CodeView,
) -> Result<(CodeView, Seq<usize>), Seq<char>> {
    match stmt.columns {
        Some(names) => if names.len() != row.len() {
            Err(
                "INSERT has "@ + decimal(names.len()) + " columns but "@ + decimal(row.len())
                    + " values"@,
            )
        } else {
            match column_slots(names, columns, "duplicate INSERT column"@) {
                Err(m) => Err(m),
                Ok(slots) => slots_code(slots, row, ScopeView::NoColumns, false, c),
            }
        },
        None => if row.len() != columns.len() {
            Err(
                "INSERT has "@ + decimal(row.len()) + " values but table '"@ + stmt.table.name
                    + "' has "@ + decimal(columns.len()) + " columns"@,
            )
        } else {
            slots_code(slots_in_order(row.len()), row, ScopeView::NoColumns, false, c)
        },
    }
}

/// Adds one row.
pub open spec fn insert_row(fields: Seq<usize>, c: CodeView) -> CodeView {
    let key = c.registers;
    let d = c.put(OperationView::NewRowid(NewRowid { cursor_id: 0, dest: key }));
    let record = d.registers;
    d.put(OperationView::MakeRecord(MakeRecordView { dest: record, fields })).emit(
        OperationView::InsertRow(InsertRow { cursor_id: 0, key_reg: key, value_reg: record }),
    )
}

/// Adds rows.
pub open spec fn insert_rows(
    stmt: InsertStmtView,
    rows: Seq<Seq<ExprView>>,
    columns: Seq<ColumnDefView>,
    c: CodeView,
) -> Result<CodeView, Seq<char>>
    decreases rows.len(),
{
    if rows.len() == 0 {
        Ok(c)
    } else {
        match insert_rows(stmt, rows.drop_last(), columns, c) {
            Err(m) => Err(m),
            Ok(d) => match insert_fields(stmt, rows.last(), columns, d) {
                Err(m) => Err(m),
                Ok((f, fields)) => Ok(insert_row(fields, f)),
            },
        }
    }
}

/// What is said of a table that is not known.
pub open spec fn no_table(table: TableNameView) -> Seq<char> {
    "unknown table '"@ + table.name + "'"@
}

/// The program that adds rows.
pub open spec fn insert_program(
    stmt: InsertStmtView,
    cat: spec_fn(TableNameView) -> Option<TableBindingView>,
) -> Result<Seq<OperationView>, Seq<char>> {
    match cat(stmt.table) {
        None => Err(no_table(stmt.table)),
        Some(b) => match insert_rows(
            stmt,
            stmt.rows,
            b.columns,
            CodeView::empty().emit(
                OperationView::OpenWrite(OpenWrite { cursor_id: 0, root_pgno: b.root_pgno }),
            ),
        ) {
            Err(m) => Err(m),
            Ok(c) => {
                let d = c.emit(OperationView::Close(Close { cursor_id: 0 }));
                resolved(d.ops, d.labels)
            },
        },
    }
}

proof fn rows_error_stays(
    stmt: InsertStmtView,
    rows: Seq<Seq<ExprView>>,
    columns: Seq<ColumnDefView>,
    c: CodeView,
    n: int,
)
    requires
        0 <= n <= rows.len(),
        insert_rows(stmt, rows.take(n), columns, c) is Err,
    ensures
        insert_rows(stmt, rows, columns, c) == insert_rows(stmt, rows.take(n), columns, c),
    decreases rows.len(),
{
    if n < rows.len() {
        assert(rows.drop_last().take(n) =~= rows.take(n));
        rows_error_stays(stmt, rows.drop_last(), columns, c, n);
    } else {
        assert(rows.take(n) =~= rows);
    }
}

fn compile_insert_fields(
    code: &mut Code,
    stmt: &InsertStmt,
    row: &Vec<Expr>,
    columns: &Vec<ColumnDef>,
) -> (r: Result<Vec<usize>, String>)
    requires
        old(code).wf(),
    ensures
        final(code).wf(),
        are_values(
            r,
            final(code)@,
            insert_fields(stmt@, expr_views(row@), column_def_views(columns@), old(code)@),
        ),
        r is Ok ==> grown(old(code)@, final(code)@),
{
    match &stmt.columns {
        Some(names) => {
            if names.len() != row.len() {
                let mut s = String::from_str("INSERT has ");
                push_decimal(&mut s, names.len() as u64);
                s.append(" columns but ");
                push_decimal(&mut s, row.len() as u64);
                s.append(" values");
                return Err(s);
            }
            match names_to_slots(names, columns, "duplicate INSERT column") {
                Err(m) => Err(m),
                Ok(slots) => compile_values(code, &slots, row),
            }
        },
        None => {
            if row.len() != columns.len() {
                let mut s = String::from_str("INSERT has ");
                push_decimal(&mut s, row.len() as u64);
                s.append(" values but table '");
                s.append(stmt.table.name.as_str());
                s.append("' has ");
                push_decimal(&mut s, columns.len() as u64);
                s.append(" columns");
                return Err(s);
            }
            let mut slots: Vec<Option<usize>> = Vec::new();
            let mut i: usize = 0;
            while i < row.len()
                invariant
                    i <= row@.len(),
                    slots@.len() == i,
                    forall|j: int| 0 <= j < i ==> #[trigger] slots@[j] == Some(j as usize),
                decreases row.len() - i,
            {
                slots.push(Some(i));
                i = i + 1;
            }
            assert(slots@ =~= slots_in_order(row@.len()));
            compile_values(code, &slots, row)
        },
    }
}

/// Whether a program of a statement is what it should be; it jumps only within
/// itself and does not halt.
pub open spec fn is_statement_program(
    r: Result<Vec<Operation>, String>,
    s: Result<Seq<OperationView>, Seq<char>>,
) -> bool {
    &&& is_program(r, s)
    &&& r matches Ok(v) ==> jumps_inside(operation_views(v@)) && never_halts(operation_views(v@))
}

/// The program that adds rows.
pub fn compile_insert<C: Catalog>(stmt: &InsertStmt, catalog: &C) -> (r: Result<
    Vec<Operation>,
    String,
>)
    ensures
        is_statement_program(r, insert_program(stmt@, known(catalog))),
{
    let binding = match catalog.table(&stmt.table) {
        None => return Err(join3("unknown table '", stmt.table.name.as_str(), "'")),
        Some(b) => b,
    };
    let ghost cat = known(catalog);
    assert(cat(stmt@.table) == Some(binding@));
    let mut code = Code::new();
    code.emit(Operation::OpenWrite(OpenWrite { cursor_id: 0, root_pgno: binding.root_pgno }));
    let ghost c = code@;
    proof {
        grown_once(
            CodeView::empty(),
            OperationView::OpenWrite(OpenWrite { cursor_id: 0, root_pgno: binding.root_pgno }),
        );
    }
    let ghost v = expr_lists(stmt.rows@);
    let ghost w = column_def_views(binding.columns@);
    let mut i: usize = 0;
    assert(v.take(0) =~= seq![]);
    while i < stmt.rows.len()
        invariant
            i <= stmt.rows@.len(),
            v == expr_lists(stmt.rows@),
            v == stmt@.rows,
            w == column_def_views(binding.columns@),
            cat == known(catalog),
            cat(stmt@.table) == Some(binding@),
            c == CodeView::empty().emit(
                OperationView::OpenWrite(OpenWrite { cursor_id: 0, root_pgno: binding.root_pgno }),
            ),
            code.wf(),
            insert_rows(stmt@, v.take(i as int), w, c) == Ok::<CodeView, Seq<char>>(code@),
            grown(CodeView::empty(), code@),
        decreases stmt.rows.len() - i,
    {
        let ghost mid = code@;
        proof {
            let t = v.take(i + 1);
            assert(t.drop_last() =~= v.take(i as int));
            assert(t.last() == expr_views(stmt.rows@[i as int]@));
        }
        let fields = match compile_insert_fields(&mut code, stmt, &stmt.rows[i], &binding.columns) {
            Ok(f) => f,
            Err(m) => {
                proof {
                    rows_error_stays(stmt@, v, w, c, i + 1);
                }
                return Err(m);
            },
        };
        let ghost one = code@;
        let ghost f = fields@;
        let key: usize = code.registers;
        code.put(Operation::NewRowid(NewRowid { cursor_id: 0, dest: key }));
        let ghost two = code@;
        let record: usize = code.registers;
        let op = Operation::MakeRecord(MakeRecord { dest: record, fields });
        assert(op@ =~~= OperationView::MakeRecord(MakeRecordView { dest: record, fields: f }));
        code.put(op);
        let ghost three = code@;
        code.emit(
            Operation::InsertRow(InsertRow { cursor_id: 0, key_reg: key, value_reg: record }),
        );
        proof {
            grown_twice(CodeView::empty(), mid, one);
            grown_once(one, OperationView::NewRowid(NewRowid { cursor_id: 0, dest: key }));
            grown_twice(CodeView::empty(), one, two);
            grown_once(two, op@);
            grown_twice(CodeView::empty(), two, three);
            grown_once(
                three,
                OperationView::InsertRow(
                    InsertRow { cursor_id: 0, key_reg: key, value_reg: record },
                ),
            );
            grown_twice(CodeView::empty(), three, code@);
            assert(code@ == insert_row(f, one));
        }
        i = i + 1;
    }
    assert(v.take(v.len() as int) =~= v);
    let ghost d = code@;
    code.emit(Operation::Close(Close { cursor_id: 0 }));
    proof {
        let close = OperationView::Close(Close { cursor_id: 0 });
        grown_once(d, close);
        grown_twice(CodeView::empty(), d, d.emit(close));
        let e = code@;
        grown_resolves(e, e.ops.len() as int);
        assert(e.ops.take(e.ops.len() as int) =~= e.ops);
    }
    code.finish()
}

// -- UPDATE and DELETE -----------------------------------------

/// The start of a loop that changes rows: labels for its start, its end and the
/// next row, and a jump over rows that a predicate does not hold of.
pub open spec fn change_start(
    root_pgno: u32,
    predicate: Option<ExprView>,
    sc: ScopeView,
) -> Result<CodeView, Seq<char>> {
    let c = CodeView::empty().label().label().label().emit(
        OperationView::OpenWrite(OpenWrite { cursor_id: 0, root_pgno }),
    ).emit(OperationView::Rewind(Rewind { cursor_id: 0 })).emit(
        OperationView::IfCursorEnd(IfCursorEnd { target: 1 }),
    ).mark(0);
    match predicate {
        None => Ok(c),
        Some(p) => match expr_code(p, sc, c) {
            Err(m) => Err(m),
            Ok((d, cond_reg)) => Ok(
                d.emit(OperationView::IfNot(IfNot { cond_reg, target: 2 })),
            ),
        },
    }
}

/// The end of a loop that changes rows.
pub open spec fn change_end(c: CodeView) -> CodeView {
    c.mark(2).emit(OperationView::MoveNext(MoveNext { cursor_id: 0 })).emit(
        OperationView::IfCursorEnd(IfCursorEnd { target: 1 }),
    ).emit(OperationView::Goto(Goto { target: 0 })).mark(1).emit(
        OperationView::Close(Close { cursor_id: 0 }),
    )
}

/// The program that changes rows.
pub open spec fn update_program(
    stmt: UpdateStmtView,
    cat: spec_fn(TableNameView) -> Option<TableBindingView>,
) -> Result<Seq<OperationView>, Seq<char>> {
    match cat(stmt.table) {
        None => Err(no_table(stmt.table)),
        Some(b) => match column_slots(
            assigned_names(stmt.assignments),
            b.columns,
            "duplicate assignment to column"@,
        ) {
            Err(m) => Err(m),
            Ok(slots) => {
                let sc = ScopeView::Table(stmt.table.name, b.columns);
                match change_start(b.root_pgno, stmt.where_clause, sc) {
                    Err(m) => Err(m),
                    Ok(c) => {
                        let key = c.registers;
                        let d = c.put(OperationView::Rowid(Rowid { cursor_id: 0, dest: key }));
                        match slots_code(slots, assigned_values(stmt.assignments), sc, true, d) {
                            Err(m) => Err(m),
                            Ok((f, fields)) => {
                                let g = change_end(update_row(key, fields, f));
                                resolved(g.ops, g.labels)
                            },
                        }
                    },
                }
            },
        },
    }
}

/// Puts a changed row back.
pub open spec fn update_row(key: usize, fields: Seq<usize>, c: CodeView) -> CodeView {
    let record = c.registers;
    c.put(OperationView::MakeRecord(MakeRecordView { dest: record, fields })).emit(
        OperationView::UpdateRow(UpdateRow { cursor_id: 0, key_reg: key, value_reg: record }),
    )
}

/// The program that removes rows.
pub open spec fn delete_program(
    stmt: DeleteStmtView,
    cat: spec_fn(TableNameView) -> Option<TableBindingView>,
) -> Result<Seq<OperationView>, Seq<char>> {
    match cat(stmt.table) {
        None => Err(no_table(stmt.table)),
        Some(b) => match change_start(
            b.root_pgno,
            stmt.where_clause,
            ScopeView::Table(stmt.table.name, b.columns),
        ) {
            Err(m) => Err(m),
            Ok(c) => {
                let key = c.registers;
                let g = change_end(
                    c.put(OperationView::Rowid(Rowid { cursor_id: 0, dest: key })).emit(
                        OperationView::DeleteRow(DeleteRow { cursor_id: 0, key_reg: key }),
                    ),
                );
                resolved(g.ops, g.labels)
            },
        },
    }
}

/// A program within a loop that changes rows: the loop's start is marked, its end
/// and its next row are not yet.
pub open spec fn in_loop(c: CodeView) -> bool {
    &&& c.labels.len() >= 3
    &&& c.labels[0] is Some
    &&& c.labels[0]->0 <= c.ops.len()
    &&& forall|l: int|
        3 <= l < c.labels.len() ==> (#[trigger] c.labels[l]) is Some && c.labels[l]->0
            <= c.ops.len()
    &&& forall|i: int|
        0 <= i < c.ops.len() ==> jumps_below(#[trigger] c.ops[i], c.labels.len() as int)
}

proof fn in_loop_grows(c: CodeView, d: CodeView)
    requires
        in_loop(c),
        grown(c, d),
    ensures
        in_loop(d),
{
    assert(d.labels[0] == c.labels[0]);
    assert forall|l: int| 3 <= l < d.labels.len() implies (#[trigger] d.labels[l]) is Some
        && d.labels[l]->0 <= d.ops.len() by {
        if l < c.labels.len() {
            assert(d.labels[l] == c.labels[l]);
        }
    }
    assert forall|i: int| 0 <= i < d.ops.len() implies jumps_below(
        #[trigger] d.ops[i],
        d.labels.len() as int,
    ) by {
        if i < c.ops.len() {
            assert(d.ops[i] == c.ops[i]);
        }
    }
}

proof fn loop_closes(c: CodeView)
    requires
        in_loop(c),
        c.ops.len() + 4 <= usize::MAX,
    ensures
        grown(CodeView::empty(), change_end(c)),
{
    let d = change_end(c);
    assert forall|i: int| 0 <= i < d.ops.len() implies jumps_below(
        #[trigger] d.ops[i],
        d.labels.len() as int,
    ) by {
        if i < c.ops.len() {
            assert(d.ops[i] == c.ops[i]);
        }
    }
    assert forall|l: int| 0 <= l < d.labels.len() implies (#[trigger] d.labels[l]) is Some
        && d.labels[l]->0 <= d.ops.len() by {
        if l != 1 && l != 2 {
            assert(d.labels[l] == c.labels[l]);
        }
    }
}

fn start_change(
    code: &mut Code,
    root_pgno: u32,
    predicate: &Option<Expr>,
    sc: &Scope<'_>,
) -> (r: Result<(), String>)
    requires
        old(code).wf(),
        old(code)@ == CodeView::empty(),
    ensures
        final(code).wf(),
        crate::sql::planner::is_step(
            r,
            final(code)@,
            change_start(
                root_pgno,
                (match predicate {
                    Some(p) => Some(p@),
                    None => None,
                }),
                sc@,
            ),
        ),
        r is Ok ==> in_loop(final(code)@),
{
    let start: usize = code.new_label();
    let end: usize = code.new_label();
    let skip: usize = code.new_label();
    code.emit(Operation::OpenWrite(OpenWrite { cursor_id: 0, root_pgno }));
    code.emit(Operation::Rewind(Rewind { cursor_id: 0 }));
    code.emit(Operation::IfCursorEnd(IfCursorEnd { target: end }));
    code.mark(start);
    let ghost c = code@;
    assert(in_loop(c));
    match predicate {
        None => Ok(()),
        Some(p) => {
            match code.compile_expr(p, sc) {
                Err(m) => Err(m),
                Ok(cond_reg) => {
                    let ghost d = code@;
                    code.emit(Operation::IfNot(IfNot { cond_reg, target: skip }));
                    proof {
                        in_loop_grows(c, d);
                        let op = OperationView::IfNot(IfNot { cond_reg, target: skip });
                        grown_once(d, op);
                        in_loop_grows(d, d.emit(op));
                    }
                    Ok(())
                },
            }
        },
    }
}

fn end_change(code: &mut Code)
    requires
        old(code).wf(),
        in_loop(old(code)@),
    ensures
        final(code).wf(),
        final(code)@ == change_end(old(code)@),
        grown(CodeView::empty(), final(code)@),
{
    let ghost c = code@;
    code.mark(2);
    code.emit(Operation::MoveNext(MoveNext { cursor_id: 0 }));
    code.emit(Operation::IfCursorEnd(IfCursorEnd { target: 1 }));
    code.emit(Operation::Goto(Goto { target: 0 }));
    code.mark(1);
    code.emit(Operation::Close(Close { cursor_id: 0 }));
    let n: usize = code.ops.len();
    proof {
        assert(code@.ops.len() == n);
        assert(change_end(c).ops.len() == c.ops.len() + 4);
        loop_closes(c);
    }
}

/// The program that changes rows.
pub fn compile_update<C: Catalog>(stmt: &UpdateStmt, catalog: &C) -> (r: Result<
    Vec<Operation>,
    String,
>)
    ensures
        is_statement_program(r, update_program(stmt@, known(catalog))),
{
    let binding = match catalog.table(&stmt.table) {
        None => return Err(join3("unknown table '", stmt.table.name.as_str(), "'")),
        Some(b) => b,
    };
    let ghost cat = known(catalog);
    assert(cat(stmt@.table) == Some(binding@));
    let slots = match assignment_map(&stmt.assignments, &binding.columns) {
        Err(m) => return Err(m),
        Ok(s) => s,
    };
    let sc = Scope::Table(&stmt.table.name, &binding.columns);
    assert(sc@ == ScopeView::Table(stmt@.table.name, binding@.columns));
    let mut code = Code::new();
    match start_change(&mut code, binding.root_pgno, &stmt.where_clause, &sc) {
        Err(m) => return Err(m),
        Ok(_) => {},
    }
    let ghost c = code@;
    let key: usize = code.registers;
    code.put(Operation::Rowid(Rowid { cursor_id: 0, dest: key }));
    let ghost d = code@;
    proof {
        grown_once(c, OperationView::Rowid(Rowid { cursor_id: 0, dest: key }));
        in_loop_grows(c, d);
    }
    let fields = match compile_changes(&mut code, &slots, &stmt.assignments, &sc) {
        Err(m) => return Err(m),
        Ok(f) => f,
    };
    let ghost f = code@;
    let ghost v = fields@;
    let record: usize = code.registers;
    let op = Operation::MakeRecord(MakeRecord { dest: record, fields });
    assert(op@ =~~= OperationView::MakeRecord(MakeRecordView { dest: record, fields: v }));
    code.put(op);
    let ghost g = code@;
    code.emit(Operation::UpdateRow(UpdateRow { cursor_id: 0, key_reg: key, value_reg: record }));
    proof {
        in_loop_grows(d, f);
        grown_once(f, op@);
        in_loop_grows(f, g);
        grown_once(
            g,
            OperationView::UpdateRow(UpdateRow { cursor_id: 0, key_reg: key, value_reg: record }),
        );
        in_loop_grows(g, code@);
        assert(code@ == update_row(key, v, f));
    }
    end_change(&mut code);
    proof {
        let e = code@;
        grown_resolves(e, e.ops.len() as int);
        assert(e.ops.take(e.ops.len() as int) =~= e.ops);
    }
    code.finish()
}

/// The program that removes rows.
pub fn compile_delete<C: Catalog>(stmt: &DeleteStmt, catalog: &C) -> (r: Result<
    Vec<Operation>,
    String,
>)
    ensures
        is_statement_program(r, delete_program(stmt@, known(catalog))),
{
    let binding = match catalog.table(&stmt.table) {
        None => return Err(join3("unknown table '", stmt.table.name.as_str(), "'")),
        Some(b) => b,
    };
    let ghost cat = known(catalog);
    assert(cat(stmt@.table) == Some(binding@));
    let sc = Scope::Table(&stmt.table.name, &binding.columns);
    assert(sc@ == ScopeView::Table(stmt@.table.name, binding@.columns));
    let mut code = Code::new();
    match start_change(&mut code, binding.root_pgno, &stmt.where_clause, &sc) {
        Err(m) => return Err(m),
        Ok(_) => {},
    }
    let ghost c = code@;
    let key: usize = code.registers;
    code.put(Operation::Rowid(Rowid { cursor_id: 0, dest: key }));
    let ghost d = code@;
    code.emit(Operation::DeleteRow(DeleteRow { cursor_id: 0, key_reg: key }));
    proof {
        grown_once(c, OperationView::Rowid(Rowid { cursor_id: 0, dest: key }));
        in_loop_grows(c, d);
        grown_once(d, OperationView::DeleteRow(DeleteRow { cursor_id: 0, key_reg: key }));
        in_loop_grows(d, code@);
    }
    end_change(&mut code);
    proof {
        let e = code@;
        grown_resolves(e, e.ops.len() as int);
        assert(e.ops.take(e.ops.len() as int) =~= e.ops);
    }
    code.finish()
}

} // verus!
