//! The operations of the virtual machine.
use vstd::prelude::*;
use vstd::string::StringExecFns;

use crate::engine::bytes::copy_range;
use crate::sql::schema::{column_def_views, copy_column_defs, ColumnDef, ColumnDefView};
use crate::sql::text::{decimal, push_decimal, push_signed, signed_decimal};

verus! {

/// A copy.
pub fn copy_indices(v: &Vec<usize>) -> (r: Vec<usize>)
    ensures
        r@ == v@,
{
    let mut r: Vec<usize> = Vec::new();
    let mut i: usize = 0;
    while i < v.len()
        invariant
            i <= v@.len(),
            r@ == v@.take(i as int),
        decreases v.len() - i,
    {
        r.push(v[i]);
        i = i + 1;
        assert(r@ =~= v@.take(i as int));
    }
    assert(v@.take(v@.len() as int) =~= v@);
    r
}

/// Registers in a list, with commas between them.
pub open spec fn register_list(f: Seq<usize>) -> Seq<char>
    decreases f.len(),
{
    if f.len() == 0 {
        seq![]
    } else if f.len() == 1 {
        "r"@ + decimal(f[0] as nat)
    } else {
        register_list(f.drop_last()) + ", r"@ + decimal(f.last() as nat)
    }
}

fn push_registers(s: &mut String, f: &Vec<usize>)
    ensures
        final(s)@ == old(s)@ + register_list(f@),
{
    let ghost before = s@;
    let mut i: usize = 0;
    assert(before + register_list(f@.take(0)) =~= before);
    while i < f.len()
        invariant
            i <= f@.len(),
            s@ == before + register_list(f@.take(i as int)),
        decreases f.len() - i,
    {
        let ghost mid = s@;
        if i > 0 {
            s.append(", r");
        } else {
            s.append("r");
        }
        push_decimal(s, f[i] as u64);
        proof {
            let a = f@.take(i as int);
            let b = f@.take(i + 1);
            assert(b.drop_last() =~= a);
            assert(b.last() == f@[i as int]);
            if i == 0 {
                assert(register_list(a) =~= seq![]);
                assert(register_list(b) == "r"@ + decimal(f@[0] as nat));
            }
            assert(s@ =~= before + register_list(b));
        }
        i = i + 1;
    }
    assert(f@.take(f@.len() as int) =~= f@);
}

/// Columns with their types in a list, with commas between them.
pub open spec fn column_list(c: Seq<ColumnDefView>) -> Seq<char>
    decreases c.len(),
{
    if c.len() == 0 {
        seq![]
    } else if c.len() == 1 {
        c[0].name + " "@ + c[0].col_type
    } else {
        column_list(c.drop_last()) + ", "@ + (c.last().name + " "@ + c.last().col_type)
    }
}

fn push_columns(s: &mut String, c: &Vec<ColumnDef>)
    ensures
        final(s)@ == old(s)@ + column_list(column_def_views(c@)),
{
    let ghost before = s@;
    let ghost v = column_def_views(c@);
    let mut i: usize = 0;
    assert(before + column_list(v.take(0)) =~= before);
    while i < c.len()
        invariant
            v == column_def_views(c@),
            i <= c@.len(),
            s@ == before + column_list(v.take(i as int)),
        decreases c.len() - i,
    {
        if i > 0 {
            s.append(", ");
        }
        s.append(c[i].name.as_str());
        s.append(" ");
        s.append(c[i].col_type.as_str());
        proof {
            let a = v.take(i as int);
            let b = v.take(i + 1);
            assert(v[i as int] == c@[i as int]@);
            assert(b.drop_last() =~= a);
            assert(b.last() == v[i as int]);
            if i == 0 {
                assert(column_list(a) =~= seq![]);
            }
            assert(s@ =~= before + column_list(b));
        }
        i = i + 1;
    }
    assert(v.take(v.len() as int) =~= v);
}

/// Begins to change the database.
#[derive(Clone, Copy, Debug, PartialEq, Eq, Structural)]
pub struct BeginTransaction;

/// Writes all changes.
#[derive(Clone, Copy, Debug, PartialEq, Eq, Structural)]
pub struct CommitTransaction;

/// Undoes all changes.
#[derive(Clone, Copy, Debug, PartialEq, Eq, Structural)]
pub struct RollbackTransaction;

/// Makes a table.
#[derive(Debug, PartialEq)]
pub struct CreateTable {
    pub name: String,
    pub columns: Vec<ColumnDef>,
}

/// Makes a table.
#[verifier::ext_equal]
pub struct CreateTableView {
    pub name: Seq<char>,
    pub columns: Seq<ColumnDefView>,
}

/// What is in it.
pub open spec fn create_table_view(e: CreateTable) -> CreateTableView {
    CreateTableView { name: e.name@, columns: column_def_views(e.columns@) }
}

impl View for CreateTable {
    type V = CreateTableView;

    open spec fn view(&self) -> CreateTableView {
        create_table_view(*self)
    }
}

/// A copy.
pub fn copy_create_table(e: &CreateTable) -> (r: CreateTable)
    ensures
        r@ == e@,
{
    let r = CreateTable { name: (&e.name).clone(), columns: copy_column_defs((&e.columns)) };
    assert(r@ =~~= e@);
    r
}

impl Clone for CreateTable {
    fn clone(&self) -> (r: Self)
        ensures
            r@ == self@,
    {
        copy_create_table(self)
    }
}

/// Removes a table.
#[derive(Debug, PartialEq)]
pub struct DropTable {
    pub name: String,
}

/// Removes a table.
#[verifier::ext_equal]
pub struct DropTableView {
    pub name: Seq<char>,
}

/// What is in it.
pub open spec fn drop_table_view(e: DropTable) -> DropTableView {
    DropTableView { name: e.name@ }
}

impl View for DropTable {
    type V = DropTableView;

    open spec fn view(&self) -> DropTableView {
        drop_table_view(*self)
    }
}

/// A copy.
pub fn copy_drop_table(e: &DropTable) -> (r: DropTable)
    ensures
        r@ == e@,
{
    let r = DropTable { name: (&e.name).clone() };
    assert(r@ =~~= e@);
    r
}

impl Clone for DropTable {
    fn clone(&self) -> (r: Self)
        ensures
            r@ == self@,
    {
        copy_drop_table(self)
    }
}

/// Opens a cursor.
#[derive(Clone, Copy, Debug, PartialEq, Eq, Structural)]
pub struct OpenWrite {
    pub cursor_id: usize,
    pub root_pgno: u32,
}

/// Opens a cursor.
#[derive(Clone, Copy, Debug, PartialEq, Eq, Structural)]
pub struct OpenRead {
    pub cursor_id: usize,
    pub root_pgno: u32,
}

/// Closes a cursor.
#[derive(Clone, Copy, Debug, PartialEq, Eq, Structural)]
pub struct Close {
    pub cursor_id: usize,
}

/// Goes to the first entry.
#[derive(Clone, Copy, Debug, PartialEq, Eq, Structural)]
pub struct Rewind {
    pub cursor_id: usize,
}

/// Goes to the next entry.
#[derive(Clone, Copy, Debug, PartialEq, Eq, Structural)]
pub struct MoveNext {
    pub cursor_id: usize,
}

/// Goes to the entry with a key.
#[derive(Clone, Copy, Debug, PartialEq, Eq, Structural)]
pub struct SeekRowid {
    pub cursor_id: usize,
    pub key_reg: usize,
}

/// Sets a register to an integer.
#[derive(Clone, Copy, Debug, PartialEq, Eq, Structural)]
pub struct Integer {
    pub dest: usize,
    pub value: i64,
}

/// Sets a register to the real that a numeral stands for.
#[derive(Debug, PartialEq)]
pub struct Real {
    pub dest: usize,
    pub value: String,
}

/// Sets a register to the real that a numeral stands for.
#[verifier::ext_equal]
pub struct RealView {
    pub dest: usize,
    pub value: Seq<char>,
}

/// What is in it.
pub open spec fn real_view(e: Real) -> RealView {
    RealView { dest: e.dest, value: e.value@ }
}

impl View for Real {
    type V = RealView;

    open spec fn view(&self) -> RealView {
        real_view(*self)
    }
}

/// A copy.
pub fn copy_real(e: &Real) -> (r: Real)
    ensures
        r@ == e@,
{
    let r = Real { dest: e.dest, value: (&e.value).clone() };
    assert(r@ =~~= e@);
    r
}

impl Clone for Real {
    fn clone(&self) -> (r: Self)
        ensures
            r@ == self@,
    {
        copy_real(self)
    }
}

/// Sets a register to a text.
#[derive(Debug, PartialEq)]
pub struct Text {
    pub dest: usize,
    pub value: Vec<u8>,
}

/// Sets a register to a text.
#[verifier::ext_equal]
pub struct TextView {
    pub dest: usize,
    pub value: Seq<u8>,
}

/// What is in it.
pub open spec fn text_view(e: Text) -> TextView {
    TextView { dest: e.dest, value: e.value@ }
}

impl View for Text {
    type V = TextView;

    open spec fn view(&self) -> TextView {
        text_view(*self)
    }
}

/// A copy.
pub fn copy_text(e: &Text) -> (r: Text)
    ensures
        r@ == e@,
{
    let r = Text { dest: e.dest, value: copy_range((&e.value).as_slice(), 0, (&e.value).len()) };
    assert(r@ =~~= e@);
    r
}

impl Clone for Text {
    fn clone(&self) -> (r: Self)
        ensures
            r@ == self@,
    {
        copy_text(self)
    }
}

/// Sets a register to nothing.
#[derive(Clone, Copy, Debug, PartialEq, Eq, Structural)]
pub struct Null {
    pub dest: usize,
}

/// Sets a register to a record of others.
#[derive(Debug, PartialEq)]
pub struct MakeRecord {
    pub dest: usize,
    pub fields: Vec<usize>,
}

/// Sets a register to a record of others.
#[verifier::ext_equal]
pub struct MakeRecordView {
    pub dest: usize,
    pub fields: Seq<usize>,
}

/// What is in it.
pub open spec fn make_record_view(e: MakeRecord) -> MakeRecordView {
    MakeRecordView { dest: e.dest, fields: e.fields@ }
}

impl View for MakeRecord {
    type V = MakeRecordView;

    open spec fn view(&self) -> MakeRecordView {
        make_record_view(*self)
    }
}

/// A copy.
pub fn copy_make_record(e: &MakeRecord) -> (r: MakeRecord)
    ensures
        r@ == e@,
{
    let r = MakeRecord { dest: e.dest, fields: copy_indices((&e.fields)) };
    assert(r@ =~~= e@);
    r
}

impl Clone for MakeRecord {
    fn clone(&self) -> (r: Self)
        ensures
            r@ == self@,
    {
        copy_make_record(self)
    }
}

/// Sets a register to a column of an entry.
#[derive(Clone, Copy, Debug, PartialEq, Eq, Structural)]
pub struct Column {
    pub cursor_id: usize,
    pub col_idx: usize,
    pub dest: usize,
}

/// Sets a register to the key of an entry.
#[derive(Clone, Copy, Debug, PartialEq, Eq, Structural)]
pub struct Rowid {
    pub cursor_id: usize,
    pub dest: usize,
}

/// Sets a register to a key behind all others.
#[derive(Clone, Copy, Debug, PartialEq, Eq, Structural)]
pub struct NewRowid {
    pub cursor_id: usize,
    pub dest: usize,
}

/// Puts an entry into a table.
#[derive(Clone, Copy, Debug, PartialEq, Eq, Structural)]
pub struct InsertRow {
    pub cursor_id: usize,
    pub key_reg: usize,
    pub value_reg: usize,
}

/// Takes an entry out of a table.
#[derive(Clone, Copy, Debug, PartialEq, Eq, Structural)]
pub struct DeleteRow {
    pub cursor_id: usize,
    pub key_reg: usize,
}

/// Replaces an entry of a table.
#[derive(Clone, Copy, Debug, PartialEq, Eq, Structural)]
pub struct UpdateRow {
    pub cursor_id: usize,
    pub key_reg: usize,
    pub value_reg: usize,
}

/// Sets a register to whether two others are equal.
#[derive(Clone, Copy, Debug, PartialEq, Eq, Structural)]
pub struct Eq {
    pub lhs: usize,
    pub rhs: usize,
    pub dest: usize,
}

/// Sets a register to whether two others are not equal.
#[derive(Clone, Copy, Debug, PartialEq, Eq, Structural)]
pub struct Ne {
    pub lhs: usize,
    pub rhs: usize,
    pub dest: usize,
}

/// Sets a register to whether two others rise.
#[derive(Clone, Copy, Debug, PartialEq, Eq, Structural)]
pub struct Lt {
    pub lhs: usize,
    pub rhs: usize,
    pub dest: usize,
}

/// Sets a register to whether two others do not fall.
#[derive(Clone, Copy, Debug, PartialEq, Eq, Structural)]
pub struct Le {
    pub lhs: usize,
    pub rhs: usize,
    pub dest: usize,
}

/// Sets a register to whether two others fall.
#[derive(Clone, Copy, Debug, PartialEq, Eq, Structural)]
pub struct Gt {
    pub lhs: usize,
    pub rhs: usize,
    pub dest: usize,
}

/// Sets a register to whether two others do not rise.
#[derive(Clone, Copy, Debug, PartialEq, Eq, Structural)]
pub struct Ge {
    pub lhs: usize,
    pub rhs: usize,
    pub dest: usize,
}

/// Sets a register to whether two others both hold.
#[derive(Clone, Copy, Debug, PartialEq, Eq, Structural)]
pub struct And {
    pub lhs: usize,
    pub rhs: usize,
    pub dest: usize,
}

/// Sets a register to whether two others do not both fail.
#[derive(Clone, Copy, Debug, PartialEq, Eq, Structural)]
pub struct Or {
    pub lhs: usize,
    pub rhs: usize,
    pub dest: usize,
}

/// Sets a register to whether another fails.
#[derive(Clone, Copy, Debug, PartialEq, Eq, Structural)]
pub struct Not {
    pub src: usize,
    pub dest: usize,
}

/// Sets a register to another with its sign turned around.
#[derive(Clone, Copy, Debug, PartialEq, Eq, Structural)]
pub struct Negate {
    pub src: usize,
    pub dest: usize,
}

/// Sets a register to the sum of two others.
#[derive(Clone, Copy, Debug, PartialEq, Eq, Structural)]
pub struct Add {
    pub lhs: usize,
    pub rhs: usize,
    pub dest: usize,
}

/// Sets a register to the difference of two others.
#[derive(Clone, Copy, Debug, PartialEq, Eq, Structural)]
pub struct Subtract {
    pub lhs: usize,
    pub rhs: usize,
    pub dest: usize,
}

/// Sets a register to the product of two others.
#[derive(Clone, Copy, Debug, PartialEq, Eq, Structural)]
pub struct Multiply {
    pub lhs: usize,
    pub rhs: usize,
    pub dest: usize,
}

/// Sets a register to the quotient of two others.
#[derive(Clone, Copy, Debug, PartialEq, Eq, Structural)]
pub struct Divide {
    pub lhs: usize,
    pub rhs: usize,
    pub dest: usize,
}

/// Goes elsewhere where a register fails.
#[derive(Clone, Copy, Debug, PartialEq, Eq, Structural)]
pub struct IfNot {
    pub cond_reg: usize,
    pub target: usize,
}

/// Goes elsewhere behind the last entry.
#[derive(Clone, Copy, Debug, PartialEq, Eq, Structural)]
pub struct IfCursorEnd {
    pub target: usize,
}

/// Goes elsewhere where there are enough rows.
#[derive(Clone, Copy, Debug, PartialEq, Eq, Structural)]
pub struct IfResultsGe {
    pub limit: usize,
    pub target: usize,
}

/// Goes elsewhere.
#[derive(Clone, Copy, Debug, PartialEq, Eq, Structural)]
pub struct Goto {
    pub target: usize,
}

/// Adds a row to the result.
#[derive(Debug, PartialEq)]
pub struct ResultRow {
    pub fields: Vec<usize>,
}

/// Adds a row to the result.
#[verifier::ext_equal]
pub struct ResultRowView {
    pub fields: Seq<usize>,
}

/// What is in it.
pub open spec fn result_row_view(e: ResultRow) -> ResultRowView {
    ResultRowView { fields: e.fields@ }
}

impl View for ResultRow {
    type V = ResultRowView;

    open spec fn view(&self) -> ResultRowView {
        result_row_view(*self)
    }
}

/// A copy.
pub fn copy_result_row(e: &ResultRow) -> (r: ResultRow)
    ensures
        r@ == e@,
{
    let r = ResultRow { fields: copy_indices((&e.fields)) };
    assert(r@ =~~= e@);
    r
}

impl Clone for ResultRow {
    fn clone(&self) -> (r: Self)
        ensures
            r@ == self@,
    {
        copy_result_row(self)
    }
}

/// Stops.
#[derive(Clone, Copy, Debug, PartialEq, Eq, Structural)]
pub struct Halt;

/// An operation of the virtual machine.
#[derive(Debug, PartialEq)]
pub enum Operation {
    BeginTransaction(BeginTransaction),
    CommitTransaction(CommitTransaction),
    RollbackTransaction(RollbackTransaction),
    CreateTable(CreateTable),
    DropTable(DropTable),
    OpenWrite(OpenWrite),
    OpenRead(OpenRead),
    Close(Close),
    Rewind(Rewind),
    MoveNext(MoveNext),
    SeekRowid(SeekRowid),
    Integer(Integer),
    Real(Real),
    Text(Text),
    Null(Null),
    MakeRecord(MakeRecord),
    Column(Column),
    Rowid(Rowid),
    NewRowid(NewRowid),
    InsertRow(InsertRow),
    DeleteRow(DeleteRow),
    UpdateRow(UpdateRow),
    Eq(Eq),
    Ne(Ne),
    Lt(Lt),
    Le(Le),
    Gt(Gt),
    Ge(Ge),
    And(And),
    Or(Or),
    Not(Not),
    Negate(Negate),
    Add(Add),
    Subtract(Subtract),
    Multiply(Multiply),
    Divide(Divide),
    IfNot(IfNot),
    IfCursorEnd(IfCursorEnd),
    IfResultsGe(IfResultsGe),
    Goto(Goto),
    ResultRow(ResultRow),
    Halt(Halt),
}

/// An operation of the virtual machine.
#[verifier::ext_equal]
pub enum OperationView {
    BeginTransaction(BeginTransaction),
    CommitTransaction(CommitTransaction),
    RollbackTransaction(RollbackTransaction),
    CreateTable(CreateTableView),
    DropTable(DropTableView),
    OpenWrite(OpenWrite),
    OpenRead(OpenRead),
    Close(Close),
    Rewind(Rewind),
    MoveNext(MoveNext),
    SeekRowid(SeekRowid),
    Integer(Integer),
    Real(RealView),
    Text(TextView),
    Null(Null),
    MakeRecord(MakeRecordView),
    Column(Column),
    Rowid(Rowid),
    NewRowid(NewRowid),
    InsertRow(InsertRow),
    DeleteRow(DeleteRow),
    UpdateRow(UpdateRow),
    Eq(Eq),
    Ne(Ne),
    Lt(Lt),
    Le(Le),
    Gt(Gt),
    Ge(Ge),
    And(And),
    Or(Or),
    Not(Not),
    Negate(Negate),
    Add(Add),
    Subtract(Subtract),
    Multiply(Multiply),
    Divide(Divide),
    IfNot(IfNot),
    IfCursorEnd(IfCursorEnd),
    IfResultsGe(IfResultsGe),
    Goto(Goto),
    ResultRow(ResultRowView),
    Halt(Halt),
}

/// What is in it.
pub open spec fn operation_view(e: Operation) -> OperationView {
    match e {
        Operation::BeginTransaction(x0) => OperationView::BeginTransaction(x0),
        Operation::CommitTransaction(x0) => OperationView::CommitTransaction(x0),
        Operation::RollbackTransaction(x0) => OperationView::RollbackTransaction(x0),
        Operation::CreateTable(x0) => OperationView::CreateTable(create_table_view(x0)),
        Operation::DropTable(x0) => OperationView::DropTable(drop_table_view(x0)),
        Operation::OpenWrite(x0) => OperationView::OpenWrite(x0),
        Operation::OpenRead(x0) => OperationView::OpenRead(x0),
        Operation::Close(x0) => OperationView::Close(x0),
        Operation::Rewind(x0) => OperationView::Rewind(x0),
        Operation::MoveNext(x0) => OperationView::MoveNext(x0),
        Operation::SeekRowid(x0) => OperationView::SeekRowid(x0),
        Operation::Integer(x0) => OperationView::Integer(x0),
        Operation::Real(x0) => OperationView::Real(real_view(x0)),
        Operation::Text(x0) => OperationView::Text(text_view(x0)),
        Operation::Null(x0) => OperationView::Null(x0),
        Operation::MakeRecord(x0) => OperationView::MakeRecord(make_record_view(x0)),
        Operation::Column(x0) => OperationView::Column(x0),
        Operation::Rowid(x0) => OperationView::Rowid(x0),
        Operation::NewRowid(x0) => OperationView::NewRowid(x0),
        Operation::InsertRow(x0) => OperationView::InsertRow(x0),
        Operation::DeleteRow(x0) => OperationView::DeleteRow(x0),
        Operation::UpdateRow(x0) => OperationView::UpdateRow(x0),
        Operation::Eq(x0) => OperationView::Eq(x0),
        Operation::Ne(x0) => OperationView::Ne(x0),
        Operation::Lt(x0) => OperationView::Lt(x0),
        Operation::Le(x0) => OperationView::Le(x0),
        Operation::Gt(x0) => OperationView::Gt(x0),
        Operation::Ge(x0) => OperationView::Ge(x0),
        Operation::And(x0) => OperationView::And(x0),
        Operation::Or(x0) => OperationView::Or(x0),
        Operation::Not(x0) => OperationView::Not(x0),
        Operation::Negate(x0) => OperationView::Negate(x0),
        Operation::Add(x0) => OperationView::Add(x0),
        Operation::Subtract(x0) => OperationView::Subtract(x0),
        Operation::Multiply(x0) => OperationView::Multiply(x0),
        Operation::Divide(x0) => OperationView::Divide(x0),
        Operation::IfNot(x0) => OperationView::IfNot(x0),
        Operation::IfCursorEnd(x0) => OperationView::IfCursorEnd(x0),
        Operation::IfResultsGe(x0) => OperationView::IfResultsGe(x0),
        Operation::Goto(x0) => OperationView::Goto(x0),
        Operation::ResultRow(x0) => OperationView::ResultRow(result_row_view(x0)),
        Operation::Halt(x0) => OperationView::Halt(x0),
    }
}

impl View for Operation {
    type V = OperationView;

    open spec fn view(&self) -> OperationView {
        operation_view(*self)
    }
}

/// What is in each.
pub open spec fn operation_views(s: Seq<Operation>) -> Seq<OperationView> {
    Seq::new(s.len(), |i: int| operation_view(s[i]))
}

/// A copy.
pub fn copy_operation(e: &Operation) -> (r: Operation)
    ensures
        r@ == e@,
{
    let r = match e {
        Operation::BeginTransaction(x0) => Operation::BeginTransaction(*x0),
        Operation::CommitTransaction(x0) => Operation::CommitTransaction(*x0),
        Operation::RollbackTransaction(x0) => Operation::RollbackTransaction(*x0),
        Operation::CreateTable(x0) => Operation::CreateTable(copy_create_table(x0)),
        Operation::DropTable(x0) => Operation::DropTable(copy_drop_table(x0)),
        Operation::OpenWrite(x0) => Operation::OpenWrite(*x0),
        Operation::OpenRead(x0) => Operation::OpenRead(*x0),
        Operation::Close(x0) => Operation::Close(*x0),
        Operation::Rewind(x0) => Operation::Rewind(*x0),
        Operation::MoveNext(x0) => Operation::MoveNext(*x0),
        Operation::SeekRowid(x0) => Operation::SeekRowid(*x0),
        Operation::Integer(x0) => Operation::Integer(*x0),
        Operation::Real(x0) => Operation::Real(copy_real(x0)),
        Operation::Text(x0) => Operation::Text(copy_text(x0)),
        Operation::Null(x0) => Operation::Null(*x0),
        Operation::MakeRecord(x0) => Operation::MakeRecord(copy_make_record(x0)),
        Operation::Column(x0) => Operation::Column(*x0),
        Operation::Rowid(x0) => Operation::Rowid(*x0),
        Operation::NewRowid(x0) => Operation::NewRowid(*x0),
        Operation::InsertRow(x0) => Operation::InsertRow(*x0),
        Operation::DeleteRow(x0) => Operation::DeleteRow(*x0),
        Operation::UpdateRow(x0) => Operation::UpdateRow(*x0),
        Operation::Eq(x0) => Operation::Eq(*x0),
        Operation::Ne(x0) => Operation::Ne(*x0),
        Operation::Lt(x0) => Operation::Lt(*x0),
        Operation::Le(x0) => Operation::Le(*x0),
        Operation::Gt(x0) => Operation::Gt(*x0),
        Operation::Ge(x0) => Operation::Ge(*x0),
        Operation::And(x0) => Operation::And(*x0),
        Operation::Or(x0) => Operation::Or(*x0),
        Operation::Not(x0) => Operation::Not(*x0),
        Operation::Negate(x0) => Operation::Negate(*x0),
        Operation::Add(x0) => Operation::Add(*x0),
        Operation::Subtract(x0) => Operation::Subtract(*x0),
        Operation::Multiply(x0) => Operation::Multiply(*x0),
        Operation::Divide(x0) => Operation::Divide(*x0),
        Operation::IfNot(x0) => Operation::IfNot(*x0),
        Operation::IfCursorEnd(x0) => Operation::IfCursorEnd(*x0),
        Operation::IfResultsGe(x0) => Operation::IfResultsGe(*x0),
        Operation::Goto(x0) => Operation::Goto(*x0),
        Operation::ResultRow(x0) => Operation::ResultRow(copy_result_row(x0)),
        Operation::Halt(x0) => Operation::Halt(*x0),
    };
    assert(r@ =~~= e@);
    r
}

impl Clone for Operation {
    fn clone(&self) -> (r: Self)
        ensures
            r@ == self@,
    {
        copy_operation(self)
    }
}

/// An operation in words.
pub open spec fn explained(op: OperationView) -> Seq<char> {
    match op {
        OperationView::BeginTransaction(_) => "BeginTransaction"@,
        OperationView::CommitTransaction(_) => "CommitTransaction"@,
        OperationView::RollbackTransaction(_) => "RollbackTransaction"@,
        OperationView::CreateTable(o) => "CreateTable "@ + o.name + " ("@
            + column_list(o.columns) + ")"@,
        OperationView::DropTable(o) => "DropTable "@ + o.name,
        OperationView::OpenWrite(o) => "OpenWrite cursor="@ + decimal(o.cursor_id as nat)
            + " root="@ + decimal(o.root_pgno as nat),
        OperationView::OpenRead(o) => "OpenRead cursor="@ + decimal(o.cursor_id as nat)
            + " root="@ + decimal(o.root_pgno as nat),
        OperationView::Close(o) => "Close cursor="@ + decimal(o.cursor_id as nat),
        OperationView::Rewind(o) => "Rewind cursor="@ + decimal(o.cursor_id as nat),
        OperationView::MoveNext(o) => "MoveNext cursor="@ + decimal(o.cursor_id as nat),
        OperationView::SeekRowid(o) => "SeekRowid cursor="@ + decimal(o.cursor_id as nat)
            + " key_reg="@ + decimal(o.key_reg as nat),
        OperationView::Integer(o) => "Integer "@ + signed_decimal(o.value as int) + " -> r"@
            + decimal(o.dest as nat),
        OperationView::Real(o) => "Real "@ + o.value + " -> r"@ + decimal(o.dest as nat),
        OperationView::Text(o) => "Text len="@ + decimal(o.value.len()) + " -> r"@
            + decimal(o.dest as nat),
        OperationView::Null(o) => "Null -> r"@ + decimal(o.dest as nat),
        OperationView::MakeRecord(o) => "MakeRecord ["@ + register_list(o.fields) + "] -> r"@
            + decimal(o.dest as nat),
        OperationView::Column(o) => "Column cursor="@ + decimal(o.cursor_id as nat) + " col="@
            + decimal(o.col_idx as nat) + " -> r"@ + decimal(o.dest as nat),
        OperationView::Rowid(o) => "Rowid cursor="@ + decimal(o.cursor_id as nat) + " -> r"@
            + decimal(o.dest as nat),
        OperationView::NewRowid(o) => "NewRowid cursor="@ + decimal(o.cursor_id as nat)
            + " -> r"@ + decimal(o.dest as nat),
        OperationView::InsertRow(o) => "InsertRow cursor="@ + decimal(o.cursor_id as nat)
            + " key=r"@ + decimal(o.key_reg as nat) + " value=r"@ + decimal(o.value_reg as nat),
        OperationView::DeleteRow(o) => "DeleteRow cursor="@ + decimal(o.cursor_id as nat)
            + " key=r"@ + decimal(o.key_reg as nat),
        OperationView::UpdateRow(o) => "UpdateRow cursor="@ + decimal(o.cursor_id as nat)
            + " key=r"@ + decimal(o.key_reg as nat) + " value=r"@ + decimal(o.value_reg as nat),
        OperationView::Eq(o) => "Eq r"@ + decimal(o.lhs as nat) + " r"@ + decimal(o.rhs as nat)
            + " -> r"@ + decimal(o.dest as nat),
        OperationView::Ne(o) => "Ne r"@ + decimal(o.lhs as nat) + " r"@ + decimal(o.rhs as nat)
            + " -> r"@ + decimal(o.dest as nat),
        OperationView::Lt(o) => "Lt r"@ + decimal(o.lhs as nat) + " r"@ + decimal(o.rhs as nat)
            + " -> r"@ + decimal(o.dest as nat),
        OperationView::Le(o) => "Le r"@ + decimal(o.lhs as nat) + " r"@ + decimal(o.rhs as nat)
            + " -> r"@ + decimal(o.dest as nat),
        OperationView::Gt(o) => "Gt r"@ + decimal(o.lhs as nat) + " r"@ + decimal(o.rhs as nat)
            + " -> r"@ + decimal(o.dest as nat),
        OperationView::Ge(o) => "Ge r"@ + decimal(o.lhs as nat) + " r"@ + decimal(o.rhs as nat)
            + " -> r"@ + decimal(o.dest as nat),
        OperationView::And(o) => "And r"@ + decimal(o.lhs as nat) + " r"@
            + decimal(o.rhs as nat) + " -> r"@ + decimal(o.dest as nat),
        OperationView::Or(o) => "Or r"@ + decimal(o.lhs as nat) + " r"@ + decimal(o.rhs as nat)
            + " -> r"@ + decimal(o.dest as nat),
        OperationView::Not(o) => "Not r"@ + decimal(o.src as nat) + " -> r"@
            + decimal(o.dest as nat),
        OperationView::Negate(o) => "Negate r"@ + decimal(o.src as nat) + " -> r"@
            + decimal(o.dest as nat),
        OperationView::Add(o) => "Add r"@ + decimal(o.lhs as nat) + " r"@
            + decimal(o.rhs as nat) + " -> r"@ + decimal(o.dest as nat),
        OperationView::Subtract(o) => "Subtract r"@ + decimal(o.lhs as nat) + " r"@
            + decimal(o.rhs as nat) + " -> r"@ + decimal(o.dest as nat),
        OperationView::Multiply(o) => "Multiply r"@ + decimal(o.lhs as nat) + " r"@
            + decimal(o.rhs as nat) + " -> r"@ + decimal(o.dest as nat),
        OperationView::Divide(o) => "Divide r"@ + decimal(o.lhs as nat) + " r"@
            + decimal(o.rhs as nat) + " -> r"@ + decimal(o.dest as nat),
        OperationView::IfNot(o) => "IfNot r"@ + decimal(o.cond_reg as nat) + " -> pc="@
            + decimal(o.target as nat),
        OperationView::IfCursorEnd(o) => "IfCursorEnd -> pc="@ + decimal(o.target as nat),
        OperationView::IfResultsGe(o) => "IfResultsGe "@ + decimal(o.limit as nat) + " -> pc="@
            + decimal(o.target as nat),
        OperationView::Goto(o) => "Goto pc="@ + decimal(o.target as nat),
        OperationView::ResultRow(o) => "ResultRow ["@ + register_list(o.fields) + "]"@,
        OperationView::Halt(_) => "Halt"@,
    }
}

impl Operation {
    /// The operation in words.
    pub fn explain(&self) -> (r: String)
        ensures
            r@ == explained(self@),
    {
        match self {
            Operation::BeginTransaction(_) => String::from_str("BeginTransaction"),
            Operation::CommitTransaction(_) => String::from_str("CommitTransaction"),
            Operation::RollbackTransaction(_) => String::from_str("RollbackTransaction"),
            Operation::CreateTable(o) => {
                let mut s = String::from_str("CreateTable ");
                s.append(o.name.as_str());
                s.append(" (");
                push_columns(&mut s, &o.columns);
                s.append(")");
                s
            },
            Operation::DropTable(o) => {
                let mut s = String::from_str("DropTable ");
                s.append(o.name.as_str());
                s
            },
            Operation::OpenWrite(o) => {
                let mut s = String::from_str("OpenWrite cursor=");
                push_decimal(&mut s, o.cursor_id as u64);
                s.append(" root=");
                push_decimal(&mut s, o.root_pgno as u64);
                s
            },
            Operation::OpenRead(o) => {
                let mut s = String::from_str("OpenRead cursor=");
                push_decimal(&mut s, o.cursor_id as u64);
                s.append(" root=");
                push_decimal(&mut s, o.root_pgno as u64);
                s
            },
            Operation::Close(o) => {
                let mut s = String::from_str("Close cursor=");
                push_decimal(&mut s, o.cursor_id as u64);
                s
            },
            Operation::Rewind(o) => {
                let mut s = String::from_str("Rewind cursor=");
                push_decimal(&mut s, o.cursor_id as u64);
                s
            },
            Operation::MoveNext(o) => {
                let mut s = String::from_str("MoveNext cursor=");
                push_decimal(&mut s, o.cursor_id as u64);
                s
            },
            Operation::SeekRowid(o) => {
                let mut s = String::from_str("SeekRowid cursor=");
                push_decimal(&mut s, o.cursor_id as u64);
                s.append(" key_reg=");
                push_decimal(&mut s, o.key_reg as u64);
                s
            },
            Operation::Integer(o) => {
                let mut s = String::from_str("Integer ");
                push_signed(&mut s, o.value);
                s.append(" -> r");
                push_decimal(&mut s, o.dest as u64);
                s
            },
            Operation::Real(o) => {
                let mut s = String::from_str("Real ");
                s.append(o.value.as_str());
                s.append(" -> r");
                push_decimal(&mut s, o.dest as u64);
                s
            },
            Operation::Text(o) => {
                let mut s = String::from_str("Text len=");
                push_decimal(&mut s, o.value.len() as u64);
                s.append(" -> r");
                push_decimal(&mut s, o.dest as u64);
                s
            },
            Operation::Null(o) => {
                let mut s = String::from_str("Null -> r");
                push_decimal(&mut s, o.dest as u64);
                s
            },
            Operation::MakeRecord(o) => {
                let mut s = String::from_str("MakeRecord [");
                push_registers(&mut s, &o.fields);
                s.append("] -> r");
                push_decimal(&mut s, o.dest as u64);
                s
            },
            Operation::Column(o) => {
                let mut s = String::from_str("Column cursor=");
                push_decimal(&mut s, o.cursor_id as u64);
                s.append(" col=");
                push_decimal(&mut s, o.col_idx as u64);
                s.append(" -> r");
                push_decimal(&mut s, o.dest as u64);
                s
            },
            Operation::Rowid(o) => {
                let mut s = String::from_str("Rowid cursor=");
                push_decimal(&mut s, o.cursor_id as u64);
                s.append(" -> r");
                push_decimal(&mut s, o.dest as u64);
                s
            },
            Operation::NewRowid(o) => {
                let mut s = String::from_str("NewRowid cursor=");
                push_decimal(&mut s, o.cursor_id as u64);
                s.append(" -> r");
                push_decimal(&mut s, o.dest as u64);
                s
            },
            Operation::InsertRow(o) => {
                let mut s = String::from_str("InsertRow cursor=");
                push_decimal(&mut s, o.cursor_id as u64);
                s.append(" key=r");
                push_decimal(&mut s, o.key_reg as u64);
                s.append(" value=r");
                push_decimal(&mut s, o.value_reg as u64);
                s
            },
            Operation::DeleteRow(o) => {
                let mut s = String::from_str("DeleteRow cursor=");
                push_decimal(&mut s, o.cursor_id as u64);
                s.append(" key=r");
                push_decimal(&mut s, o.key_reg as u64);
                s
            },
            Operation::UpdateRow(o) => {
                let mut s = String::from_str("UpdateRow cursor=");
                push_decimal(&mut s, o.cursor_id as u64);
                s.append(" key=r");
                push_decimal(&mut s, o.key_reg as u64);
                s.append(" value=r");
                push_decimal(&mut s, o.value_reg as u64);
                s
            },
            Operation::Eq(o) => {
                let mut s = String::from_str("Eq r");
                push_decimal(&mut s, o.lhs as u64);
                s.append(" r");
                push_decimal(&mut s, o.rhs as u64);
                s.append(" -> r");
                push_decimal(&mut s, o.dest as u64);
                s
            },
            Operation::Ne(o) => {
                let mut s = String::from_str("Ne r");
                push_decimal(&mut s, o.lhs as u64);
                s.append(" r");
                push_decimal(&mut s, o.rhs as u64);
                s.append(" -> r");
                push_decimal(&mut s, o.dest as u64);
                s
            },
            Operation::Lt(o) => {
                let mut s = String::from_str("Lt r");
                push_decimal(&mut s, o.lhs as u64);
                s.append(" r");
                push_decimal(&mut s, o.rhs as u64);
                s.append(" -> r");
                push_decimal(&mut s, o.dest as u64);
                s
            },
            Operation::Le(o) => {
                let mut s = String::from_str("Le r");
                push_decimal(&mut s, o.lhs as u64);
                s.append(" r");
                push_decimal(&mut s, o.rhs as u64);
                s.append(" -> r");
                push_decimal(&mut s, o.dest as u64);
                s
            },
            Operation::Gt(o) => {
                let mut s = String::from_str("Gt r");
                push_decimal(&mut s, o.lhs as u64);
                s.append(" r");
                push_decimal(&mut s, o.rhs as u64);
                s.append(" -> r");
                push_decimal(&mut s, o.dest as u64);
                s
            },
            Operation::Ge(o) => {
                let mut s = String::from_str("Ge r");
                push_decimal(&mut s, o.lhs as u64);
                s.append(" r");
                push_decimal(&mut s, o.rhs as u64);
                s.append(" -> r");
                push_decimal(&mut s, o.dest as u64);
                s
            },
            Operation::And(o) => {
                let mut s = String::from_str("And r");
                push_decimal(&mut s, o.lhs as u64);
                s.append(" r");
                push_decimal(&mut s, o.rhs as u64);
                s.append(" -> r");
                push_decimal(&mut s, o.dest as u64);
                s
            },
            Operation::Or(o) => {
                let mut s = String::from_str("Or r");
                push_decimal(&mut s, o.lhs as u64);
                s.append(" r");
                push_decimal(&mut s, o.rhs as u64);
                s.append(" -> r");
                push_decimal(&mut s, o.dest as u64);
                s
            },
            Operation::Not(o) => {
                let mut s = String::from_str("Not r");
                push_decimal(&mut s, o.src as u64);
                s.append(" -> r");
                push_decimal(&mut s, o.dest as u64);
                s
            },
            Operation::Negate(o) => {
                let mut s = String::from_str("Negate r");
                push_decimal(&mut s, o.src as u64);
                s.append(" -> r");
                push_decimal(&mut s, o.dest as u64);
                s
            },
            Operation::Add(o) => {
                let mut s = String::from_str("Add r");
                push_decimal(&mut s, o.lhs as u64);
                s.append(" r");
                push_decimal(&mut s, o.rhs as u64);
                s.append(" -> r");
                push_decimal(&mut s, o.dest as u64);
                s
            },
            Operation::Subtract(o) => {
                let mut s = String::from_str("Subtract r");
                push_decimal(&mut s, o.lhs as u64);
                s.append(" r");
                push_decimal(&mut s, o.rhs as u64);
                s.append(" -> r");
                push_decimal(&mut s, o.dest as u64);
                s
            },
            Operation::Multiply(o) => {
                let mut s = String::from_str("Multiply r");
                push_decimal(&mut s, o.lhs as u64);
                s.append(" r");
                push_decimal(&mut s, o.rhs as u64);
                s.append(" -> r");
                push_decimal(&mut s, o.dest as u64);
                s
            },
            Operation::Divide(o) => {
                let mut s = String::from_str("Divide r");
                push_decimal(&mut s, o.lhs as u64);
                s.append(" r");
                push_decimal(&mut s, o.rhs as u64);
                s.append(" -> r");
                push_decimal(&mut s, o.dest as u64);
                s
            },
            Operation::IfNot(o) => {
                let mut s = String::from_str("IfNot r");
                push_decimal(&mut s, o.cond_reg as u64);
                s.append(" -> pc=");
                push_decimal(&mut s, o.target as u64);
                s
            },
            Operation::IfCursorEnd(o) => {
                let mut s = String::from_str("IfCursorEnd -> pc=");
                push_decimal(&mut s, o.target as u64);
                s
            },
            Operation::IfResultsGe(o) => {
                let mut s = String::from_str("IfResultsGe ");
                push_decimal(&mut s, o.limit as u64);
                s.append(" -> pc=");
                push_decimal(&mut s, o.target as u64);
                s
            },
            Operation::Goto(o) => {
                let mut s = String::from_str("Goto pc=");
                push_decimal(&mut s, o.target as u64);
                s
            },
            Operation::ResultRow(o) => {
                let mut s = String::from_str("ResultRow [");
                push_registers(&mut s, &o.fields);
                s.append("]");
                s
            },
            Operation::Halt(_) => String::from_str("Halt"),
        }
    }
}

} // verus!
