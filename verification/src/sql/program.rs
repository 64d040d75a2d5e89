//! Programs in the making, and expressions in them.
use vstd::prelude::*;
use vstd::string::StringExecFns;
use vstd::utf8::encode_utf8;

use crate::engine::bytes::copy_range;
use crate::sql::ast::{
    BinaryOp, ColumnRef, ColumnRefView, Expr, ExprView, Literal, LiteralView, UnaryOp,
};
use crate::sql::operations::{
    operation_views, Add, And, Column, Divide, Ge, Goto, Gt, IfCursorEnd, IfNot, IfResultsGe,
    Integer, Le, Lt, Multiply, Ne, Negate, Not, Null, Operation, OperationView, Or, Real, RealView,
    Subtract, Text, TextView,
};
use crate::sql::schema::{column_def_views, ColumnDef, ColumnDefView};
use crate::sql::text::{decimal, join3, names_match, push_decimal, same_name};

verus! {

// -- Building --------------------------------------------------

/// A program in the making. Jumps go to labels; a label that has been marked
/// stands for the place of an operation.
pub struct Code {
    pub ops: Vec<Operation>,
    pub labels: Vec<Option<usize>>,
    pub cursors: usize,
    pub registers: usize,
}

/// A program in the making.
#[verifier::ext_equal]
pub struct CodeView {
    pub ops: Seq<OperationView>,
    pub labels: Seq<Option<usize>>,
    pub cursors: usize,
    pub registers: usize,
}

impl View for Code {
    type V = CodeView;

    open spec fn view(&self) -> CodeView {
        CodeView {
            ops: operation_views(self.ops@),
            labels: self.labels@,
            cursors: self.cursors,
            registers: self.registers,
        }
    }
}

impl CodeView {
    /// No operations.
    pub open spec fn empty() -> CodeView {
        CodeView { ops: seq![], labels: seq![], cursors: 0, registers: 0 }
    }

    /// One more operation.
    pub open spec fn emit(self, op: OperationView) -> CodeView {
        CodeView { ops: self.ops.push(op), ..self }
    }

    /// One more operation, which writes the next register.
    pub open spec fn put(self, op: OperationView) -> CodeView {
        CodeView { ops: self.ops.push(op), registers: (self.registers + 1) as usize, ..self }
    }

    /// One more operation, which opens the next cursor.
    pub open spec fn open(self, op: OperationView) -> CodeView {
        CodeView { ops: self.ops.push(op), cursors: (self.cursors + 1) as usize, ..self }
    }

    /// The next label.
    pub open spec fn next_label(self) -> usize {
        self.labels.len() as usize
    }

    /// One more label.
    pub open spec fn label(self) -> CodeView {
        CodeView { labels: self.labels.push(None), ..self }
    }

    /// A label marked at the next operation.
    pub open spec fn mark(self, label: usize) -> CodeView {
        CodeView {
            labels: self.labels.update(label as int, Some(self.ops.len() as usize)),
            ..self
        }
    }
}

/// The place that a label stands for.
pub open spec fn resolve_target(labels: Seq<Option<usize>>, label: usize) -> Result<
    usize,
    Seq<char>,
> {
    if label < labels.len() && labels[label as int] is Some {
        Ok(labels[label as int]->0)
    } else {
        Err("unresolved label "@ + decimal(label as nat))
    }
}

/// The label that an operation jumps to.
pub open spec fn target_of(op: OperationView) -> Option<usize> {
    match op {
        OperationView::IfNot(o) => Some(o.target),
        OperationView::IfCursorEnd(o) => Some(o.target),
        OperationView::IfResultsGe(o) => Some(o.target),
        OperationView::Goto(o) => Some(o.target),
        _ => None,
    }
}

/// An operation with another place to jump to.
pub open spec fn with_target(op: OperationView, target: usize) -> OperationView {
    match op {
        OperationView::IfNot(o) => OperationView::IfNot(IfNot { target, ..o }),
        OperationView::IfCursorEnd(_) => OperationView::IfCursorEnd(IfCursorEnd { target }),
        OperationView::IfResultsGe(o) => OperationView::IfResultsGe(IfResultsGe { target, ..o }),
        OperationView::Goto(_) => OperationView::Goto(Goto { target }),
        _ => op,
    }
}

/// Operations with places in place of labels, or what is said of the first label
/// that was not marked.
pub open spec fn resolved(ops: Seq<OperationView>, labels: Seq<Option<usize>>) -> Result<
    Seq<OperationView>,
    Seq<char>,
>
    decreases ops.len(),
{
    if ops.len() == 0 {
        Ok(seq![])
    } else {
        match resolved(ops.drop_last(), labels) {
            Err(e) => Err(e),
            Ok(done) => match target_of(ops.last()) {
                None => Ok(done.push(ops.last())),
                Some(label) => match resolve_target(labels, label) {
                    Ok(target) => Ok(done.push(with_target(ops.last(), target))),
                    Err(e) => Err(e),
                },
            },
        }
    }
}

proof fn resolved_error_stays(ops: Seq<OperationView>, labels: Seq<Option<usize>>, n: int)
    requires
        0 <= n <= ops.len(),
        resolved(ops.take(n), labels) is Err,
    ensures
        resolved(ops, labels) == resolved(ops.take(n), labels),
    decreases ops.len(),
{
    if n < ops.len() {
        assert(ops.drop_last().take(n) =~= ops.take(n));
        resolved_error_stays(ops.drop_last(), labels, n);
    } else {
        assert(ops.take(n) =~= ops);
    }
}

fn resolve_label(labels: &Vec<Option<usize>>, label: usize) -> (r: Result<usize, String>)
    ensures
        match r {
            Ok(t) => resolve_target(labels@, label) == Ok::<usize, Seq<char>>(t),
            Err(e) => resolve_target(labels@, label) == Err::<usize, Seq<char>>(e@),
        },
{
    if label < labels.len() {
        if let Some(t) = labels[label] {
            return Ok(t);
        }
    }
    let mut s = String::from_str("unresolved label ");
    push_decimal(&mut s, label as u64);
    Err(s)
}

/// Whether `d` is `c` with more operations. All labels that came with them are
/// marked, their jumps go to labels that are there, and none of them halts, or begins
/// or ends a transaction.
pub open spec fn grown(c: CodeView, d: CodeView) -> bool {
    &&& c.ops.len() <= d.ops.len()
    &&& c.labels.len() <= d.labels.len()
    &&& forall|i: int| 0 <= i < c.ops.len() ==> #[trigger] d.ops[i] == c.ops[i]
    &&& forall|l: int| 0 <= l < c.labels.len() ==> #[trigger] d.labels[l] == c.labels[l]
    &&& forall|l: int|
        c.labels.len() <= l < d.labels.len() ==> (#[trigger] d.labels[l]) is Some && d.labels[l]->0
            <= d.ops.len()
    &&& forall|i: int|
        c.ops.len() <= i < d.ops.len() ==> jumps_below(#[trigger] d.ops[i], d.labels.len() as int)
}

/// Whether an operation begins or ends a transaction.
pub open spec fn on_transaction(op: OperationView) -> bool {
    op is BeginTransaction || op is CommitTransaction || op is RollbackTransaction
}

/// Whether an operation does not halt, leaves transactions alone, and jumps, if it
/// does, below `n`.
pub open spec fn jumps_below(op: OperationView, n: int) -> bool {
    !(op is Halt) && !on_transaction(op) && (target_of(op) matches Some(t) ==> t < n)
}

/// Growth adds up.
pub proof fn grown_twice(a: CodeView, b: CodeView, c: CodeView)
    requires
        grown(a, b),
        grown(b, c),
    ensures
        grown(a, c),
{
    assert forall|i: int| 0 <= i < a.ops.len() implies #[trigger] c.ops[i] == a.ops[i] by {
        assert(b.ops[i] == a.ops[i]);
    }
    assert forall|l: int| 0 <= l < a.labels.len() implies #[trigger] c.labels[l] == a.labels[l] by {
        assert(b.labels[l] == a.labels[l]);
    }
    assert forall|l: int| a.labels.len() <= l < c.labels.len() implies (
    #[trigger] c.labels[l]) is Some && c.labels[l]->0 <= c.ops.len() by {
        if l < b.labels.len() {
            assert(c.labels[l] == b.labels[l]);
        }
    }
    assert forall|i: int| a.ops.len() <= i < c.ops.len() implies jumps_below(
        #[trigger] c.ops[i],
        c.labels.len() as int,
    ) by {
        if i < b.ops.len() {
            assert(c.ops[i] == b.ops[i]);
        }
    }
}

/// An operation that jumps, if it does, to a label that is there makes a program
/// grow.
pub proof fn grown_once(c: CodeView, op: OperationView)
    requires
        jumps_below(op, c.labels.len() as int),
    ensures
        grown(c, c.emit(op)),
        grown(c, c.put(op)),
        grown(c, c.open(op)),
{
}

/// Operations that a new label is marked behind make a program grow.
pub proof fn grown_guarded(c: CodeView, op: OperationView, d: CodeView)
    requires
        grown(c.label().emit(op), d),
        c.labels.len() <= usize::MAX,
        target_of(op) == Some(c.next_label()),
        d.ops.len() <= usize::MAX,
    ensures
        grown(c, d.mark(c.next_label())),
{
    let f = c.label().emit(op);
    let l = c.labels.len() as int;
    let g = d.mark(c.next_label());
    assert forall|i: int| 0 <= i < c.ops.len() implies #[trigger] g.ops[i] == c.ops[i] by {
        assert(f.ops[i] == c.ops[i]);
    }
    assert forall|k: int| 0 <= k < c.labels.len() implies #[trigger] g.labels[k] == c.labels[k] by {
        assert(f.labels[k] == c.labels[k]);
        assert(d.labels[k] == f.labels[k]);
    }
    assert forall|k: int| c.labels.len() <= k < g.labels.len() implies (
    #[trigger] g.labels[k]) is Some && g.labels[k]->0 <= g.ops.len() by {
        if k > l {
            assert(g.labels[k] == d.labels[k]);
        }
    }
    assert forall|i: int| c.ops.len() <= i < g.ops.len() implies jumps_below(
        #[trigger] g.ops[i],
        g.labels.len() as int,
    ) by {
        assert(g.ops[i] == d.ops[i]);
        if i == c.ops.len() {
            assert(d.ops[i] == f.ops[i]);
        }
    }
}

/// Whether all jumps of a program end in it or right behind it.
pub open spec fn jumps_inside(ops: Seq<OperationView>) -> bool {
    forall|i: int|
        0 <= i < ops.len() ==> (target_of(#[trigger] ops[i]) matches Some(t) ==> t <= ops.len())
}

/// Whether no operation halts, or begins or ends a transaction.
pub open spec fn never_halts(ops: Seq<OperationView>) -> bool {
    forall|i: int| 0 <= i < ops.len() ==> !(#[trigger] ops[i] is Halt) && !on_transaction(ops[i])
}

/// Whether no operation begins or ends a transaction.
pub open spec fn in_transaction(ops: Seq<OperationView>) -> bool {
    forall|i: int| 0 <= i < ops.len() ==> !on_transaction(#[trigger] ops[i])
}

/// A program that grew from nothing has places for all its labels.
pub proof fn grown_resolves(c: CodeView, n: int)
    requires
        grown(CodeView::empty(), c),
        0 <= n <= c.ops.len(),
    ensures
        resolved(c.ops.take(n), c.labels) matches Ok(v) && v.len() == n && never_halts(v) && forall|
            i: int,
        |
            0 <= i < n ==> (target_of(#[trigger] v[i]) matches Some(t) ==> t <= c.ops.len()),
    decreases n,
{
    if n > 0 {
        grown_resolves(c, n - 1);
        let t = c.ops.take(n);
        assert(t.drop_last() =~= c.ops.take(n - 1));
        assert(t.last() == c.ops[n - 1]);
        assert(jumps_below(c.ops[n - 1], c.labels.len() as int));
        match target_of(c.ops[n - 1]) {
            Some(l) => {
                assert(c.labels[l as int] is Some);
            },
            None => {},
        }
    } else {
        assert(c.ops.take(0) =~= seq![]);
    }
}

/// Whether a program in the making came to what it should.
pub open spec fn is_program(
    r: Result<Vec<Operation>, String>,
    s: Result<Seq<OperationView>, Seq<char>>,
) -> bool {
    match r {
        Ok(v) => s == Ok::<Seq<OperationView>, Seq<char>>(operation_views(v@)),
        Err(e) => s == Err::<Seq<OperationView>, Seq<char>>(e@),
    }
}

/// The value of a step of making a program, where there was no error.
pub open spec fn is_made<T>(
    r: Result<T, String>,
    c: CodeView,
    s: Result<(CodeView, T), Seq<char>>,
) -> bool {
    match r {
        Ok(v) => s == Ok::<(CodeView, T), Seq<char>>((c, v)),
        Err(e) => s == Err::<(CodeView, T), Seq<char>>(e@),
    }
}

impl Code {
    /// No more registers and cursors are in use than there are operations.
    pub open spec fn wf(&self) -> bool {
        self.registers <= self.ops@.len() && self.cursors <= self.ops@.len()
    }

    /// No operations.
    pub fn new() -> (r: Self)
        ensures
            r.wf(),
            r@ == CodeView::empty(),
    {
        let r = Code { ops: Vec::new(), labels: Vec::new(), cursors: 0, registers: 0 };
        assert(r@ =~= CodeView::empty());
        r
    }

    /// Adds an operation.
    pub fn emit(&mut self, op: Operation)
        requires
            old(self).wf(),
        ensures
            final(self).wf(),
            final(self)@ == old(self)@.emit(op@),
    {
        let ghost before = self@;
        self.ops.push(op);
        assert(self@ =~= before.emit(op@));
    }

    /// Adds an operation that writes the next register.
    pub fn put(&mut self, op: Operation) -> (r: usize)
        requires
            old(self).wf(),
        ensures
            final(self).wf(),
            final(self)@ == old(self)@.put(op@),
            r == old(self)@.registers,
    {
        let ghost before = self@;
        self.ops.push(op);
        let n: usize = self.ops.len();
        let r: usize = self.registers;
        self.registers = r + 1;
        assert(self@ =~= before.put(op@));
        r
    }

    /// Adds an operation that opens the next cursor.
    pub fn open(&mut self, op: Operation) -> (r: usize)
        requires
            old(self).wf(),
        ensures
            final(self).wf(),
            final(self)@ == old(self)@.open(op@),
            r == old(self)@.cursors,
    {
        let ghost before = self@;
        self.ops.push(op);
        let n: usize = self.ops.len();
        let r: usize = self.cursors;
        self.cursors = r + 1;
        assert(self@ =~= before.open(op@));
        r
    }

    /// Adds a label.
    pub fn new_label(&mut self) -> (r: usize)
        requires
            old(self).wf(),
        ensures
            final(self).wf(),
            final(self)@ == old(self)@.label(),
            r == old(self)@.next_label(),
            r == old(self)@.labels.len(),
    {
        let ghost before = self@;
        let r: usize = self.labels.len();
        self.labels.push(None);
        assert(self@ =~= before.label());
        r
    }

    /// Marks a label at the next operation.
    pub fn mark(&mut self, label: usize)
        requires
            old(self).wf(),
            label < old(self)@.labels.len(),
        ensures
            final(self).wf(),
            final(self)@ == old(self)@.mark(label),
    {
        let ghost before = self@;
        self.labels[label] = Some(self.ops.len());
        assert(self@ =~= before.mark(label));
    }

    /// The program, with places in place of labels.
    pub fn finish(self) -> (r: Result<Vec<Operation>, String>)
        ensures
            is_program(r, resolved(self@.ops, self@.labels)),
    {
        let mut out: Vec<Operation> = Vec::new();
        let ghost views = self@.ops;
        let mut i: usize = 0;
        assert(views.take(0) =~= seq![]);
        assert(operation_views(out@) =~= seq![]);
        while i < self.ops.len()
            invariant
                i <= self.ops@.len(),
                views == operation_views(self.ops@),
                resolved(views.take(i as int), self.labels@) == Ok::<
                    Seq<OperationView>,
                    Seq<char>,
                >(operation_views(out@)),
            decreases self.ops.len() - i,
        {
            let ghost before = operation_views(out@);
            let ghost t = views.take(i + 1);
            assert(t.drop_last() =~= views.take(i as int));
            assert(t.last() == self.ops@[i as int]@);
            let op = self.ops[i].clone();
            let ghost v = op@;
            let op = match op {
                Operation::IfNot(o) => match resolve_label(&self.labels, o.target) {
                    Ok(target) => Operation::IfNot(IfNot { cond_reg: o.cond_reg, target }),
                    Err(e) => {
                        proof {
                            resolved_error_stays(views, self.labels@, i + 1);
                        }
                        return Err(e);
                    },
                },
                Operation::IfCursorEnd(o) => match resolve_label(&self.labels, o.target) {
                    Ok(target) => Operation::IfCursorEnd(IfCursorEnd { target }),
                    Err(e) => {
                        proof {
                            resolved_error_stays(views, self.labels@, i + 1);
                        }
                        return Err(e);
                    },
                },
                Operation::IfResultsGe(o) => match resolve_label(&self.labels, o.target) {
                    Ok(target) => Operation::IfResultsGe(IfResultsGe { limit: o.limit, target }),
                    Err(e) => {
                        proof {
                            resolved_error_stays(views, self.labels@, i + 1);
                        }
                        return Err(e);
                    },
                },
                Operation::Goto(o) => match resolve_label(&self.labels, o.target) {
                    Ok(target) => Operation::Goto(Goto { target }),
                    Err(e) => {
                        proof {
                            resolved_error_stays(views, self.labels@, i + 1);
                        }
                        return Err(e);
                    },
                },
                _ => op,
            };
            out.push(op);
            assert(operation_views(out@) =~= before.push(op@));
            i = i + 1;
        }
        assert(views.take(views.len() as int) =~= views);
        Ok(out)
    }
}

// -- Columns ---------------------------------------------------

/// The place of the first column with a name.
pub open spec fn column_place(columns: Seq<ColumnDefView>, name: Seq<char>) -> Option<usize>
    decreases columns.len(),
{
    if columns.len() == 0 {
        None
    } else {
        match column_place(columns.drop_last(), name) {
            Some(i) => Some(i),
            None => if same_name(columns.last().name, name) {
                Some((columns.len() - 1) as usize)
            } else {
                None
            },
        }
    }
}

/// The first column with a name is the one that is found.
pub proof fn column_place_stays(columns: Seq<ColumnDefView>, name: Seq<char>, n: int)
    requires
        0 <= n <= columns.len(),
        column_place(columns.take(n), name) is Some,
    ensures
        column_place(columns, name) == column_place(columns.take(n), name),
    decreases columns.len(),
{
    if n < columns.len() {
        assert(columns.drop_last().take(n) =~= columns.take(n));
        column_place_stays(columns.drop_last(), name, n);
    } else {
        assert(columns.take(n) =~= columns);
    }
}

/// A column that is found is there and has the name.
pub proof fn column_place_bound(columns: Seq<ColumnDefView>, name: Seq<char>)
    requires
        columns.len() <= usize::MAX,
    ensures
        column_place(columns, name) matches Some(i) ==> i < columns.len() && same_name(
            columns[i as int].name,
            name,
        ),
    decreases columns.len(),
{
    if columns.len() > 0 {
        column_place_bound(columns.drop_last(), name);
    }
}

/// The place of the first column with a name.
pub fn find_column(columns: &Vec<ColumnDef>, name: &str) -> (r: Option<usize>)
    ensures
        r == column_place(column_def_views(columns@), name@),
        r matches Some(i) ==> i < columns@.len(),
{
    let ghost views = column_def_views(columns@);
    let mut i: usize = 0;
    assert(views.take(0) =~= seq![]);
    while i < columns.len()
        invariant
            i <= columns@.len(),
            views == column_def_views(columns@),
            column_place(views.take(i as int), name@) is None,
        decreases columns.len() - i,
    {
        let ghost t = views.take(i + 1);
        assert(t.drop_last() =~= views.take(i as int));
        assert(t.last() == columns@[i as int]@);
        if names_match(columns[i].name.as_str(), name) {
            proof {
                column_place_stays(views, name@, i + 1);
            }
            return Some(i);
        }
        i = i + 1;
    }
    assert(views.take(views.len() as int) =~= views);
    None
}

/// A table that rows come from.
pub struct RowSource {
    pub table: String,
    pub alias: Option<String>,
    pub cursor_id: usize,
    pub columns: Vec<ColumnDef>,
}

/// A table that rows come from.
#[verifier::ext_equal]
pub struct RowSourceView {
    pub table: Seq<char>,
    pub alias: Option<Seq<char>>,
    pub cursor_id: usize,
    pub columns: Seq<ColumnDefView>,
}

impl View for RowSource {
    type V = RowSourceView;

    open spec fn view(&self) -> RowSourceView {
        RowSourceView {
            table: self.table@,
            alias: crate::sql::ast::label(self.alias),
            cursor_id: self.cursor_id,
            columns: column_def_views(self.columns@),
        }
    }
}

/// Tables that rows come from.
pub open spec fn source_views(s: Seq<RowSource>) -> Seq<RowSourceView> {
    Seq::new(s.len(), |i: int| s[i]@)
}

impl RowSourceView {
    /// Whether the table goes by a name.
    pub open spec fn is_called(self, name: Seq<char>) -> bool {
        same_name(self.table, name) || (self.alias is Some && same_name(self.alias->0, name))
    }
}

impl RowSource {
    /// Whether the table goes by a name.
    pub fn matches_table(&self, name: &str) -> (r: bool)
        ensures
            r == self@.is_called(name@),
    {
        if names_match(self.table.as_str(), name) {
            return true;
        }
        match &self.alias {
            Some(a) => names_match(a.as_str(), name),
            None => false,
        }
    }
}

/// A column of an open table.
#[derive(Clone, Copy, Debug, PartialEq, Eq, Structural)]
pub struct ResolvedColumn {
    pub cursor_id: usize,
    pub col_idx: usize,
}

/// The columns with a name, of the tables that go by a name where one is given;
/// at most one of each table.
pub open spec fn columns_named(
    sources: Seq<RowSourceView>,
    table: Option<Seq<char>>,
    name: Seq<char>,
) -> Seq<ResolvedColumn>
    decreases sources.len(),
{
    if sources.len() == 0 {
        seq![]
    } else {
        let before = columns_named(sources.drop_last(), table, name);
        let s = sources.last();
        if table is Some && !s.is_called(table->0) {
            before
        } else {
            match column_place(s.columns, name) {
                Some(col_idx) => before.push(ResolvedColumn { cursor_id: s.cursor_id, col_idx }),
                None => before,
            }
        }
    }
}

/// The one column with a name.
pub open spec fn only_column(
    found: Seq<ResolvedColumn>,
    kind: Seq<char>,
    name: Seq<char>,
) -> Result<ResolvedColumn, Seq<char>> {
    if found.len() == 0 {
        Err("unknown "@ + kind + " '"@ + name + "'"@)
    } else if found.len() > 1 {
        Err("ambiguous "@ + kind + " '"@ + name + "'"@)
    } else {
        Ok(found[0])
    }
}

fn quoted(start: &str, kind: &str, name: &str) -> (r: String)
    ensures
        r@ == start@ + kind@ + " '"@ + name@ + "'"@,
{
    let mut s = join3(start, kind, " '");
    s.append(name);
    s.append("'");
    s
}

/// The one column with a name, of the tables from `lo` up to `hi`.
pub fn resolve_among(
    sources: &Vec<RowSource>,
    lo: usize,
    hi: usize,
    table: Option<&String>,
    name: &str,
    kind: &str,
) -> (r: Result<ResolvedColumn, String>)
    requires
        lo <= hi <= sources@.len(),
    ensures
        ({
            let t = match table {
                Some(t) => Some(t@),
                None => None,
            };
            let found = columns_named(
                source_views(sources@).subrange(lo as int, hi as int),
                t,
                name@,
            );
            match r {
                Ok(c) => only_column(found, kind@, name@) == Ok::<ResolvedColumn, Seq<char>>(c),
                Err(e) => only_column(found, kind@, name@) == Err::<ResolvedColumn, Seq<char>>(e@),
            }
        }),
{
    let ghost t = match table {
        Some(t) => Some(t@),
        None => None,
    };
    let ghost s = source_views(sources@).subrange(lo as int, hi as int);
    let mut found: Option<ResolvedColumn> = None;
    let mut more = false;
    let mut i: usize = lo;
    assert(s.take(0) =~= seq![]);
    while i < hi
        invariant
            lo <= i <= hi <= sources@.len(),
            s == source_views(sources@).subrange(lo as int, hi as int),
            t == (match table {
                Some(t) => Some(t@),
                None => None,
            }),
            found is None <==> columns_named(s.take(i - lo), t, name@).len() == 0,
            found matches Some(c) ==> columns_named(s.take(i - lo), t, name@)[0] == c,
            more <==> columns_named(s.take(i - lo), t, name@).len() > 1,
        decreases hi - i,
    {
        let ghost u = s.take(i - lo + 1);
        assert(u.drop_last() =~= s.take(i - lo));
        assert(u.last() == sources@[i as int]@);
        let right = match table {
            Some(q) => sources[i].matches_table(q.as_str()),
            None => true,
        };
        if right {
            match find_column(&sources[i].columns, name) {
                Some(col_idx) => {
                    if found.is_none() {
                        found = Some(ResolvedColumn { cursor_id: sources[i].cursor_id, col_idx });
                    } else {
                        more = true;
                    }
                },
                None => {},
            }
        }
        i = i + 1;
    }
    assert(s.take(hi - lo) =~= s);
    match found {
        None => Err(quoted("unknown ", kind, name)),
        Some(c) => if more {
            Err(quoted("ambiguous ", kind, name))
        } else {
            Ok(c)
        },
    }
}

// -- Expressions -----------------------------------------------

/// What the columns in an expression can be: columns of the tables that rows come
/// from, columns of the one table that is being changed, or none.
pub enum Scope<'a> {
    Sources(&'a Vec<RowSource>),
    Table(&'a String, &'a Vec<ColumnDef>),
    NoColumns,
}

/// What the columns in an expression can be.
#[verifier::ext_equal]
pub enum ScopeView {
    Sources(Seq<RowSourceView>),
    Table(Seq<char>, Seq<ColumnDefView>),
    NoColumns,
}

impl<'a> View for Scope<'a> {
    type V = ScopeView;

    open spec fn view(&self) -> ScopeView {
        match self {
            Scope::Sources(s) => ScopeView::Sources(source_views(s@)),
            Scope::Table(n, c) => ScopeView::Table(n@, column_def_views(c@)),
            Scope::NoColumns => ScopeView::NoColumns,
        }
    }
}

/// The column that a name stands for.
pub open spec fn scope_column(sc: ScopeView, column: ColumnRefView) -> Result<
    ResolvedColumn,
    Seq<char>,
> {
    match sc {
        ScopeView::Sources(s) => only_column(
            columns_named(s, column.table, column.name),
            "column"@,
            column.name,
        ),
        ScopeView::Table(table, columns) => if column.table is Some && !same_name(
            column.table->0,
            table,
        ) {
            Err("unknown table qualifier '"@ + column.table->0 + "'"@)
        } else {
            match column_place(columns, column.name) {
                Some(col_idx) => Ok(ResolvedColumn { cursor_id: 0, col_idx }),
                None => Err("unknown column '"@ + column.name + "'"@),
            }
        },
        ScopeView::NoColumns => Err(
            "column '"@ + column.name + "' is not available in this expression"@,
        ),
    }
}

/// The column that a name stands for.
pub fn resolve_column(sc: &Scope<'_>, column: &ColumnRef) -> (r: Result<ResolvedColumn, String>)
    ensures
        match r {
            Ok(c) => scope_column(sc@, column@) == Ok::<ResolvedColumn, Seq<char>>(c),
            Err(e) => scope_column(sc@, column@) == Err::<ResolvedColumn, Seq<char>>(e@),
        },
{
    match sc {
        Scope::Sources(s) => {
            assert(source_views(s@).subrange(0, s@.len() as int) =~= source_views(s@));
            let table = match &column.table {
                Some(t) => Some(t),
                None => None,
            };
            resolve_among(s, 0, s.len(), table, column.name.as_str(), "column")
        },
        Scope::Table(table, columns) => {
            if let Some(q) = &column.table {
                if !names_match(q.as_str(), table.as_str()) {
                    return Err(join3("unknown table qualifier '", q.as_str(), "'"));
                }
            }
            match find_column(columns, column.name.as_str()) {
                Some(col_idx) => Ok(ResolvedColumn { cursor_id: 0, col_idx }),
                None => Err(join3("unknown column '", column.name.as_str(), "'")),
            }
        },
        Scope::NoColumns => Err(
            join3("column '", column.name.as_str(), "' is not available in this expression"),
        ),
    }
}

/// The operation for an operator.
pub open spec fn binary_operation(op: BinaryOp, lhs: usize, rhs: usize, dest: usize) -> OperationView {
    match op {
        BinaryOp::Eq => OperationView::Eq(crate::sql::operations::Eq { lhs, rhs, dest }),
        BinaryOp::Ne => OperationView::Ne(Ne { lhs, rhs, dest }),
        BinaryOp::Lt => OperationView::Lt(Lt { lhs, rhs, dest }),
        BinaryOp::Le => OperationView::Le(Le { lhs, rhs, dest }),
        BinaryOp::Gt => OperationView::Gt(Gt { lhs, rhs, dest }),
        BinaryOp::Ge => OperationView::Ge(Ge { lhs, rhs, dest }),
        BinaryOp::And => OperationView::And(And { lhs, rhs, dest }),
        BinaryOp::Or => OperationView::Or(Or { lhs, rhs, dest }),
        BinaryOp::Add => OperationView::Add(Add { lhs, rhs, dest }),
        BinaryOp::Subtract => OperationView::Subtract(Subtract { lhs, rhs, dest }),
        BinaryOp::Multiply => OperationView::Multiply(Multiply { lhs, rhs, dest }),
        BinaryOp::Divide => OperationView::Divide(Divide { lhs, rhs, dest }),
    }
}

/// The operation that puts a constant into a register.
pub open spec fn literal_operation(l: LiteralView, dest: usize) -> OperationView {
    match l {
        LiteralView::Null => OperationView::Null(Null { dest }),
        LiteralView::Integer(value) => OperationView::Integer(Integer { dest, value }),
        LiteralView::Real(value) => OperationView::Real(RealView { dest, value }),
        LiteralView::Text(s) => OperationView::Text(TextView { dest, value: encode_utf8(s) }),
        LiteralView::Blob(value) => OperationView::Text(TextView { dest, value }),
    }
}

/// What is said of a function call.
pub open spec fn no_functions(sc: ScopeView, name: Seq<char>) -> Seq<char> {
    match sc {
        ScopeView::Sources(_) => "function expressions are not supported by VM codegen yet"@,
        _ => "function '"@ + name + "' is not supported by VM codegen yet"@,
    }
}

/// The operations for an expression, and the register that its value is in.
pub open spec fn expr_code(e: ExprView, sc: ScopeView, c: CodeView) -> Result<
    (CodeView, usize),
    Seq<char>,
>
    decreases e,
{
    match e {
        ExprView::Literal(l) => Ok((c.put(literal_operation(l, c.registers)), c.registers)),
        ExprView::Column(column) => match scope_column(sc, column) {
            Ok(p) => Ok(
                (
                    c.put(
                        OperationView::Column(
                            Column {
                                cursor_id: p.cursor_id,
                                col_idx: p.col_idx,
                                dest: c.registers,
                            },
                        ),
                    ),
                    c.registers,
                ),
            ),
            Err(m) => Err(m),
        },
        ExprView::Unary { op, expr } => match expr_code(*expr, sc, c) {
            Err(m) => Err(m),
            Ok((d, src)) => match op {
                UnaryOp::Positive => Ok((d, src)),
                UnaryOp::Not => Ok(
                    (
                        d.put(OperationView::Not(Not { src, dest: d.registers })),
                        d.registers,
                    ),
                ),
                UnaryOp::Negate => Ok(
                    (
                        d.put(OperationView::Negate(Negate { src, dest: d.registers })),
                        d.registers,
                    ),
                ),
            },
        },
        ExprView::Binary { left, op, right } => match expr_code(*left, sc, c) {
            Err(m) => Err(m),
            Ok((d, lhs)) => match expr_code(*right, sc, d) {
                Err(m) => Err(m),
                Ok((f, rhs)) => Ok(
                    (f.put(binary_operation(op, lhs, rhs, f.registers)), f.registers),
                ),
            },
        },
        ExprView::FunctionCall { name, args } => Err(no_functions(sc, name)),
    }
}

impl Code {
    /// Adds the operation that puts a constant into a register.
    pub fn compile_literal(&mut self, l: &Literal) -> (r: usize)
        requires
            old(self).wf(),
        ensures
            final(self).wf(),
            r == old(self)@.registers,
            final(self)@ == old(self)@.put(literal_operation(l@, old(self)@.registers)),
    {
        let dest: usize = self.registers;
        let op = match l {
            Literal::Null => Operation::Null(Null { dest }),
            Literal::Integer(value) => Operation::Integer(Integer { dest, value: *value }),
            Literal::Real(value) => Operation::Real(Real { dest, value: value.clone() }),
            Literal::Text(s) => {
                let bytes = s.as_str().as_bytes();
                let value = copy_range(bytes, 0, bytes.len());
                assert(value@ =~= encode_utf8(s@));
                Operation::Text(Text { dest, value })
            },
            Literal::Blob(b) => {
                let value = copy_range(b.as_slice(), 0, b.len());
                assert(value@ =~= b@);
                Operation::Text(Text { dest, value })
            },
        };
        assert(op@ =~~= literal_operation(l@, dest));
        self.put(op)
    }

    /// Adds the operation that reads a column.
    pub fn compile_column(&mut self, column: ResolvedColumn) -> (r: usize)
        requires
            old(self).wf(),
        ensures
            final(self).wf(),
            r == old(self)@.registers,
            final(self)@ == old(self)@.put(
                OperationView::Column(
                    Column {
                        cursor_id: column.cursor_id,
                        col_idx: column.col_idx,
                        dest: old(self)@.registers,
                    },
                ),
            ),
    {
        let dest: usize = self.registers;
        self.put(
            Operation::Column(
                Column { cursor_id: column.cursor_id, col_idx: column.col_idx, dest },
            ),
        )
    }

    /// Adds the operations for an expression.
    pub fn compile_expr(&mut self, e: &Expr, sc: &Scope<'_>) -> (r: Result<usize, String>)
        requires
            old(self).wf(),
        ensures
            final(self).wf(),
            is_made(r, final(self)@, expr_code(e@, sc@, old(self)@)),
            r is Ok ==> grown(old(self)@, final(self)@),
        decreases e,
    {
        let ghost before = self@;
        match e {
            Expr::Literal(l) => {
                proof {
                    grown_once(before, literal_operation(l@, before.registers));
                }
                Ok(self.compile_literal(l))
            },
            Expr::Column(column) => match resolve_column(sc, column) {
                Ok(p) => {
                    proof {
                        grown_once(
                            before,
                            OperationView::Column(
                                Column {
                                    cursor_id: p.cursor_id,
                                    col_idx: p.col_idx,
                                    dest: before.registers,
                                },
                            ),
                        );
                    }
                    Ok(self.compile_column(p))
                },
                Err(m) => Err(m),
            },
            Expr::Unary { op, expr } => {
                let src: usize = match self.compile_expr(expr, sc) {
                    Ok(src) => src,
                    Err(m) => return Err(m),
                };
                let dest: usize = self.registers;
                proof {
                    let mid = self@;
                    grown_once(mid, OperationView::Not(Not { src, dest }));
                    grown_once(mid, OperationView::Negate(Negate { src, dest }));
                    grown_twice(
                        before,
                        mid,
                        mid.put(OperationView::Not(Not { src, dest })),
                    );
                    grown_twice(
                        before,
                        mid,
                        mid.put(OperationView::Negate(Negate { src, dest })),
                    );
                }
                match op {
                    UnaryOp::Positive => Ok(src),
                    UnaryOp::Not => Ok(self.put(Operation::Not(Not { src, dest }))),
                    UnaryOp::Negate => Ok(self.put(Operation::Negate(Negate { src, dest }))),
                }
            },
            Expr::Binary { left, op, right } => {
                let lhs: usize = match self.compile_expr(left, sc) {
                    Ok(lhs) => lhs,
                    Err(m) => return Err(m),
                };
                let ghost mid = self@;
                let rhs: usize = match self.compile_expr(right, sc) {
                    Ok(rhs) => rhs,
                    Err(m) => return Err(m),
                };
                let dest: usize = self.registers;
                let operation = match op {
                    BinaryOp::Eq => Operation::Eq(crate::sql::operations::Eq { lhs, rhs, dest }),
                    BinaryOp::Ne => Operation::Ne(Ne { lhs, rhs, dest }),
                    BinaryOp::Lt => Operation::Lt(Lt { lhs, rhs, dest }),
                    BinaryOp::Le => Operation::Le(Le { lhs, rhs, dest }),
                    BinaryOp::Gt => Operation::Gt(Gt { lhs, rhs, dest }),
                    BinaryOp::Ge => Operation::Ge(Ge { lhs, rhs, dest }),
                    BinaryOp::And => Operation::And(And { lhs, rhs, dest }),
                    BinaryOp::Or => Operation::Or(Or { lhs, rhs, dest }),
                    BinaryOp::Add => Operation::Add(Add { lhs, rhs, dest }),
                    BinaryOp::Subtract => Operation::Subtract(Subtract { lhs, rhs, dest }),
                    BinaryOp::Multiply => Operation::Multiply(Multiply { lhs, rhs, dest }),
                    BinaryOp::Divide => Operation::Divide(Divide { lhs, rhs, dest }),
                };
                proof {
                    let last = self@;
                    grown_twice(before, mid, last);
                    grown_once(last, operation@);
                    grown_twice(before, last, last.put(operation@));
                }
                Ok(self.put(operation))
            },
            Expr::FunctionCall { name, args } => match sc {
                Scope::Sources(_) => Err(
                    String::from_str("function expressions are not supported by VM codegen yet"),
                ),
                _ => Err(
                    join3("function '", name.as_str(), "' is not supported by VM codegen yet"),
                ),
            },
        }
    }
}

} // verus!
