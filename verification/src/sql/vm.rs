//! The virtual machine.
use vstd::prelude::*;
use vstd::string::StringExecFns;

use crate::engine::btree::BTree;
use crate::engine::cursor::{
    advanced, in_order, next_key, rewound, row_inserted, row_removed, rows_below, rows_by_leaves,
    sought, BTreeCursor,
};
use crate::engine::node::CellView;
use crate::engine::record::{data_views, decode_record, encode_record, is_record, BTreeValueType};
use crate::engine::tables::{apart, freed_leaves, other_tree_stays};
use crate::engine::remove::pruned;
use crate::engine::tree_insert::{room, room_frame};
use crate::engine::order::{key_lt, key_lt_irreflexive, zeros_are_neighbours};
use crate::engine::transaction::{begun, committed, rolled_back};
use crate::engine::tree::{
    as_held, agree, has_key, key_at_bound, lower_bound, lower_bound_is, lower_bound_parts, occ, with_cell,
    without_key,
};
use crate::engine::value::{other_zero, text_from_bytes, text_of, BTreeDataType, DataView};
use crate::sql::operations::{explained, operation_views, Operation, OperationView};
use crate::sql::reals::{Outcome, OutcomeView, RealAnswers, RealQuestion, RealQuestionView};
use crate::sql::schema::{
    column_def_views, copy_column_defs, table_info, table_key, table_record, ColumnDefView,
    SchemaManager, TableStructure, TableStructureView,
};
use crate::sql::text::{decimal, push_decimal};
use crate::sql::values::{
    bool_value, computed, divide_values, divided, is_truthy, is_value, is_zero, is_zero_value,
    negate_value, negated, numeric_binary, test_values, tested, truth, truthy, Arith, Test,
};
use crate::engine::recovery::group_calls;

verus! {

broadcast use group_calls;

/// A machine: a database, cursors, registers and the rows that came out.
pub struct VMInstance {
    pub btree: BTree,
    pub cursors: Vec<Option<BTreeCursor>>,
    pub registers: Vec<BTreeDataType>,
    pub pc: usize,
    pub flag_halt: bool,
    pub flag_cursor_end: bool,
    pub results: Vec<Vec<BTreeDataType>>,
}

/// Rows as mathematical values.
pub open spec fn row_views(s: Seq<Vec<BTreeDataType>>) -> Seq<Seq<DataView>> {
    Seq::new(s.len(), |i: int| data_views(s[i]@))
}

/// Registers with one of them written. Those on the way that were not there hold
/// nothing.
pub open spec fn written(r: Seq<DataView>, reg: usize, v: DataView) -> Seq<DataView> {
    Seq::new(
        if reg < r.len() {
            r.len()
        } else {
            (reg + 1) as nat
        },
        |i: int|
            if i == reg {
                v
            } else if i < r.len() {
                r[i]
            } else {
                DataView::Null
            },
    )
}

/// What some registers hold, where all of them are there.
pub open spec fn gathered(r: Seq<DataView>, fields: Seq<usize>) -> Option<Seq<DataView>> {
    if forall|i: int| 0 <= i < fields.len() ==> #[trigger] fields[i] < r.len() {
        Some(Seq::new(fields.len(), |i: int| r[fields[i] as int]))
    } else {
        None
    }
}

/// The record that a value stands for, where it stands for one: a blob holds the
/// bytes of a record, any other value is one alone.
pub open spec fn record_of(v: DataView) -> Option<Seq<DataView>> {
    match v {
        DataView::Blob(b) => if is_record(b) {
            Some(decode_record(b))
        } else {
            None
        },
        _ => Some(seq![v]),
    }
}

/// Whether `b` holds the same database as `a`, read in between.
pub open spec fn only_read(a: BTree, b: BTree) -> bool {
    &&& b.wf()
    &&& b.same(&a)
    &&& b.store() == a.store()
    &&& b.total() == a.total()
    &&& a.free_ok() ==> b.free_ok() && b.free() == a.free()
}

impl VMInstance {
    /// The invariant of a machine.
    pub open spec fn wf(&self) -> bool {
        self.btree.wf()
    }

    /// What the registers hold.
    pub open spec fn regs(&self) -> Seq<DataView> {
        data_views(self.registers@)
    }

    /// What a register holds.
    pub open spec fn reg(&self, r: usize) -> Option<DataView> {
        if r < self.registers@.len() {
            Some(self.regs()[r as int])
        } else {
            None
        }
    }

    /// The rows that came out.
    pub open spec fn rows(&self) -> Seq<Seq<DataView>> {
        row_views(self.results@)
    }

    /// An open cursor.
    pub open spec fn cursor(&self, id: usize) -> Option<BTreeCursor> {
        if id < self.cursors@.len() {
            self.cursors@[id as int]
        } else {
            None
        }
    }

    /// The entry that a cursor is at.
    pub open spec fn entry(&self, id: usize) -> Option<CellView> {
        match self.cursor(id) {
            Some(c) => if self.btree.store().dom().contains(c.node) && c.cell_idx
                < self.btree.store()[c.node].cells.len() {
                Some(self.btree.store()[c.node].cells[c.cell_idx as int])
            } else {
                None
            },
            None => None,
        }
    }
}

/// How an operation ends: it is done, it fails, or it needs the answer to a
/// question about reals.
#[derive(Debug, PartialEq)]
pub enum Step {
    Done,
    Failed,
    Needs(RealQuestion),
}

/// How an operation ends.
#[verifier::ext_equal]
pub enum StepView {
    Done,
    Failed,
    Needs(RealQuestionView),
}

impl View for Step {
    type V = StepView;

    open spec fn view(&self) -> StepView {
        match self {
            Step::Done => StepView::Done,
            Step::Failed => StepView::Failed,
            Step::Needs(q) => StepView::Needs(q@),
        }
    }
}

/// The step for an outcome.
pub open spec fn step_of<T>(o: OutcomeView<T>) -> StepView {
    match o {
        OutcomeView::Got(_) => StepView::Done,
        OutcomeView::Failed => StepView::Failed,
        OutcomeView::Needs(q) => StepView::Needs(q),
    }
}

// -- Values computed from registers ----------------------------

/// What a comparison of two registers comes to.
pub open spec fn test_registers(
    a: VMInstance,
    t: Test,
    x: usize,
    y: usize,
    r: RealAnswers,
) -> OutcomeView<DataView> {
    match (a.reg(x), a.reg(y)) {
        (Some(v), Some(w)) => tested(t, v, w, r),
        _ => OutcomeView::Failed,
    }
}

/// What arithmetic on two registers comes to.
pub open spec fn compute_registers(
    a: VMInstance,
    o: Arith,
    x: usize,
    y: usize,
    r: RealAnswers,
) -> OutcomeView<DataView> {
    match a.reg(x) {
        Some(v) => match crate::sql::values::numeric(v, r) {
            OutcomeView::Got(_) => match a.reg(y) {
                Some(w) => computed(o, v, w, r),
                None => OutcomeView::Failed,
            },
            OutcomeView::Failed => OutcomeView::Failed,
            OutcomeView::Needs(q) => OutcomeView::Needs(q),
        },
        None => OutcomeView::Failed,
    }
}

/// The register that an operation which only computes a value writes, and the
/// value. The other operations have none.
pub open spec fn computes(op: OperationView, a: VMInstance, r: RealAnswers) -> Option<
    (usize, OutcomeView<DataView>),
> {
    match op {
        OperationView::Integer(o) => Some(
            (
                o.dest,
                if o.value >= 0 {
                    OutcomeView::Got(DataView::Integer(o.value as u64))
                } else {
                    OutcomeView::Failed
                },
            ),
        ),
        OperationView::Real(o) => Some(
            (
                o.dest,
                match r.asked(RealQuestionView::OfText(o.value)) {
                    OutcomeView::Got(b) => OutcomeView::Got(DataView::Real(b)),
                    OutcomeView::Failed => OutcomeView::Failed,
                    OutcomeView::Needs(q) => OutcomeView::Needs(q),
                },
            ),
        ),
        OperationView::Text(o) => Some((o.dest, OutcomeView::Got(DataView::Text(text_of(o.value))))),
        OperationView::Null(o) => Some((o.dest, OutcomeView::Got(DataView::Null))),
        OperationView::MakeRecord(o) => Some(
            (
                o.dest,
                match gathered(a.regs(), o.fields) {
                    Some(f) => OutcomeView::Got(DataView::Blob(encode_record(f))),
                    None => OutcomeView::Failed,
                },
            ),
        ),
        OperationView::Eq(o) => Some((o.dest, test_registers(a, Test::Equal, o.lhs, o.rhs, r))),
        OperationView::Ne(o) => Some((o.dest, test_registers(a, Test::NotEqual, o.lhs, o.rhs, r))),
        OperationView::Lt(o) => Some((o.dest, test_registers(a, Test::Less, o.lhs, o.rhs, r))),
        OperationView::Le(o) => Some(
            (o.dest, test_registers(a, Test::NotGreater, o.lhs, o.rhs, r)),
        ),
        OperationView::Gt(o) => Some((o.dest, test_registers(a, Test::Greater, o.lhs, o.rhs, r))),
        OperationView::Ge(o) => Some((o.dest, test_registers(a, Test::NotLess, o.lhs, o.rhs, r))),
        OperationView::And(o) => Some(
            (
                o.dest,
                match (a.reg(o.lhs), a.reg(o.rhs)) {
                    (Some(v), Some(w)) => OutcomeView::Got(truth(truthy(v) && truthy(w))),
                    _ => OutcomeView::Failed,
                },
            ),
        ),
        OperationView::Or(o) => Some(
            (
                o.dest,
                match (a.reg(o.lhs), a.reg(o.rhs)) {
                    (Some(v), Some(w)) => OutcomeView::Got(truth(truthy(v) || truthy(w))),
                    _ => OutcomeView::Failed,
                },
            ),
        ),
        OperationView::Not(o) => Some(
            (
                o.dest,
                match a.reg(o.src) {
                    Some(v) => OutcomeView::Got(truth(!truthy(v))),
                    None => OutcomeView::Failed,
                },
            ),
        ),
        OperationView::Negate(o) => Some(
            (
                o.dest,
                match a.reg(o.src) {
                    Some(v) => negated(v, r),
                    None => OutcomeView::Failed,
                },
            ),
        ),
        OperationView::Add(o) => Some((o.dest, compute_registers(a, Arith::Plus, o.lhs, o.rhs, r))),
        OperationView::Subtract(o) => Some(
            (o.dest, compute_registers(a, Arith::Minus, o.lhs, o.rhs, r)),
        ),
        OperationView::Multiply(o) => Some(
            (o.dest, compute_registers(a, Arith::Times, o.lhs, o.rhs, r)),
        ),
        OperationView::Divide(o) => Some(
            (
                o.dest,
                match a.reg(o.rhs) {
                    None => OutcomeView::Failed,
                    Some(w) => if is_zero(w) {
                        OutcomeView::Got(DataView::Null)
                    } else {
                        match a.reg(o.lhs) {
                            Some(v) => divided(v, w, r),
                            None => OutcomeView::Failed,
                        }
                    },
                },
            ),
        ),
        _ => None,
    }
}

impl VMInstance {
    fn read_register(&self, r: usize) -> (v: Option<&BTreeDataType>)
        ensures
            v is Some <==> self.reg(r) is Some,
            v matches Some(d) ==> self.reg(r) == Some(d@),
    {
        if r < self.registers.len() {
            Some(&self.registers[r])
        } else {
            None
        }
    }

    fn gather(&self, fields: &Vec<usize>) -> (r: Option<Vec<BTreeDataType>>)
        ensures
            r is Some <==> gathered(self.regs(), fields@) is Some,
            r matches Some(v) ==> gathered(self.regs(), fields@) == Some(data_views(v@)),
    {
        let mut out: Vec<BTreeDataType> = Vec::new();
        let mut i: usize = 0;
        while i < fields.len()
            invariant
                i <= fields@.len(),
                out@.len() == i,
                forall|j: int| 0 <= j < i ==> #[trigger] fields@[j] < self.regs().len(),
                forall|j: int|
                    0 <= j < i ==> (#[trigger] out@[j])@ == self.regs()[fields@[j] as int],
            decreases fields.len() - i,
        {
            match self.read_register(fields[i]) {
                None => {
                    assert(!(fields@[i as int] < self.regs().len()));
                    return None;
                },
                Some(v) => {
                    out.push(v.clone());
                },
            }
            i = i + 1;
        }
        assert(data_views(out@) =~= Seq::new(
            fields@.len(),
            |i: int| self.regs()[fields@[i] as int],
        ));
        Some(out)
    }

    fn test_two(&self, t: Test, x: usize, y: usize, reals: &RealAnswers) -> (r: Outcome<
        BTreeDataType,
    >)
        ensures
            is_value(r, test_registers(*self, t, x, y, *reals)),
    {
        match (self.read_register(x), self.read_register(y)) {
            (Some(v), Some(w)) => test_values(t, v, w, reals),
            _ => Outcome::Failed,
        }
    }

    fn compute_two(&self, o: Arith, x: usize, y: usize, reals: &RealAnswers) -> (r: Outcome<
        BTreeDataType,
    >)
        ensures
            is_value(r, compute_registers(*self, o, x, y, *reals)),
    {
        let v = match self.read_register(x) {
            None => return Outcome::Failed,
            Some(v) => v,
        };
        match crate::sql::values::numeric_value(v, reals) {
            Outcome::Got(_) => {},
            Outcome::Failed => return Outcome::Failed,
            Outcome::Needs(q) => return Outcome::Needs(q),
        }
        match self.read_register(y) {
            None => Outcome::Failed,
            Some(w) => numeric_binary(o, v, w, reals),
        }
    }

    /// The register that an operation which only computes a value writes, and
    /// the value.
    fn compute(&self, op: &Operation, reals: &RealAnswers) -> (r: Option<
        (usize, Outcome<BTreeDataType>),
    >)
        ensures
            r is Some <==> computes(op@, *self, *reals) is Some,
            r matches Some(x) ==> x.0 == (computes(op@, *self, *reals)->0).0 && is_value(
                x.1,
                (computes(op@, *self, *reals)->0).1,
            ),
    {
        match op {
            Operation::Integer(o) => Some(
                (
                    o.dest,
                    if o.value >= 0 {
                        Outcome::Got(BTreeDataType::Integer(o.value as u64))
                    } else {
                        Outcome::Failed
                    },
                ),
            ),
            Operation::Real(o) => Some(
                (
                    o.dest,
                    match reals.ask(RealQuestion::OfText(o.value.clone())) {
                        Outcome::Got(b) => Outcome::Got(BTreeDataType::Real(b)),
                        Outcome::Failed => Outcome::Failed,
                        Outcome::Needs(q) => Outcome::Needs(q),
                    },
                ),
            ),
            Operation::Text(o) => Some(
                (
                    o.dest,
                    Outcome::Got(BTreeDataType::Text(text_from_bytes(o.value.as_slice()))),
                ),
            ),
            Operation::Null(o) => Some((o.dest, Outcome::Got(BTreeDataType::Null))),
            Operation::MakeRecord(o) => Some(
                (
                    o.dest,
                    match self.gather(&o.fields) {
                        Some(f) => Outcome::Got(
                            BTreeDataType::Blob(BTreeValueType::from_vec(f).get_bytes()),
                        ),
                        None => Outcome::Failed,
                    },
                ),
            ),
            Operation::Eq(o) => Some((o.dest, self.test_two(Test::Equal, o.lhs, o.rhs, reals))),
            Operation::Ne(o) => Some((o.dest, self.test_two(Test::NotEqual, o.lhs, o.rhs, reals))),
            Operation::Lt(o) => Some((o.dest, self.test_two(Test::Less, o.lhs, o.rhs, reals))),
            Operation::Le(o) => Some((o.dest, self.test_two(Test::NotGreater, o.lhs, o.rhs, reals))),
            Operation::Gt(o) => Some((o.dest, self.test_two(Test::Greater, o.lhs, o.rhs, reals))),
            Operation::Ge(o) => Some((o.dest, self.test_two(Test::NotLess, o.lhs, o.rhs, reals))),
            Operation::And(o) => Some(
                (
                    o.dest,
                    match (self.read_register(o.lhs), self.read_register(o.rhs)) {
                        (Some(v), Some(w)) => Outcome::Got(
                            bool_value(is_truthy(v) && is_truthy(w)),
                        ),
                        _ => Outcome::Failed,
                    },
                ),
            ),
            Operation::Or(o) => Some(
                (
                    o.dest,
                    match (self.read_register(o.lhs), self.read_register(o.rhs)) {
                        (Some(v), Some(w)) => Outcome::Got(
                            bool_value(is_truthy(v) || is_truthy(w)),
                        ),
                        _ => Outcome::Failed,
                    },
                ),
            ),
            Operation::Not(o) => Some(
                (
                    o.dest,
                    match self.read_register(o.src) {
                        Some(v) => Outcome::Got(bool_value(!is_truthy(v))),
                        None => Outcome::Failed,
                    },
                ),
            ),
            Operation::Negate(o) => Some(
                (
                    o.dest,
                    match self.read_register(o.src) {
                        Some(v) => negate_value(v, reals),
                        None => Outcome::Failed,
                    },
                ),
            ),
            Operation::Add(o) => Some((o.dest, self.compute_two(Arith::Plus, o.lhs, o.rhs, reals))),
            Operation::Subtract(o) => Some(
                (o.dest, self.compute_two(Arith::Minus, o.lhs, o.rhs, reals)),
            ),
            Operation::Multiply(o) => Some(
                (o.dest, self.compute_two(Arith::Times, o.lhs, o.rhs, reals)),
            ),
            Operation::Divide(o) => Some(
                (
                    o.dest,
                    match self.read_register(o.rhs) {
                        None => Outcome::Failed,
                        Some(w) => if is_zero_value(w) {
                            Outcome::Got(BTreeDataType::Null)
                        } else {
                            match self.read_register(o.lhs) {
                                Some(v) => divide_values(v, w, reals),
                                None => Outcome::Failed,
                            }
                        },
                    },
                ),
            ),
            _ => None,
        }
    }

    fn write_register(&mut self, reg: usize, v: BTreeDataType)
        ensures
            *final(self) == (VMInstance { registers: final(self).registers, ..*old(self) }),
            final(self).regs() == written(old(self).regs(), reg, v@),
    {
        let ghost before = self.registers@;
        if reg < self.registers.len() {
            self.registers[reg] = v;
        } else {
            while self.registers.len() < reg
                invariant
                    *self == (VMInstance { registers: self.registers, ..*old(self) }),
                    before.len() <= self.registers@.len() <= reg,
                    forall|i: int| 0 <= i < before.len() ==> self.registers@[i] == before[i],
                    forall|i: int|
                        before.len() <= i < self.registers@.len() ==> (
                        #[trigger] self.registers@[i])@ == DataView::Null,
                decreases reg - self.registers.len(),
            {
                self.registers.push(BTreeDataType::Null);
            }
            self.registers.push(v);
        }
        assert(self.regs() =~= written(data_views(before), reg, v@));
    }
}


// -- What operations do ----------------------------------------

/// Whether an operation moved a cursor, in the way `how` says, over a database
/// that it only read.
pub open spec fn moved(
    a: VMInstance,
    b: VMInstance,
    id: usize,
    s: StepView,
    how: spec_fn(BTreeCursor, BTreeCursor, bool) -> bool,
) -> bool {
    match a.cursor(id) {
        None => s == StepView::Failed && b == a,
        Some(c) => {
            &&& s == StepView::Done
            &&& b == (VMInstance {
                btree: b.btree,
                cursors: b.cursors,
                flag_cursor_end: b.flag_cursor_end,
                ..a
            })
            &&& b.cursor(id) is Some
            &&& b.cursors@ == a.cursors@.update(id as int, b.cursor(id))
            &&& how(c, b.cursor(id)->0, !b.flag_cursor_end)
        },
    }
}

/// Whether an operation changed a tree through a cursor, in the way `how` says.
pub open spec fn changed_tree(
    a: VMInstance,
    b: VMInstance,
    id: usize,
    s: StepView,
    how: spec_fn(BTreeCursor, BTreeCursor, bool) -> bool,
) -> bool {
    match a.cursor(id) {
        None => s == StepView::Failed && b == a,
        Some(c) => {
            &&& s == StepView::Done || s == StepView::Failed
            &&& b == (VMInstance { btree: b.btree, cursors: b.cursors, ..a })
            &&& b.cursor(id) is Some
            &&& b.cursors@ == a.cursors@.update(id as int, b.cursor(id))
            &&& how(c, b.cursor(id)->0, s == StepView::Done)
        },
    }
}

/// What replacing a row does: it is removed, and added with its new value.
pub open spec fn row_updated(
    a: &BTree,
    c: &BTreeCursor,
    b: &BTree,
    d: &BTreeCursor,
    key: DataView,
    value: Seq<DataView>,
    r: bool,
) -> bool {
    ||| !r && row_removed(a, c, b, d, key, false)
    ||| exists|m: BTree, k: BTreeCursor|
        row_removed(a, c, &m, &k, key, true) && #[trigger] row_inserted(
            &m,
            &k,
            b,
            d,
            key,
            value,
            r,
        )
}

/// Replacing a row changes its value, and nothing else among the rows.
pub proof fn update_replaces(
    a: &BTree,
    c: &BTreeCursor,
    b: &BTree,
    d: &BTreeCursor,
    key: DataView,
    value: Seq<DataView>,
)
    requires
        a.is_tree(c.root),
        row_updated(a, c, b, d, key, value, true),
    ensures
        b.is_tree(c.root),
        has_key(a.rows(c.root), as_held(a.rows(c.root), key)),
        b.rows(c.root) == a.rows(c.root).update(
            lower_bound(a.rows(c.root), as_held(a.rows(c.root), key)) as int,
            (key, value),
        ),
{
    let (m, k) = choose|m: BTree, k: BTreeCursor|
        row_removed(a, c, &m, &k, key, true) && #[trigger] row_inserted(
            &m,
            &k,
            b,
            d,
            key,
            value,
            true,
        );
    let e = a.rows(c.root);
    let held = as_held(e, key);
    let f = without_key(e, held);
    rows_by_leaves(a, c.root);
    key_at_bound(e, held);
    lower_bound_parts(e, held);
    let n = lower_bound(e, held) as int;
    assert(as_held(f, key) == key);
    assert(!has_key(f, key));
    assert(held != key ==> held == other_zero(key));
    assert forall|i: int| 0 <= i < f.len() implies (#[trigger] f[i] == (if i < n {
        e[i]
    } else {
        e[i + 1]
    })) by {}
    assert forall|i: int| 0 <= i < f.len() implies (i < n) == key_lt(
        (#[trigger] f[i]).0,
        key,
    ) by {
        assert(f[i].0 != key);
        zeros_are_neighbours(f[i].0, key);
        if i < n {
            assert(key_lt(e[i].0, held));
            assert(f[i].0 != held) by {
                key_lt_irreflexive(held);
            }
        } else {
            assert(!key_lt(e[i + 1].0, held));
            assert(key_lt(e[n].0, e[i + 1].0));
            assert(f[i].0 != held) by {
                key_lt_irreflexive(held);
            }
        }
    }
    lower_bound_is(f, key, n);
    assert(with_cell(f, (key, value)) =~= e.update(n, (key, value)));
}

/// What making a table does: an empty tree is made, and a row of the schema table
/// tells of it.
pub open spec fn table_made(
    a: &BTree,
    b: &BTree,
    name: Seq<char>,
    columns: Seq<ColumnDefView>,
    r: bool,
) -> bool {
    let k = table_key(name);
    let e = a.rows(1);
    &&& b.wf()
    &&& b.m == a.m
    &&& b.is_write == a.is_write
    &&& b.pager.same_transaction(&a.pager)
    &&& a.is_tree(1) ==> {
        &&& b.is_tree(1)
        &&& !r ==> b.rows(1) == e
        &&& r ==> a.is_write && !has_key(e, k) && exists|p: u32|
            {
                &&& p != 0
                &&& a.free().contains(p)
                &&& !b.free().contains(p)
                &&& #[trigger] b.is_tree(p)
                &&& b.rows(p) == Seq::<CellView>::empty()
                &&& b.rows(1) == with_cell(
                    e,
                    (k, table_record(name, p, (TableStructureView { columns }))),
                )
            }
        &&& a.is_write && !has_key(e, k) && a.can_grow(a.height(1) + 3int) && (forall|p: u32|
            room(
                a.store(),
                1,
                a.height(1),
                (k, #[trigger] table_record(name, p, (TableStructureView { columns }))),
                a.m as nat,
            ) is Some) ==> r
        &&& a.total() <= b.total() <= a.total() + a.height(1) + 3
        &&& forall|q: u32| #[trigger]
            a.is_tree(q) && apart(a, 1, q) ==> b.is_tree(q) && b.rows(q) == a.rows(q)
    }
}

/// What removing a table does: its row leaves the schema table, and its pages are
/// free.
pub open spec fn table_dropped(a: &BTree, b: &BTree, name: Seq<char>, r: bool) -> bool {
    let k = table_key(name);
    let e = a.rows(1);
    &&& b.wf()
    &&& b.m == a.m
    &&& b.is_write == a.is_write
    &&& b.pager.same_transaction(&a.pager)
    &&& a.is_tree(1) ==> match table_info(e, name) {
        None => !r && b.is_tree(1) && b.rows(1) == e,
        Some(info) => {
            let root = info.root_pgno;
            &&& r ==> a.is_write && has_key(e, k)
            &&& a.is_tree(root) && apart(a, 1, root) ==> {
                &&& b.is_tree(1)
                &&& b.rows(1) == if r {
                    without_key(e, k)
                } else {
                    e
                }
                &&& r ==> forall|x: u32| #[trigger] a.owns(root, x) ==> b.free().contains(x)
                &&& r == (a.is_write && has_key(e, k) && pruned(
                    a.store(),
                    1,
                    a.height(1),
                    k,
                    a.m as nat,
                ) is Some)
                &&& forall|q: u32| #[trigger]
                    a.is_tree(q) && apart(a, 1, q) && apart(a, root, q) ==> b.is_tree(q) && b.rows(
                        q,
                    ) == a.rows(q)
            }
        },
    }
}

/// What an operation does to a machine, and how it ends.
pub open spec fn executed(
    op: OperationView,
    a: VMInstance,
    b: VMInstance,
    reals: RealAnswers,
    s: StepView,
) -> bool {
    match op {
        OperationView::BeginTransaction(_) => if a.btree.total() > 0 {
            &&& s == StepView::Done
            &&& b == (VMInstance { btree: b.btree, ..a })
            &&& begun(&a.btree, &b.btree)
        } else {
            s == StepView::Failed && b == a
        },
        OperationView::CommitTransaction(_) => if a.btree.is_write {
            &&& s == StepView::Done || s == StepView::Failed
            &&& b == (VMInstance { btree: b.btree, ..a })
            &&& committed(&a.btree, &b.btree, s == StepView::Done)
        } else {
            &&& s == (if a.btree.pager.journal@.is_open() {
                StepView::Done
            } else {
                StepView::Failed
            })
            &&& b == a
        },
        OperationView::RollbackTransaction(_) => {
            &&& s == StepView::Done
            &&& b == (VMInstance { btree: b.btree, ..a })
            &&& rolled_back(&a.btree, &b.btree)
        },
        OperationView::CreateTable(o) => {
            &&& s == StepView::Done || s == StepView::Failed
            &&& b == (VMInstance { btree: b.btree, ..a })
            &&& table_made(&a.btree, &b.btree, o.name, o.columns, s == StepView::Done)
        },
        OperationView::DropTable(o) => {
            &&& s == StepView::Done || s == StepView::Failed
            &&& b == (VMInstance { btree: b.btree, ..a })
            &&& table_dropped(&a.btree, &b.btree, o.name, s == StepView::Done)
        },
        OperationView::OpenWrite(o) => s == StepView::Done && opened(
            a,
            b,
            o.cursor_id,
            o.root_pgno,
        ),
        OperationView::OpenRead(o) => s == StepView::Done && opened(
            a,
            b,
            o.cursor_id,
            o.root_pgno,
        ),
        OperationView::Close(o) => {
            &&& s == (if a.cursor(o.cursor_id) is Some {
                StepView::Done
            } else {
                StepView::Failed
            })
            &&& b == (VMInstance { cursors: b.cursors, ..a })
            &&& b.cursors@ == (if o.cursor_id < a.cursors@.len() {
                a.cursors@.update(o.cursor_id as int, None)
            } else {
                a.cursors@
            })
        },
        OperationView::Rewind(o) => moved(
            a,
            b,
            o.cursor_id,
            s,
            |c: BTreeCursor, d: BTreeCursor, found: bool|
                rewound(&a.btree, &c, &b.btree, &d, found),
        ),
        OperationView::MoveNext(o) => moved(
            a,
            b,
            o.cursor_id,
            s,
            |c: BTreeCursor, d: BTreeCursor, found: bool|
                advanced(&a.btree, &c, &b.btree, &d, found),
        ),
        OperationView::SeekRowid(o) => match a.reg(o.key_reg) {
            Some(DataView::Integer(n)) => moved(
                a,
                b,
                o.cursor_id,
                s,
                |c: BTreeCursor, d: BTreeCursor, found: bool|
                    sought(&a.btree, &c, &b.btree, &d, DataView::Integer(n), found),
            ),
            _ => s == StepView::Failed && b == a,
        },
        OperationView::Column(o) => {
            &&& b == (VMInstance { btree: b.btree, registers: b.registers, ..a })
            &&& only_read(a.btree, b.btree)
            &&& match a.entry(o.cursor_id) {
                None => s == StepView::Failed && b.registers == a.registers,
                Some(c) => s == StepView::Done && b.regs() == written(
                    a.regs(),
                    o.dest,
                    if o.col_idx < c.1.len() {
                        c.1[o.col_idx as int]
                    } else {
                        DataView::Null
                    },
                ),
            }
        },
        OperationView::Rowid(o) => {
            &&& b == (VMInstance { btree: b.btree, registers: b.registers, ..a })
            &&& only_read(a.btree, b.btree)
            &&& match a.entry(o.cursor_id) {
                None => s == StepView::Failed && b.registers == a.registers,
                Some(c) => s == StepView::Done && b.regs() == written(a.regs(), o.dest, c.0),
            }
        },
        OperationView::NewRowid(o) => match a.cursor(o.cursor_id) {
            None => s == StepView::Failed && b == a,
            Some(c) => {
                &&& b == (VMInstance {
                    btree: b.btree,
                    cursors: b.cursors,
                    registers: b.registers,
                    ..a
                })
                &&& only_read(a.btree, b.btree)
                &&& b.cursor(o.cursor_id) is Some
                &&& b.cursor(o.cursor_id)->0.root == c.root
                &&& b.cursors@ == a.cursors@.update(o.cursor_id as int, b.cursor(o.cursor_id))
                &&& in_order(&a.btree, c.node) ==> match next_key(rows_below(&a.btree, c.node)) {
                    Some(n) => s == StepView::Done && b.regs() == written(
                        a.regs(),
                        o.dest,
                        DataView::Integer(n),
                    ),
                    None => s == StepView::Failed,
                }
                &&& s == StepView::Failed ==> b.registers == a.registers
                &&& s == StepView::Done ==> exists|n: u64|
                    b.regs() == #[trigger] written(a.regs(), o.dest, DataView::Integer(n))
                &&& s == StepView::Done || s == StepView::Failed
            },
        },
        OperationView::InsertRow(o) => match (a.reg(o.key_reg), a.reg(o.value_reg)) {
            (Some(k), Some(v)) => match record_of(v) {
                Some(f) => changed_tree(
                    a,
                    b,
                    o.cursor_id,
                    s,
                    |c: BTreeCursor, d: BTreeCursor, r: bool|
                        row_inserted(&a.btree, &c, &b.btree, &d, k, f, r),
                ),
                None => s == StepView::Failed && b == a,
            },
            _ => s == StepView::Failed && b == a,
        },
        OperationView::DeleteRow(o) => match a.reg(o.key_reg) {
            Some(k) => changed_tree(
                a,
                b,
                o.cursor_id,
                s,
                |c: BTreeCursor, d: BTreeCursor, r: bool|
                    row_removed(&a.btree, &c, &b.btree, &d, k, r),
            ),
            _ => s == StepView::Failed && b == a,
        },
        OperationView::UpdateRow(o) => match (a.reg(o.key_reg), a.reg(o.value_reg)) {
            (Some(k), Some(v)) => match record_of(v) {
                Some(f) => changed_tree(
                    a,
                    b,
                    o.cursor_id,
                    s,
                    |c: BTreeCursor, d: BTreeCursor, r: bool|
                        row_updated(&a.btree, &c, &b.btree, &d, k, f, r),
                ),
                None => s == StepView::Failed && b == a,
            },
            _ => s == StepView::Failed && b == a,
        },
        OperationView::IfNot(o) => match a.reg(o.cond_reg) {
            Some(v) => s == StepView::Done && b == (VMInstance {
                pc: if truthy(v) {
                    a.pc
                } else {
                    o.target
                },
                ..a
            }),
            None => s == StepView::Failed && b == a,
        },
        OperationView::IfCursorEnd(o) => s == StepView::Done && b == (VMInstance {
            pc: if a.flag_cursor_end {
                o.target
            } else {
                a.pc
            },
            ..a
        }),
        OperationView::IfResultsGe(o) => s == StepView::Done && b == (VMInstance {
            pc: if a.results@.len() >= o.limit {
                o.target
            } else {
                a.pc
            },
            ..a
        }),
        OperationView::Goto(o) => s == StepView::Done && b == (VMInstance { pc: o.target, ..a }),
        OperationView::ResultRow(o) => match gathered(a.regs(), o.fields) {
            Some(f) => s == StepView::Done && b == (VMInstance { results: b.results, ..a })
                && b.rows() == a.rows().push(f),
            None => s == StepView::Failed && b == a,
        },
        OperationView::Halt(_) => s == StepView::Done && b == (VMInstance { flag_halt: true, ..a }),
        _ => match computes(op, a, reals) {
            Some(x) => {
                &&& s == step_of(x.1)
                &&& match x.1 {
                    OutcomeView::Got(v) => {
                        &&& b == (VMInstance { registers: b.registers, ..a })
                        &&& b.regs() == written(a.regs(), x.0, v)
                    },
                    _ => b == a,
                }
            },
            None => false,
        },
    }
}

/// What opening a cursor does.
pub open spec fn opened(a: VMInstance, b: VMInstance, id: usize, root: u32) -> bool {
    &&& b == (VMInstance { cursors: b.cursors, ..a })
    &&& b.cursors@.len() == if id < a.cursors@.len() {
        a.cursors@.len()
    } else {
        (id + 1) as nat
    }
    &&& forall|i: int|
        0 <= i < b.cursors@.len() && i != id ==> #[trigger] b.cursors@[i] == if i
            < a.cursors@.len() {
            a.cursors@[i]
        } else {
            None
        }
    &&& b.cursor(id) is Some
    &&& b.cursor(id)->0.root == root
    &&& b.cursor(id)->0.node == root
    &&& b.cursor(id)->0.cell_idx == 0
    &&& b.cursor(id)->0.path@.len() == 0
    &&& !b.cursor(id)->0.before_entry
}

fn record_from_register(v: &BTreeDataType) -> (r: Option<BTreeValueType>)
    ensures
        r is Some <==> record_of(v@) is Some,
        r matches Some(x) ==> record_of(v@) == Some(x@),
{
    match v {
        BTreeDataType::Blob(b) => BTreeValueType::read(b.as_slice()),
        _ => Some(BTreeValueType::new_single(v.clone())),
    }
}

impl VMInstance {
    fn open(&mut self, id: usize, root: u32)
        ensures
            opened(*old(self), *final(self), id, root),
    {
        let ghost before = self.cursors@;
        let cursor = BTreeCursor::new(id as u32, root);
        if id < self.cursors.len() {
            self.cursors[id] = Some(cursor);
        } else {
            while self.cursors.len() < id
                invariant
                    *self == (VMInstance { cursors: self.cursors, ..*old(self) }),
                    before.len() <= self.cursors@.len() <= id,
                    forall|i: int| 0 <= i < before.len() ==> self.cursors@[i] == before[i],
                    forall|i: int|
                        before.len() <= i < self.cursors@.len() ==> (
                        #[trigger] self.cursors@[i]) is None,
                decreases id - self.cursors.len(),
            {
                self.cursors.push(None);
            }
            self.cursors.push(Some(cursor));
        }
    }

    fn take_cursor(&mut self, id: usize) -> (r: Option<BTreeCursor>)
        ensures
            r == old(self).cursor(id),
            *final(self) == (VMInstance { cursors: final(self).cursors, ..*old(self) }),
            r is None ==> *final(self) == *old(self),
            r is Some ==> id < old(self).cursors@.len() && final(self).cursors@ == old(self).cursors@.update(id as int, None),
    {
        if id >= self.cursors.len() {
            return None;
        }
        if self.cursors[id].is_none() {
            return None;
        }
        let mut taken: Option<BTreeCursor> = None;
        std::mem::swap(&mut taken, &mut self.cursors[id]);
        taken
    }

    fn give_cursor(&mut self, id: usize, c: BTreeCursor)
        requires
            id < old(self).cursors@.len(),
        ensures
            *final(self) == (VMInstance { cursors: final(self).cursors, ..*old(self) }),
            final(self).cursors@ == old(self).cursors@.update(id as int, Some(c)),
    {
        self.cursors[id] = Some(c);
    }
}


fn make_table(btree: &mut BTree, name: &String, columns: &Vec<crate::sql::schema::ColumnDef>) -> (r:
    bool)
    requires
        old(btree).wf(),
    ensures
        table_made(old(btree), final(btree), name@, column_def_views(columns@), r),
{
    let ghost a = *btree;
    let root = match btree.new_tree() {
        None => return false,
        Some(p) => p,
    };
    let ghost m = *btree;
    let structure = TableStructure { columns: copy_column_defs(columns) };
    let r = SchemaManager::create_table(btree, name.as_str(), root, &structure);
    proof {
        if a.is_tree(1) {
            assert(m.is_tree(1));
            assert(a.tree_at(1, a.height(1)));
            assert forall|x: u32| #[trigger]
                occ(a.store(), seq![1u32], a.height(1), x) > 0 implies agree(
                a.store(),
                m.store(),
                x,
            ) by {
                if a.store().dom().contains(x) {
                    assert(m.store().dom().contains(x));
                }
            }
            room_frame(
                a.store(),
                m.store(),
                1,
                a.height(1),
                (table_key(name@), table_record(name@, root, structure@)),
                a.m as nat,
                true,
            );
            assert(m.is_tree(root));
            assert(apart(&m, 1, root)) by {
                assert forall|x: u32| !(#[trigger] m.owns(1, x) && m.owns(root, x)) by {
                    if m.owns(1, x) && m.owns(root, x) {
                        assert(a.owns(1, x));
                        assert(a.tree_at(1, a.height(1)));
                        assert(x == root);
                    }
                }
            }
            other_tree_stays(&m, btree, 1, root);
            assert(btree.is_tree(root));
            assert(structure@ =~~= TableStructureView { columns: column_def_views(columns@) });
            assert forall|q: u32| #[trigger] a.is_tree(q) && apart(&a, 1, q) implies btree.is_tree(
                q,
            ) && btree.rows(q) == a.rows(q) by {
                assert forall|x: u32| !(#[trigger] m.owns(1, x) && m.owns(q, x)) by {
                    assert(m.owns(1, x) == a.owns(1, x));
                    assert(m.owns(q, x) == a.owns(q, x));
                }
                other_tree_stays(&m, btree, 1, q);
            }
        }
    }
    r
}

#[verifier::rlimit(40)]
fn remove_table(btree: &mut BTree, name: &String) -> (r: bool)
    requires
        old(btree).wf(),
    ensures
        table_dropped(old(btree), final(btree), name@, r),
{
    let ghost a = *btree;
    let info = match SchemaManager::get_table(btree, name.as_str()) {
        None => {
            proof {
                if a.is_tree(1) {
                    btree.same_trees(&a, 1);
                }
            }
            return false;
        },
        Some(info) => info,
    };
    let ghost m = *btree;
    let root = info.root_pgno;
    let removed = SchemaManager::drop_table(btree, name.as_str());
    let ghost n = *btree;
    proof {
        if a.is_tree(1) {
            m.same_trees(&a, 1);
            assert forall|q: u32| #[trigger] a.is_tree(q) implies m.is_tree(q) && m.rows(q)
                == a.rows(q) && (forall|x: u32| #[trigger] m.owns(q, x) == a.owns(q, x)) by {
                m.same_trees(&a, q);
            }
        }
    }
    if !removed {
        proof {
            if a.is_tree(1) {
                assert forall|q: u32| #[trigger] a.is_tree(q) implies n.is_tree(q) && n.rows(q)
                    == a.rows(q) by {
                    assert(m.is_tree(q));
                    n.same_trees(&m, q);
                }
            }
        }
        return false;
    }
    let r = btree.free_tree(root);
    proof {
        if a.is_tree(1) && a.is_tree(root) && apart(&a, 1, root) {
            assert(m.is_tree(1) && m.is_tree(root));
            assert(apart(&m, 1, root)) by {
                assert forall|x: u32| !(#[trigger] m.owns(1, x) && m.owns(root, x)) by {
                    assert(m.owns(1, x) == a.owns(1, x));
                    assert(m.owns(root, x) == a.owns(root, x));
                }
            }
            other_tree_stays(&m, &n, 1, root);
            assert(r);
            assert(apart(&n, root, 1)) by {
                assert forall|x: u32| !(#[trigger] n.owns(root, x) && n.owns(1, x)) by {
                    assert(n.owns(root, x) == m.owns(root, x));
                    assert(n.owns(1, x) ==> m.owns(1, x));
                }
            }
            freed_leaves(&n, btree, root, 1);
            assert forall|q: u32| #[trigger]
                a.is_tree(q) && apart(&a, 1, q) && apart(&a, root, q) implies btree.is_tree(q)
                && btree.rows(q) == a.rows(q) by {
                assert(m.is_tree(q));
                assert forall|x: u32| !(#[trigger] m.owns(1, x) && m.owns(q, x)) by {
                    assert(m.owns(1, x) == a.owns(1, x));
                    assert(m.owns(q, x) == a.owns(q, x));
                }
                other_tree_stays(&m, &n, 1, q);
                assert forall|x: u32| !(#[trigger] n.owns(root, x) && n.owns(q, x)) by {
                    assert(n.owns(root, x) == m.owns(root, x));
                    assert(n.owns(q, x) == m.owns(q, x));
                    assert(a.owns(root, x) == m.owns(root, x));
                }
                freed_leaves(&n, btree, root, q);
            }
            assert forall|x: u32| #[trigger] a.owns(root, x) implies btree.free().contains(x) by {
                assert(m.owns(root, x));
                assert(n.owns(root, x));
            }
        }
    }
    r
}

impl VMInstance {
    /// Carries out an operation on the database.
    fn execute_on_database(&mut self, op: &Operation) -> (r: Option<Step>)
        requires
            old(self).wf(),
        ensures
            r is None ==> *final(self) == *old(self) && !on_database(op@),
            r matches Some(s) ==> final(self).wf() && on_database(op@) && forall|reals: RealAnswers|
                executed(op@, *old(self), *final(self), reals, s@),
    {
        match op {
            Operation::BeginTransaction(_) => {
                if self.btree.pager.total_pages > 0 {
                    self.btree.begin_transaction_write();
                    Some(Step::Done)
                } else {
                    Some(Step::Failed)
                }
            },
            Operation::CommitTransaction(_) => {
                if self.btree.is_write {
                    if self.btree.end_transaction_write() {
                        Some(Step::Done)
                    } else {
                        Some(Step::Failed)
                    }
                } else if self.btree.pager.journal.journal.is_some() {
                    Some(Step::Done)
                } else {
                    Some(Step::Failed)
                }
            },
            Operation::RollbackTransaction(_) => {
                self.btree.rollback();
                Some(Step::Done)
            },
            Operation::CreateTable(o) => {
                if make_table(&mut self.btree, &o.name, &o.columns) {
                    Some(Step::Done)
                } else {
                    Some(Step::Failed)
                }
            },
            Operation::DropTable(o) => {
                if remove_table(&mut self.btree, &o.name) {
                    Some(Step::Done)
                } else {
                    Some(Step::Failed)
                }
            },
            _ => None,
        }
    }

    /// Carries out an operation on a cursor.
    fn execute_on_cursor(&mut self, op: &Operation) -> (r: Option<Step>)
        requires
            old(self).wf(),
        ensures
            r is None ==> *final(self) == *old(self) && !on_cursor(op@),
            r matches Some(s) ==> final(self).wf() && on_cursor(op@) && forall|reals: RealAnswers|
                executed(op@, *old(self), *final(self), reals, s@),
    {
        let ghost a = *self;
        match op {
            Operation::OpenWrite(o) => {
                self.open(o.cursor_id, o.root_pgno);
                Some(Step::Done)
            },
            Operation::OpenRead(o) => {
                self.open(o.cursor_id, o.root_pgno);
                Some(Step::Done)
            },
            Operation::Close(o) => {
                match self.take_cursor(o.cursor_id) {
                    Some(_) => Some(Step::Done),
                    None => {
                        assert(o.cursor_id < a.cursors@.len() ==> a.cursors@.update(
                            o.cursor_id as int,
                            None,
                        ) =~= a.cursors@);
                        Some(Step::Failed)
                    },
                }
            },
            Operation::Rewind(o) => {
                let mut c = match self.take_cursor(o.cursor_id) {
                    None => return Some(Step::Failed),
                    Some(c) => c,
                };
                let found = c.moveto_first_entry(&mut self.btree);
                self.give_cursor(o.cursor_id, c);
                self.flag_cursor_end = !found;
                assert(self.cursors@ =~= a.cursors@.update(o.cursor_id as int, Some(c)));
                Some(Step::Done)
            },
            Operation::MoveNext(o) => {
                let mut c = match self.take_cursor(o.cursor_id) {
                    None => return Some(Step::Failed),
                    Some(c) => c,
                };
                let found = c.moveto_next_entry(&mut self.btree);
                self.give_cursor(o.cursor_id, c);
                self.flag_cursor_end = !found;
                assert(self.cursors@ =~= a.cursors@.update(o.cursor_id as int, Some(c)));
                Some(Step::Done)
            },
            Operation::SeekRowid(o) => {
                let n: u64 = match self.read_register(o.key_reg) {
                    Some(BTreeDataType::Integer(n)) => *n,
                    _ => return Some(Step::Failed),
                };
                let mut c = match self.take_cursor(o.cursor_id) {
                    None => return Some(Step::Failed),
                    Some(c) => c,
                };
                let key = BTreeDataType::Integer(n);
                let found = c.moveto_key_entry(&mut self.btree, &key);
                self.give_cursor(o.cursor_id, c);
                self.flag_cursor_end = !found;
                assert(self.cursors@ =~= a.cursors@.update(o.cursor_id as int, Some(c)));
                Some(Step::Done)
            },
            Operation::Column(o) => {
                if o.cursor_id >= self.cursors.len() {
                    return Some(Step::Failed);
                }
                let entry = match &self.cursors[o.cursor_id] {
                    None => return Some(Step::Failed),
                    Some(c) => c.current_entry(&mut self.btree),
                };
                match entry {
                    None => Some(Step::Failed),
                    Some(e) => {
                        let v = if o.col_idx < e.1.v.len() {
                            e.1.v[o.col_idx].clone()
                        } else {
                            BTreeDataType::Null
                        };
                        self.write_register(o.dest, v);
                        Some(Step::Done)
                    },
                }
            },
            Operation::Rowid(o) => {
                if o.cursor_id >= self.cursors.len() {
                    return Some(Step::Failed);
                }
                let entry = match &self.cursors[o.cursor_id] {
                    None => return Some(Step::Failed),
                    Some(c) => c.current_entry(&mut self.btree),
                };
                match entry {
                    None => Some(Step::Failed),
                    Some(e) => {
                        self.write_register(o.dest, e.0);
                        Some(Step::Done)
                    },
                }
            },
            Operation::NewRowid(o) => {
                let mut c = match self.take_cursor(o.cursor_id) {
                    None => return Some(Step::Failed),
                    Some(c) => c,
                };
                let next = c.next_integer_key(&mut self.btree);
                self.give_cursor(o.cursor_id, c);
                assert(self.cursors@ =~= a.cursors@.update(o.cursor_id as int, Some(c)));
                match next {
                    None => Some(Step::Failed),
                    Some(n) => {
                        self.write_register(o.dest, BTreeDataType::Integer(n));
                        Some(Step::Done)
                    },
                }
            },
            _ => None,
        }
    }
}

/// Whether an operation is on the database as a whole.
pub open spec fn on_database(op: OperationView) -> bool {
    match op {
        OperationView::BeginTransaction(_) => true,
        OperationView::CommitTransaction(_) => true,
        OperationView::RollbackTransaction(_) => true,
        OperationView::CreateTable(_) => true,
        OperationView::DropTable(_) => true,
        _ => false,
    }
}

/// Whether an operation opens, closes, moves or reads a cursor.
pub open spec fn on_cursor(op: OperationView) -> bool {
    match op {
        OperationView::OpenWrite(_) => true,
        OperationView::OpenRead(_) => true,
        OperationView::Close(_) => true,
        OperationView::Rewind(_) => true,
        OperationView::MoveNext(_) => true,
        OperationView::SeekRowid(_) => true,
        OperationView::Column(_) => true,
        OperationView::Rowid(_) => true,
        OperationView::NewRowid(_) => true,
        _ => false,
    }
}


/// Whether an operation changes rows.
pub open spec fn on_rows(op: OperationView) -> bool {
    match op {
        OperationView::InsertRow(_) => true,
        OperationView::DeleteRow(_) => true,
        OperationView::UpdateRow(_) => true,
        _ => false,
    }
}

/// Whether an operation jumps, or gives a row out.
pub open spec fn on_flow(op: OperationView) -> bool {
    match op {
        OperationView::IfNot(_) => true,
        OperationView::IfCursorEnd(_) => true,
        OperationView::IfResultsGe(_) => true,
        OperationView::Goto(_) => true,
        OperationView::ResultRow(_) => true,
        OperationView::Halt(_) => true,
        _ => false,
    }
}

impl VMInstance {
    /// Carries out an operation that changes rows.
    fn execute_on_rows(&mut self, op: &Operation) -> (r: Option<Step>)
        requires
            old(self).wf(),
        ensures
            r is None ==> *final(self) == *old(self) && !on_rows(op@),
            r matches Some(s) ==> final(self).wf() && on_rows(op@) && forall|reals: RealAnswers|
                executed(op@, *old(self), *final(self), reals, s@),
    {
        let ghost a = *self;
        let (id, key_reg, value_reg, remove, insert): (usize, usize, usize, bool, bool) = match op {
            Operation::InsertRow(o) => (o.cursor_id, o.key_reg, o.value_reg, false, true),
            Operation::DeleteRow(o) => (o.cursor_id, o.key_reg, 0, true, false),
            Operation::UpdateRow(o) => (o.cursor_id, o.key_reg, o.value_reg, true, true),
            _ => return None,
        };
        let key = match self.read_register(key_reg) {
            None => return Some(Step::Failed),
            Some(k) => k.clone(),
        };
        let value = if insert {
            match self.read_register(value_reg) {
                None => return Some(Step::Failed),
                Some(v) => match record_from_register(v) {
                    None => return Some(Step::Failed),
                    Some(f) => f,
                },
            }
        } else {
            BTreeValueType::null()
        };
        let mut c = match self.take_cursor(id) {
            None => return Some(Step::Failed),
            Some(c) => c,
        };
        let ghost c0 = c;
        let mut done = true;
        if remove {
            done = c.remove(&mut self.btree, &key);
        }
        let ghost m = self.btree;
        let ghost c1 = c;
        let ghost removed = done;
        if insert && done {
            done = c.insert(&mut self.btree, &key, &value);
        }
        proof {
            if remove && insert && removed {
                assert(row_removed(&a.btree, &c0, &m, &c1, key@, true));
                assert(row_inserted(&m, &c1, &self.btree, &c, key@, value@, done));
            }
        }
        self.give_cursor(id, c);
        assert(self.cursors@ =~= a.cursors@.update(id as int, Some(c)));
        if done {
            Some(Step::Done)
        } else {
            Some(Step::Failed)
        }
    }

    /// Carries out an operation that jumps or gives a row out.
    fn execute_on_flow(&mut self, op: &Operation) -> (r: Option<Step>)
        requires
            old(self).wf(),
        ensures
            r is None ==> *final(self) == *old(self) && !on_flow(op@),
            r matches Some(s) ==> final(self).wf() && on_flow(op@) && forall|reals: RealAnswers|
                executed(op@, *old(self), *final(self), reals, s@),
    {
        let ghost a = *self;
        match op {
            Operation::IfNot(o) => {
                let go = match self.read_register(o.cond_reg) {
                    None => return Some(Step::Failed),
                    Some(v) => is_truthy(v),
                };
                if !go {
                    self.pc = o.target;
                }
                Some(Step::Done)
            },
            Operation::IfCursorEnd(o) => {
                if self.flag_cursor_end {
                    self.pc = o.target;
                }
                Some(Step::Done)
            },
            Operation::IfResultsGe(o) => {
                if self.results.len() >= o.limit {
                    self.pc = o.target;
                }
                Some(Step::Done)
            },
            Operation::Goto(o) => {
                self.pc = o.target;
                Some(Step::Done)
            },
            Operation::ResultRow(o) => {
                match self.gather(&o.fields) {
                    None => Some(Step::Failed),
                    Some(row) => {
                        self.results.push(row);
                        assert(self.rows() =~= a.rows().push(data_views(row@)));
                        Some(Step::Done)
                    },
                }
            },
            Operation::Halt(_) => {
                self.flag_halt = true;
                Some(Step::Done)
            },
            _ => None,
        }
    }

    /// Carries out an operation.
    pub fn execute(&mut self, op: &Operation, reals: &RealAnswers) -> (r: Step)
        requires
            old(self).wf(),
        ensures
            final(self).wf(),
            executed(op@, *old(self), *final(self), *reals, r@),
    {
        match self.compute(op, reals) {
            Some((dest, v)) => {
                return match v {
                    Outcome::Got(v) => {
                        self.write_register(dest, v);
                        Step::Done
                    },
                    Outcome::Failed => Step::Failed,
                    Outcome::Needs(q) => Step::Needs(q),
                };
            },
            None => {},
        }
        match self.execute_on_flow(op) {
            Some(s) => return s,
            None => {},
        }
        match self.execute_on_cursor(op) {
            Some(s) => return s,
            None => {},
        }
        match self.execute_on_rows(op) {
            Some(s) => return s,
            None => {},
        }
        match self.execute_on_database(op) {
            Some(s) => s,
            None => Step::Failed,
        }
    }
}

/// An operation that needs an answer has done nothing yet.
pub proof fn asking_changes_nothing(
    op: OperationView,
    a: VMInstance,
    b: VMInstance,
    reals: RealAnswers,
    q: RealQuestionView,
)
    requires
        executed(op, a, b, reals, StepView::Needs(q)),
    ensures
        b == a,
{
}

// -- Programs --------------------------------------------------

/// Why a program stopped.
#[derive(Debug, PartialEq)]
pub struct VMError {
    pub message: String,
}

impl VMError {
    /// The error in words.
    pub fn text(&self) -> (r: String)
        ensures
            r@ == "vm error: "@ + self.message@,
    {
        let mut s = String::from_str("vm error: ");
        s.append(self.message.as_str());
        s
    }
}

/// How a run of a program ends: the program is through, an operation fails, the
/// answer to a question about reals is needed, or as many operations as were
/// allowed have been carried out.
#[derive(Debug, PartialEq)]
pub enum Run {
    Finished,
    Failed(VMError),
    Needs(RealQuestion),
    Paused,
}

/// How a run of a program ends.
#[verifier::ext_equal]
pub enum RunView {
    Finished,
    Failed(Seq<char>),
    Needs(RealQuestionView),
    Paused,
}

impl View for Run {
    type V = RunView;

    open spec fn view(&self) -> RunView {
        match self {
            Run::Finished => RunView::Finished,
            Run::Failed(e) => RunView::Failed(e.message@),
            Run::Needs(q) => RunView::Needs(q@),
            Run::Paused => RunView::Paused,
        }
    }
}

/// The message of an operation that failed.
pub open spec fn failure(pc: usize, op: OperationView) -> Seq<char> {
    "operation failed at pc="@ + decimal(pc as nat) + ": "@ + explained(op)
}

/// The machine at the next operation, where the one at `pc` has not jumped.
pub open spec fn stepped(m: VMInstance, pc: usize) -> VMInstance {
    if m.pc == pc {
        VMInstance { pc: (pc + 1) as usize, ..m }
    } else {
        m
    }
}

/// What running a program for at most `fuel` operations does.
pub open spec fn ran(
    ops: Seq<OperationView>,
    a: VMInstance,
    b: VMInstance,
    reals: RealAnswers,
    fuel: nat,
    end: RunView,
) -> bool
    decreases fuel,
{
    if a.flag_halt || a.pc >= ops.len() {
        end == RunView::Finished && b == a
    } else if fuel == 0 {
        end == RunView::Paused && b == a
    } else {
        exists|m: VMInstance, s: StepView| #[trigger]
            executed(ops[a.pc as int], a, m, reals, s) && match s {
                StepView::Done => ran(ops, stepped(m, a.pc), b, reals, (fuel - 1) as nat, end),
                StepView::Failed => b == m && end == RunView::Failed(
                    failure(a.pc, ops[a.pc as int]),
                ),
                StepView::Needs(q) => b == m && end == RunView::Needs(q),
            }
    }
}

impl VMInstance {
    /// A machine for a database.
    pub fn new(btree: BTree) -> (r: Self)
        ensures
            r.btree == btree,
            r.cursors@.len() == 0,
            r.regs() == Seq::<DataView>::empty(),
            r.pc == 0,
            !r.flag_halt,
            !r.flag_cursor_end,
            r.rows() == Seq::<Seq<DataView>>::empty(),
    {
        let r = VMInstance {
            btree,
            cursors: Vec::new(),
            registers: Vec::new(),
            pc: 0,
            flag_halt: false,
            flag_cursor_end: false,
            results: Vec::new(),
        };
        assert(r.regs() =~= Seq::<DataView>::empty());
        assert(r.rows() =~= Seq::<Seq<DataView>>::empty());
        r
    }

    /// Forgets everything but the database.
    pub fn reset(&mut self)
        ensures
            final(self).btree == old(self).btree,
            final(self).cursors@.len() == 0,
            final(self).regs() == Seq::<DataView>::empty(),
            final(self).pc == 0,
            !final(self).flag_halt,
            !final(self).flag_cursor_end,
            final(self).rows() == Seq::<Seq<DataView>>::empty(),
    {
        self.cursors.clear();
        self.registers.clear();
        self.pc = 0;
        self.flag_halt = false;
        self.flag_cursor_end = false;
        self.results.clear();
        assert(self.regs() =~= Seq::<DataView>::empty());
        assert(self.rows() =~= Seq::<Seq<DataView>>::empty());
    }

    /// Goes on with a program for at most `fuel` operations.
    pub fn resume(&mut self, ops: &Vec<Operation>, reals: &RealAnswers, fuel: u64) -> (r: Run)
        requires
            old(self).wf(),
        ensures
            final(self).wf(),
            ran(operation_views(ops@), *old(self), *final(self), *reals, fuel as nat, r@),
    {
        let ghost start = *self;
        let ghost views = operation_views(ops@);
        let mut left: u64 = fuel;
        loop
            invariant
                self.wf(),
                start == *old(self),
                views == operation_views(ops@),
                left <= fuel,
                forall|b: VMInstance, end: RunView| #[trigger]
                    ran(views, *self, b, *reals, left as nat, end) ==> ran(
                        views,
                        start,
                        b,
                        *reals,
                        fuel as nat,
                        end,
                    ),
            decreases left,
        {
            if self.flag_halt || self.pc >= ops.len() {
                assert(ran(views, *self, *self, *reals, left as nat, RunView::Finished));
                return Run::Finished;
            }
            if left == 0 {
                assert(ran(views, *self, *self, *reals, left as nat, RunView::Paused));
                return Run::Paused;
            }
            let pc: usize = self.pc;
            let ghost a = *self;
            let op = &ops[pc];
            let step = self.execute(op, reals);
            let ghost m = *self;
            assert(views[pc as int] == op@);
            assert(executed(views[a.pc as int], a, m, *reals, step@));
            match step {
                Step::Done => {
                    if self.pc == pc {
                        self.pc = pc + 1;
                    }
                    proof {
                        assert(*self == stepped(m, pc));
                        assert(executed(views[a.pc as int], a, m, *reals, StepView::Done));
                        let n = (left - 1) as nat;
                        assert forall|b: VMInstance, end: RunView| #[trigger]
                            ran(views, *self, b, *reals, n, end) implies ran(
                            views,
                            start,
                            b,
                            *reals,
                            fuel as nat,
                            end,
                        ) by {
                            assert(ran(views, a, b, *reals, left as nat, end));
                        }
                    }
                    left = left - 1;
                },
                Step::Failed => {
                    let mut message = String::from_str("operation failed at pc=");
                    push_decimal(&mut message, pc as u64);
                    message.append(": ");
                    let words = op.explain();
                    message.append(words.as_str());
                    proof {
                        assert(message@ =~= failure(pc, op@));
                        assert(ran(
                            views,
                            a,
                            m,
                            *reals,
                            left as nat,
                            RunView::Failed(failure(pc, op@)),
                        ));
                    }
                    return Run::Failed(VMError { message });
                },
                Step::Needs(q) => {
                    assert(ran(views, a, m, *reals, left as nat, RunView::Needs(q@)));
                    return Run::Needs(q);
                },
            }
        }
    }

    /// Runs a program from its start, for at most `fuel` operations.
    pub fn run(&mut self, ops: &Vec<Operation>, reals: &RealAnswers, fuel: u64) -> (r: Run)
        requires
            old(self).wf(),
        ensures
            final(self).wf(),
            ran(
                operation_views(ops@),
                (VMInstance { pc: 0, flag_halt: false, ..*old(self) }),
                *final(self),
                *reals,
                fuel as nat,
                r@,
            ),
    {
        self.pc = 0;
        self.flag_halt = false;
        self.resume(ops, reals, fuel)
    }
}

} // verus!
