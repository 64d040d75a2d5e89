//! The operations for an expression compute its value.
use vstd::prelude::*;
use vstd::utf8::encode_utf8;

use crate::engine::btree::BTree;
use crate::engine::node::CellView;
use crate::engine::value::{text_of, DataView};
use crate::sql::ast::{BinaryOp, ColumnRefView, ExprView, LiteralView, UnaryOp};
use crate::sql::operations::{Column, Negate, Not, OperationView};
use crate::sql::program::{
    binary_operation, expr_code, literal_operation, scope_column, CodeView, ScopeView,
};
use crate::sql::reals::{OutcomeView, RealAnswers, RealQuestionView};
use crate::sql::values::{computed, divided, negated, tested, truth, truthy, Arith, Test};
use crate::sql::vm::{computes, executed, stepped, written, StepView, VMInstance};

verus! {

/// The value of a constant.
pub open spec fn literal_value(l: LiteralView, r: RealAnswers) -> OutcomeView<DataView> {
    match l {
        LiteralView::Null => OutcomeView::Got(DataView::Null),
        LiteralView::Integer(n) => if n >= 0 {
            OutcomeView::Got(DataView::Integer(n as u64))
        } else {
            OutcomeView::Failed
        },
        LiteralView::Real(s) => match r.asked(RealQuestionView::OfText(s)) {
            OutcomeView::Got(b) => OutcomeView::Got(DataView::Real(b)),
            OutcomeView::Failed => OutcomeView::Failed,
            OutcomeView::Needs(q) => OutcomeView::Needs(q),
        },
        LiteralView::Text(s) => OutcomeView::Got(DataView::Text(text_of(encode_utf8(s)))),
        LiteralView::Blob(b) => OutcomeView::Got(DataView::Text(text_of(b))),
    }
}

/// What an operator makes of two values.
pub open spec fn operator_value(op: BinaryOp, v: DataView, w: DataView, r: RealAnswers) -> OutcomeView<
    DataView,
> {
    match op {
        BinaryOp::Eq => tested(Test::Equal, v, w, r),
        BinaryOp::Ne => tested(Test::NotEqual, v, w, r),
        BinaryOp::Lt => tested(Test::Less, v, w, r),
        BinaryOp::Le => tested(Test::NotGreater, v, w, r),
        BinaryOp::Gt => tested(Test::Greater, v, w, r),
        BinaryOp::Ge => tested(Test::NotLess, v, w, r),
        BinaryOp::And => OutcomeView::Got(truth(truthy(v) && truthy(w))),
        BinaryOp::Or => OutcomeView::Got(truth(truthy(v) || truthy(w))),
        BinaryOp::Add => computed(Arith::Plus, v, w, r),
        BinaryOp::Subtract => computed(Arith::Minus, v, w, r),
        BinaryOp::Multiply => computed(Arith::Times, v, w, r),
        BinaryOp::Divide => divided(v, w, r),
    }
}

/// A field of an entry; one that is not there holds nothing.
pub open spec fn field(c: CellView, i: int) -> DataView {
    if i < c.1.len() {
        c.1[i]
    } else {
        DataView::Null
    }
}

/// The entries that the cursors of a machine are at.
pub open spec fn entries_of(a: VMInstance) -> spec_fn(usize) -> Option<CellView> {
    |id: usize| a.entry(id)
}

/// The value of an expression on the entries that cursors are at.
pub open spec fn evaluated(
    e: ExprView,
    sc: ScopeView,
    at: spec_fn(usize) -> Option<CellView>,
    r: RealAnswers,
) -> OutcomeView<DataView>
    decreases e,
{
    match e {
        ExprView::Literal(l) => literal_value(l, r),
        ExprView::Column(column) => match scope_column(sc, column) {
            Err(_) => OutcomeView::Failed,
            Ok(p) => match at(p.cursor_id) {
                None => OutcomeView::Failed,
                Some(c) => OutcomeView::Got(field(c, p.col_idx as int)),
            },
        },
        ExprView::Unary { op, expr } => match evaluated(*expr, sc, at, r) {
            OutcomeView::Got(v) => match op {
                UnaryOp::Positive => OutcomeView::Got(v),
                UnaryOp::Not => OutcomeView::Got(truth(!truthy(v))),
                UnaryOp::Negate => negated(v, r),
            },
            other => other,
        },
        ExprView::Binary { left, op, right } => match evaluated(*left, sc, at, r) {
            OutcomeView::Got(v) => match evaluated(*right, sc, at, r) {
                OutcomeView::Got(w) => operator_value(op, v, w, r),
                other => other,
            },
            other => other,
        },
        ExprView::FunctionCall { name, args } => OutcomeView::Failed,
    }
}

/// Whether the operations from `i` up to `j`, one after the other, are all done and
/// make machine `b` of machine `a`.
pub open spec fn runs_through(
    ops: Seq<OperationView>,
    i: int,
    j: int,
    a: VMInstance,
    b: VMInstance,
    r: RealAnswers,
) -> bool
    decreases j - i,
{
    if i >= j {
        b == a
    } else {
        exists|m: VMInstance| #[trigger]
            executed(ops[i], a, m, r, StepView::Done) && runs_through(
                ops,
                i + 1,
                j,
                stepped(m, a.pc),
                b,
                r,
            )
    }
}

/// Whether two databases hold the same trees.
pub open spec fn still(a: BTree, b: BTree) -> bool {
    &&& b.store() == a.store()
    &&& b.m == a.m
    &&& a.free_ok() ==> b.free_ok() && b.free() == a.free()
}

/// Whether `b` is `a` but for registers from `n` on, the place in the program, and
/// reading.
pub open spec fn only_registers(a: VMInstance, b: VMInstance, n: int) -> bool {
    &&& b == (VMInstance { btree: b.btree, registers: b.registers, pc: b.pc, ..a })
    &&& still(a.btree, b.btree)
    &&& b.regs().len() >= a.regs().len()
    &&& forall|k: int| 0 <= k < n && k < a.regs().len() ==> #[trigger] b.regs()[k] == a.regs()[k]
}

pub proof fn runs_split(
    ops: Seq<OperationView>,
    i: int,
    j: int,
    k: int,
    a: VMInstance,
    b: VMInstance,
    r: RealAnswers,
) -> (m: VMInstance)
    requires
        i <= j <= k,
        runs_through(ops, i, k, a, b, r),
    ensures
        runs_through(ops, i, j, a, m, r),
        runs_through(ops, j, k, m, b, r),
    decreases j - i,
{
    if i == j {
        a
    } else {
        let n = choose|n: VMInstance| #[trigger]
            executed(ops[i], a, n, r, StepView::Done) && runs_through(
                ops,
                i + 1,
                k,
                stepped(n, a.pc),
                b,
                r,
            );
        let m = runs_split(ops, i + 1, j, k, stepped(n, a.pc), b, r);
        assert(executed(ops[i], a, n, r, StepView::Done));
        m
    }
}

pub proof fn runs_one(
    ops: Seq<OperationView>,
    i: int,
    a: VMInstance,
    b: VMInstance,
    r: RealAnswers,
) -> (m: VMInstance)
    requires
        runs_through(ops, i, i + 1, a, b, r),
    ensures
        executed(ops[i], a, m, r, StepView::Done),
        b == stepped(m, a.pc),
{
    reveal_with_fuel(runs_through, 2);
    choose|n: VMInstance| #[trigger]
        executed(ops[i], a, n, r, StepView::Done) && runs_through(
            ops,
            i + 1,
            i + 1,
            stepped(n, a.pc),
            b,
            r,
        )
}

/// The operations for an expression use registers and cursors as they should.
pub proof fn expr_code_grows(e: ExprView, sc: ScopeView, c: CodeView)
    requires
        c.registers <= c.ops.len(),
        expr_code(e, sc, c) matches Ok(x) && x.0.ops.len() <= usize::MAX,
    ensures
        expr_code(e, sc, c) matches Ok(x) && {
            &&& c.ops.len() <= x.0.ops.len()
            &&& c.registers <= x.0.registers <= x.0.ops.len()
            &&& x.1 < x.0.registers
            &&& forall|i: int| 0 <= i < c.ops.len() ==> #[trigger] x.0.ops[i] == c.ops[i]
        },
    decreases e,
{
    match e {
        ExprView::Unary { op, expr } => {
            code_longer(*expr, sc, c);
            expr_code_grows(*expr, sc, c);
        },
        ExprView::Binary { left, op, right } => {
            code_longer(*left, sc, c);
            let d = expr_code(*left, sc, c)->Ok_0.0;
            code_longer(*right, sc, d);
            expr_code_grows(*left, sc, c);
            expr_code_grows(*right, sc, d);
        },
        _ => {},
    }
}

pub proof fn code_longer(e: ExprView, sc: ScopeView, c: CodeView)
    ensures
        expr_code(e, sc, c) matches Ok(x) ==> c.ops.len() <= x.0.ops.len(),
    decreases e,
{
    match e {
        ExprView::Unary { op, expr } => {
            code_longer(*expr, sc, c);
        },
        ExprView::Binary { left, op, right } => {
            code_longer(*left, sc, c);
            if expr_code(*left, sc, c) is Ok {
                code_longer(*right, sc, expr_code(*left, sc, c)->Ok_0.0);
            }
        },
        _ => {},
    }
}

/// One operation that computes a value leaves it in its register.
pub proof fn one_value(
    op: OperationView,
    a: VMInstance,
    m: VMInstance,
    r: RealAnswers,
    dest: usize,
    n: int,
)
    requires
        executed(op, a, m, r, StepView::Done),
        computes(op, a, r) matches Some(x) && x.0 == dest,
        n <= dest,
    ensures
        (computes(op, a, r)->0).1 == OutcomeView::Got(stepped(m, a.pc).reg(dest)->0),
        stepped(m, a.pc).reg(dest) is Some,
        only_registers(a, stepped(m, a.pc), n),
{
    let x = computes(op, a, r)->0;
    let s = stepped(m, a.pc);
    match x.1 {
        OutcomeView::Got(v) => {
            let w = written(a.regs(), dest, v);
            assert(m.regs() == w);
            assert(w[dest as int] == v);
            assert(s.registers == m.registers);
            assert(s.registers@.len() == w.len());
            assert(s.regs() == w);
            assert forall|k: int| 0 <= k < n && k < a.regs().len() implies #[trigger] s.regs()[k]
                == a.regs()[k] by {
                assert(w[k] == a.regs()[k]);
            }
        },
        _ => {},
    }
}

/// Where the operations for an expression run through, they leave the value of the
/// expression in its register, and change no register that was in use.
pub proof fn expression_computed(
    e: ExprView,
    sc: ScopeView,
    c: CodeView,
    ops: Seq<OperationView>,
    a: VMInstance,
    b: VMInstance,
    r: RealAnswers,
)
    requires
        c.registers <= c.ops.len(),
        expr_code(e, sc, c) matches Ok(x) && {
            &&& x.0.ops.len() <= usize::MAX
            &&& x.0.ops.len() <= ops.len()
            &&& forall|i: int|
                c.ops.len() <= i < x.0.ops.len() ==> #[trigger] ops[i] == x.0.ops[i]
            &&& runs_through(ops, c.ops.len() as int, x.0.ops.len() as int, a, b, r)
        },
    ensures
        b.reg(expr_code(e, sc, c)->Ok_0.1) is Some,
        evaluated(e, sc, entries_of(a), r) == OutcomeView::Got(
            b.reg(expr_code(e, sc, c)->Ok_0.1)->0,
        ),
        only_registers(a, b, c.registers as int),
    decreases e,
{
    let (d, reg) = expr_code(e, sc, c)->Ok_0;
    let i = c.ops.len() as int;
    match e {
        ExprView::Literal(l) => {
            let op = literal_operation(l, c.registers);
            assert(ops[i] == d.ops[i]);
            let m = runs_one(ops, i, a, b, r);
            one_value(op, a, m, r, c.registers, c.registers as int);
        },
        ExprView::Column(column) => {
            assert(ops[i] == d.ops[i]);
            let m = runs_one(ops, i, a, b, r);
            assert(b.regs() == m.regs());
        },
        ExprView::Unary { op, expr } => {
            let (f, src) = expr_code(*expr, sc, c)->Ok_0;
            let k = f.ops.len() as int;
            code_longer(*expr, sc, c);
            expr_code_grows(*expr, sc, c);
            expr_code_grows(e, sc, c);
            let m = runs_split(ops, i, k, d.ops.len() as int, a, b, r);
            assert forall|j: int| i <= j < k implies #[trigger] ops[j] == f.ops[j] by {
                assert(ops[j] == d.ops[j]);
            }
            expression_computed(*expr, sc, c, ops, a, m, r);
            if op != UnaryOp::Positive {
                assert(ops[k] == d.ops[k]);
                let n = runs_one(ops, k, m, b, r);
                one_value(ops[k], m, n, r, f.registers, c.registers as int);
            } else {
                assert(m == b);
            }
        },
        ExprView::Binary { left, op, right } => {
            let (f, lhs) = expr_code(*left, sc, c)->Ok_0;
            let (g, rhs) = expr_code(*right, sc, f)->Ok_0;
            let k = f.ops.len() as int;
            let l = g.ops.len() as int;
            code_longer(*left, sc, c);
            code_longer(*right, sc, f);
            expr_code_grows(*left, sc, c);
            expr_code_grows(*right, sc, f);
            let m = runs_split(ops, i, k, d.ops.len() as int, a, b, r);
            let n = runs_split(ops, k, l, d.ops.len() as int, m, b, r);
            assert forall|j: int| i <= j < k implies #[trigger] ops[j] == f.ops[j] by {
                assert(ops[j] == d.ops[j]);
                assert(g.ops[j] == f.ops[j]);
            }
            assert forall|j: int| k <= j < l implies #[trigger] ops[j] == g.ops[j] by {
                assert(ops[j] == d.ops[j]);
            }
            expression_computed(*left, sc, c, ops, a, m, r);
            expression_computed(*right, sc, f, ops, m, n, r);
            same_value(*right, sc, entries_of(a), entries_of(m), r);
            assert(ops[l] == d.ops[l]);
            let o = runs_one(ops, l, n, b, r);
            assert(n.reg(lhs) == m.reg(lhs));
            operator_computes(op, lhs, rhs, g.registers, n, r);
            one_value(ops[l], n, o, r, g.registers, c.registers as int);
        },
        ExprView::FunctionCall { name, args } => {},
    }
}

/// The value of an expression depends on the entries that cursors are at alone.
pub proof fn same_value(
    e: ExprView,
    sc: ScopeView,
    f: spec_fn(usize) -> Option<CellView>,
    g: spec_fn(usize) -> Option<CellView>,
    r: RealAnswers,
)
    requires
        forall|column: ColumnRefView|
            (#[trigger] scope_column(sc, column)) matches Ok(p) ==> f(p.cursor_id) == g(
                p.cursor_id,
            ),
    ensures
        evaluated(e, sc, f, r) == evaluated(e, sc, g, r),
    decreases e,
{
    match e {
        ExprView::Unary { op, expr } => {
            same_value(*expr, sc, f, g, r);
        },
        ExprView::Binary { left, op, right } => {
            same_value(*left, sc, f, g, r);
            same_value(*right, sc, f, g, r);
        },
        ExprView::Column(column) => {
            assert(scope_column(sc, column) is Ok || scope_column(sc, column) is Err);
        },
        _ => {},
    }
}

proof fn operator_computes(
    op: BinaryOp,
    lhs: usize,
    rhs: usize,
    dest: usize,
    a: VMInstance,
    r: RealAnswers,
)
    requires
        a.reg(lhs) is Some,
        a.reg(rhs) is Some,
    ensures
        computes(binary_operation(op, lhs, rhs, dest), a, r) == Some(
            (dest, operator_value(op, a.reg(lhs)->0, a.reg(rhs)->0, r)),
        ),
{
    match op {
        BinaryOp::Add => {},
        _ => {},
    }
}

} // verus!
