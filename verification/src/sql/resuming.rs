//! A program that is run in pieces does what it does in one.
use vstd::prelude::*;

use crate::engine::value::DataView;
use crate::sql::operations::OperationView;
use crate::sql::reals::{RealAnswers, RealQuestionView};
use crate::sql::running::goes;
use crate::sql::values::{computed, divided, numeric, tested, Arith, Test};
use crate::sql::vm::{
    asking_changes_nothing, computes, executed, failure, ran, stepped, RunView, StepView,
    VMInstance,
};

verus! {

/// Whether all answers in `r` are in `s` too.
pub open spec fn knows_more(r: RealAnswers, s: RealAnswers) -> bool {
    forall|q: RealQuestionView| (#[trigger] r.value(q)) is Some ==> s.value(q) == r.value(q)
}

proof fn comparison_stays(t: Test, a: DataView, b: DataView, r: RealAnswers, s: RealAnswers)
    requires
        knows_more(r, s),
        tested(t, a, b, r) is Got,
    ensures
        tested(t, a, b, s) == tested(t, a, b, r),
{
    match (a, b) {
        (DataView::Integer(x), DataView::Real(y)) => {
            assert(r.value(RealQuestionView::OfInteger(x)) is Some);
        },
        (DataView::Real(x), DataView::Integer(y)) => {
            assert(r.value(RealQuestionView::OfInteger(y)) is Some);
        },
        _ => {},
    }
}

proof fn number_stays(v: DataView, r: RealAnswers, s: RealAnswers)
    requires
        knows_more(r, s),
        numeric(v, r) is Got,
    ensures
        numeric(v, s) == numeric(v, r),
{
    if let DataView::Integer(n) = v {
        assert(r.value(RealQuestionView::OfInteger(n)) is Some);
    }
}

proof fn arithmetic_stays(o: Arith, a: DataView, b: DataView, r: RealAnswers, s: RealAnswers)
    requires
        knows_more(r, s),
        computed(o, a, b, r) is Got,
    ensures
        computed(o, a, b, s) == computed(o, a, b, r),
{
    number_stays(a, r, s);
    number_stays(b, r, s);
    let x = numeric(a, r)->Got_0;
    let y = numeric(b, r)->Got_0;
    let q = crate::sql::values::arith_question(o, x, y);
    assert(r.value(q) is Some);
    let z = r.asked(q)->Got_0;
    assert(r.value(RealQuestionView::Whole(z)) is Some);
}

proof fn quotient_stays(a: DataView, b: DataView, r: RealAnswers, s: RealAnswers)
    requires
        knows_more(r, s),
        divided(a, b, r) is Got,
    ensures
        divided(a, b, s) == divided(a, b, r),
{
    if !crate::sql::values::is_zero(b) {
        number_stays(a, r, s);
        number_stays(b, r, s);
        let x = numeric(a, r)->Got_0;
        let y = numeric(b, r)->Got_0;
        assert(r.value(RealQuestionView::Quotient(x, y)) is Some);
    }
}

/// What an operation computes does not change once it is known.
proof fn computation_stays(op: OperationView, a: VMInstance, r: RealAnswers, s: RealAnswers)
    requires
        knows_more(r, s),
        computes(op, a, r) matches Some(x) && x.1 is Got,
    ensures
        computes(op, a, s) == computes(op, a, r),
{
    match op {
        OperationView::Real(o) => {
            assert(r.value(RealQuestionView::OfText(o.value)) is Some);
        },
        OperationView::Eq(o) => {
            comparison_stays(Test::Equal, a.reg(o.lhs)->0, a.reg(o.rhs)->0, r, s);
        },
        OperationView::Ne(o) => {
            comparison_stays(Test::NotEqual, a.reg(o.lhs)->0, a.reg(o.rhs)->0, r, s);
        },
        OperationView::Lt(o) => {
            comparison_stays(Test::Less, a.reg(o.lhs)->0, a.reg(o.rhs)->0, r, s);
        },
        OperationView::Le(o) => {
            comparison_stays(Test::NotGreater, a.reg(o.lhs)->0, a.reg(o.rhs)->0, r, s);
        },
        OperationView::Gt(o) => {
            comparison_stays(Test::Greater, a.reg(o.lhs)->0, a.reg(o.rhs)->0, r, s);
        },
        OperationView::Ge(o) => {
            comparison_stays(Test::NotLess, a.reg(o.lhs)->0, a.reg(o.rhs)->0, r, s);
        },
        OperationView::Negate(o) => {
            number_stays(a.reg(o.src)->0, r, s);
        },
        OperationView::Add(o) => {
            number_stays(a.reg(o.lhs)->0, r, s);
            arithmetic_stays(Arith::Plus, a.reg(o.lhs)->0, a.reg(o.rhs)->0, r, s);
        },
        OperationView::Subtract(o) => {
            number_stays(a.reg(o.lhs)->0, r, s);
            arithmetic_stays(Arith::Minus, a.reg(o.lhs)->0, a.reg(o.rhs)->0, r, s);
        },
        OperationView::Multiply(o) => {
            number_stays(a.reg(o.lhs)->0, r, s);
            arithmetic_stays(Arith::Times, a.reg(o.lhs)->0, a.reg(o.rhs)->0, r, s);
        },
        OperationView::Divide(o) => {
            if !crate::sql::values::is_zero(a.reg(o.rhs)->0) {
                quotient_stays(a.reg(o.lhs)->0, a.reg(o.rhs)->0, r, s);
            }
        },
        _ => {},
    }
}

/// An operation that is done would have done the same with more answers.
pub proof fn operation_done_anyway(
    op: OperationView,
    a: VMInstance,
    m: VMInstance,
    r: RealAnswers,
    s: RealAnswers,
)
    requires
        knows_more(r, s),
        executed(op, a, m, r, StepView::Done),
    ensures
        executed(op, a, m, s, StepView::Done),
{
    if computes(op, a, r) is Some {
        computation_stays(op, a, r, s);
    }
}

/// A program that runs through also does so where more operations are allowed.
proof fn runs_longer(
    ops: Seq<OperationView>,
    a: VMInstance,
    fin: VMInstance,
    r: RealAnswers,
    n: nat,
    k: nat,
)
    requires
        goes(ops, a, fin, r, n),
    ensures
        goes(ops, a, fin, r, n + k),
    decreases n,
{
    if !(a.flag_halt || a.pc >= ops.len()) {
        let m = crate::sql::running::next_step(ops, a, fin, r, n);
        runs_longer(ops, stepped(m, a.pc), fin, r, (n - 1) as nat, k);
        assert(executed(ops[a.pc as int], a, m, r, StepView::Done));
        assert((n - 1) as nat + k == (n + k - 1) as nat);
    }
}

/// A program that pauses, or asks a question, and then runs through once more is
/// known has done what it would have done in one run with all answers.
pub proof fn pieces_join(
    ops: Seq<OperationView>,
    a: VMInstance,
    b: VMInstance,
    fin: VMInstance,
    r: RealAnswers,
    s: RealAnswers,
    n: nat,
    k: nat,
    end: RunView,
)
    requires
        knows_more(r, s),
        ran(ops, a, b, r, n, end),
        end is Paused || end is Needs,
        goes(ops, b, fin, s, k),
    ensures
        goes(ops, a, fin, s, n + k),
    decreases n,
{
    if n == 0 {
        assert(b == a);
    } else {
        let op = ops[a.pc as int];
        let (m, t) = choose|m: VMInstance, t: StepView| #[trigger]
            executed(op, a, m, r, t) && match t {
                StepView::Done => ran(ops, stepped(m, a.pc), b, r, (n - 1) as nat, end),
                StepView::Failed => b == m && end == RunView::Failed(failure(a.pc, op)),
                StepView::Needs(q) => b == m && end == RunView::Needs(q),
            };
        match t {
            StepView::Done => {
                pieces_join(
                    ops,
                    stepped(m, a.pc),
                    b,
                    fin,
                    r,
                    s,
                    (n - 1) as nat,
                    k,
                    end,
                );
                operation_done_anyway(op, a, m, r, s);
                assert((n - 1) as nat + k == (n + k - 1) as nat);
                assert(executed(ops[a.pc as int], a, m, s, StepView::Done));
            },
            StepView::Failed => {},
            StepView::Needs(q) => {
                asking_changes_nothing(op, a, m, r, q);
                runs_longer(ops, b, fin, s, k, n);
            },
        }
    }
}

} // verus!
