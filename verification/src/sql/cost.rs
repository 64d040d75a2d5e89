//! Costs of plans: reals, given by their bits.
use vstd::prelude::*;

use crate::engine::order::{rank_reals, real_rank, Rank};
use crate::sql::ast::{BinaryOp, Expr, ExprView, JoinConstraint, JoinConstraintView, JoinType};
use crate::sql::reals::{Answers, Asked, RealAnswers, RealQuestion, RealQuestionView};

verus! {

/// The bits of 0.
pub const ZERO: u64 = 0;

/// The bits of 1.
pub const ONE: u64 = 0x3ff0000000000000;

/// The bits of one tenth: what finding a single row costs.
pub const ONE_ROW_COST: u64 = 0x3fb999999999999a;

/// The bits of three tenths: the share of rows that a condition holds of.
pub const SELECTIVITY: u64 = 0x3fd3333333333333;

/// The bits of 0.0005: what giving out a row of a limited result costs.
pub const LIMIT_COST: u64 = 0x3f40624dd2f1a9fc;

/// What things are thought to cost.
#[derive(Clone, Copy, Debug, PartialEq, Eq, Structural)]
pub struct OptimizerConfig {
    pub default_table_rows: u64,
    pub seq_scan_startup_cost: u64,
    pub row_read_cost: u64,
    pub predicate_cost: u64,
    pub projection_cost: u64,
    pub nested_loop_tuple_cost: u64,
    pub hash_join_tuple_cost: u64,
    pub sort_cost_factor: u64,
    pub limit_selectivity: u64,
    pub initial_upper_bound: u64,
}

/// What things are thought to cost: tables have 1000 rows, a scan costs 1 and
/// 0.01 for each row, a condition 0.002 and a projection 0.001 for each row, a
/// nested loop 0.00005 for each pair of rows, a hash join 0.02 for each row,
/// sorting 0.004 for each step; a limit lets a tenth of the rows through; and no
/// plan costs too much.
pub open spec fn usual_config() -> OptimizerConfig {
    OptimizerConfig {
        default_table_rows: 0x408f400000000000,
        seq_scan_startup_cost: ONE,
        row_read_cost: 0x3f847ae147ae147b,
        predicate_cost: 0x3f60624dd2f1a9fc,
        projection_cost: 0x3f50624dd2f1a9fc,
        nested_loop_tuple_cost: 0x3f0a36e2eb1c432d,
        hash_join_tuple_cost: 0x3f947ae147ae147b,
        sort_cost_factor: 0x3f70624dd2f1a9fc,
        limit_selectivity: 0x3fb999999999999a,
        initial_upper_bound: 0x7ff0000000000000,
    }
}

impl Default for OptimizerConfig {
    fn default() -> (r: Self)
        ensures
            r == usual_config(),
    {
        OptimizerConfig {
            default_table_rows: 0x408f400000000000,
            seq_scan_startup_cost: ONE,
            row_read_cost: 0x3f847ae147ae147b,
            predicate_cost: 0x3f60624dd2f1a9fc,
            projection_cost: 0x3f50624dd2f1a9fc,
            nested_loop_tuple_cost: 0x3f0a36e2eb1c432d,
            hash_join_tuple_cost: 0x3f947ae147ae147b,
            sort_cost_factor: 0x3f70624dd2f1a9fc,
            limit_selectivity: 0x3fb999999999999a,
            initial_upper_bound: 0x7ff0000000000000,
        }
    }
}

// -- Arithmetic ------------------------------------------------

/// The number that answers a question, or the question where it has no answer; 0
/// where there is no such number.
pub open spec fn number(r: Answers, q: RealQuestionView) -> Asked<u64> {
    match r(q) {
        Some(Some(b)) => Ok(b),
        Some(None) => Ok(ZERO),
        None => Err(q),
    }
}

/// A sum.
pub open spec fn plus(r: Answers, a: u64, b: u64) -> Asked<u64> {
    number(r, RealQuestionView::Sum(a, b))
}

/// A product.
pub open spec fn times(r: Answers, a: u64, b: u64) -> Asked<u64> {
    number(r, RealQuestionView::Product(a, b))
}

/// Whether something that may take answers comes to what it should.
pub open spec fn is_known<T>(x: Result<T, RealQuestion>, v: Asked<T>) -> bool {
    match x {
        Ok(y) => v == Ok::<T, RealQuestionView>(y),
        Err(q) => v == Err::<T, RealQuestionView>(q@),
    }
}

/// The number that answers a question, or the question.
pub fn find_number(reals: &RealAnswers, q: RealQuestion) -> (x: Result<u64, RealQuestion>)
    ensures
        is_known(x, number(reals.answers(), q@)),
{
    match reals.look_up(&q) {
        Some(Some(b)) => Ok(b),
        Some(None) => Ok(ZERO),
        None => Err(q),
    }
}

/// A sum.
pub fn sum(reals: &RealAnswers, a: u64, b: u64) -> (x: Result<u64, RealQuestion>)
    ensures
        is_known(x, plus(reals.answers(), a, b)),
{
    find_number(reals, RealQuestion::Sum(a, b))
}

/// A product.
pub fn product(reals: &RealAnswers, a: u64, b: u64) -> (x: Result<u64, RealQuestion>)
    ensures
        is_known(x, times(reals.answers(), a, b)),
{
    find_number(reals, RealQuestion::Product(a, b))
}

/// A number, and a number of things at a price each.
pub open spec fn priced(r: Answers, a: u64, n: u64, price: u64) -> Asked<u64> {
    match times(r, n, price) {
        Ok(p) => plus(r, a, p),
        Err(q) => Err(q),
    }
}

/// A number, and a number of things at a price each.
pub fn price(reals: &RealAnswers, a: u64, n: u64, each: u64) -> (x: Result<u64, RealQuestion>)
    ensures
        is_known(x, priced(reals.answers(), a, n, each)),
{
    match product(reals, n, each) {
        Ok(p) => sum(reals, a, p),
        Err(q) => Err(q),
    }
}

/// Whether a real is less than another.
pub open spec fn real_lt(a: u64, b: u64) -> bool {
    real_rank(a, b) == Some(Rank::Less)
}

/// Whether a real is at most another.
pub open spec fn real_le(a: u64, b: u64) -> bool {
    real_rank(a, b) == Some(Rank::Less) || real_rank(a, b) == Some(Rank::Equal)
}

/// Whether a real is less than another.
pub fn is_less(a: u64, b: u64) -> (r: bool)
    ensures
        r == real_lt(a, b),
{
    match rank_reals(a, b) {
        Some(Rank::Less) => true,
        _ => false,
    }
}

/// Whether a real is at most another.
pub fn is_at_most(a: u64, b: u64) -> (r: bool)
    ensures
        r == real_le(a, b),
{
    match rank_reals(a, b) {
        Some(Rank::Less) => true,
        Some(Rank::Equal) => true,
        _ => false,
    }
}

/// Reals are in order.
pub proof fn real_order(a: u64, b: u64, c: u64)
    ensures
        real_lt(a, b) && real_le(b, c) ==> real_lt(a, c),
        real_le(a, b) && real_le(b, c) ==> real_le(a, c),
        real_lt(a, b) ==> real_le(a, b),
        real_le(b, a) <==> real_rank(a, b) == Some(Rank::Greater) || real_rank(a, b) == Some(
            Rank::Equal,
        ),
{
}

/// The larger of two reals; the other where one is no number.
pub open spec fn larger(a: u64, b: u64) -> u64 {
    if !real_le(a, a) || real_lt(a, b) {
        b
    } else {
        a
    }
}

/// The larger of two reals.
pub fn larger_of(a: u64, b: u64) -> (r: u64)
    ensures
        r == larger(a, b),
{
    if !is_at_most(a, a) || is_less(a, b) {
        b
    } else {
        a
    }
}

/// The smaller of two reals; the other where one is no number.
pub open spec fn smaller(a: u64, b: u64) -> u64 {
    if !real_le(a, a) || real_lt(b, a) {
        b
    } else {
        a
    }
}

/// The smaller of two reals.
pub fn smaller_of(a: u64, b: u64) -> (r: u64)
    ensures
        r == smaller(a, b),
{
    if !is_at_most(a, a) || is_less(b, a) {
        b
    } else {
        a
    }
}

// -- Estimates -------------------------------------------------

/// Whether a join is by columns that are equal.
pub open spec fn equality(c: JoinConstraintView) -> bool {
    match c {
        JoinConstraintView::Using(columns) => columns.len() > 0,
        JoinConstraintView::On(ExprView::Binary { left, op, right }) => op == BinaryOp::Eq,
        _ => false,
    }
}

/// Whether a join is by columns that are equal.
pub fn is_equality_constraint(c: &JoinConstraint) -> (r: bool)
    ensures
        r == equality(c@),
{
    match c {
        JoinConstraint::Using(columns) => columns.len() > 0,
        JoinConstraint::On(e) => match e {
            Expr::Binary { left, op, right } => match op {
                BinaryOp::Eq => true,
                _ => false,
            },
            _ => false,
        },
        JoinConstraint::Unconstrained => false,
    }
}

/// How many rows a join is thought to have.
pub open spec fn join_rows(
    r: Answers,
    left: u64,
    right: u64,
    join_type: JoinType,
    constraint: JoinConstraintView,
) -> Asked<u64> {
    match join_type {
        JoinType::Cross => times(r, left, right),
        JoinType::Inner => if equality(constraint) {
            Ok(larger(left, right))
        } else {
            match times(r, left, right) {
                Err(q) => Err(q),
                Ok(pairs) => match times(r, pairs, SELECTIVITY) {
                    Err(q) => Err(q),
                    Ok(n) => Ok(larger(n, ONE)),
                },
            }
        },
        JoinType::Left => Ok(larger(left, right)),
        JoinType::Right => Ok(larger(left, right)),
        JoinType::Full => plus(r, left, right),
    }
}

/// How many rows a join is thought to have.
pub fn estimate_join_rows(
    reals: &RealAnswers,
    left: u64,
    right: u64,
    join_type: JoinType,
    constraint: &JoinConstraint,
) -> (x: Result<u64, RealQuestion>)
    ensures
        is_known(x, join_rows(reals.answers(), left, right, join_type, constraint@)),
{
    match join_type {
        JoinType::Cross => product(reals, left, right),
        JoinType::Inner => {
            if is_equality_constraint(constraint) {
                return Ok(larger_of(left, right));
            }
            let pairs: u64 = match product(reals, left, right) {
                Ok(n) => n,
                Err(q) => return Err(q),
            };
            match product(reals, pairs, SELECTIVITY) {
                Ok(n) => Ok(larger_of(n, ONE)),
                Err(q) => Err(q),
            }
        },
        JoinType::Left => Ok(larger_of(left, right)),
        JoinType::Right => Ok(larger_of(left, right)),
        JoinType::Full => sum(reals, left, right),
    }
}

/// What sorting rows is thought to cost.
pub open spec fn sort_cost(r: Answers, rows: u64, factor: u64) -> Asked<u64> {
    if real_le(rows, ONE) {
        Ok(ZERO)
    } else {
        match number(r, RealQuestionView::Log2(rows)) {
            Err(q) => Err(q),
            Ok(log) => match times(r, rows, log) {
                Err(q) => Err(q),
                Ok(steps) => times(r, steps, factor),
            },
        }
    }
}

/// What sorting rows is thought to cost.
pub fn estimate_sort_cost(reals: &RealAnswers, rows: u64, factor: u64) -> (x: Result<
    u64,
    RealQuestion,
>)
    ensures
        is_known(x, sort_cost(reals.answers(), rows, factor)),
{
    if is_at_most(rows, ONE) {
        return Ok(ZERO);
    }
    let log: u64 = match find_number(reals, RealQuestion::Log2(rows)) {
        Ok(n) => n,
        Err(q) => return Err(q),
    };
    let steps: u64 = match product(reals, rows, log) {
        Ok(n) => n,
        Err(q) => return Err(q),
    };
    product(reals, steps, factor)
}

} // verus!
