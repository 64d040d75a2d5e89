//! What operators make of values.
use vstd::prelude::*;
use vstd::string::StrSliceExecFns;

use crate::engine::order::{
    magnitude, magnitude_of, rank_reals, real_rank, type_index, Rank, SIGN_BIT,
};
use crate::engine::value::{data_rank, rank_data, BTreeDataType, DataView};
use crate::sql::reals::{Outcome, OutcomeView, RealAnswers, RealQuestion, RealQuestionView};

verus! {

/// Whether a value counts as true.
pub open spec fn truthy(v: DataView) -> bool {
    match v {
        DataView::Null => false,
        DataView::Integer(n) => n != 0,
        DataView::Real(b) => magnitude(b) != 0,
        DataView::Text(s) => s.len() > 0,
        DataView::Blob(b) => b.len() > 0,
    }
}

/// A truth value.
pub open spec fn truth(b: bool) -> DataView {
    DataView::Integer(
        if b {
            1
        } else {
            0
        },
    )
}

/// A truth value.
pub fn bool_value(b: bool) -> (r: BTreeDataType)
    ensures
        r@ == truth(b),
{
    BTreeDataType::Integer(
        if b {
            1
        } else {
            0
        },
    )
}

/// Whether a value counts as true.
pub fn is_truthy(v: &BTreeDataType) -> (r: bool)
    ensures
        r == truthy(v@),
{
    match v {
        BTreeDataType::Null => false,
        BTreeDataType::Integer(n) => *n != 0,
        BTreeDataType::Real(b) => magnitude_of(*b) != 0,
        BTreeDataType::Text(s) => s.as_str().unicode_len() > 0,
        BTreeDataType::Blob(b) => b.len() > 0,
    }
}

// -- Comparison ------------------------------------------------

/// Where the values of a type stand among those of others: nothing, numbers,
/// texts and blobs.
pub open spec fn family(v: DataView) -> int {
    match v {
        DataView::Null => 0,
        DataView::Integer(_) => 1,
        DataView::Real(_) => 1,
        DataView::Text(_) => 2,
        DataView::Blob(_) => 3,
    }
}

/// How two values compare. An integer is compared with a real as the real nearest
/// to it.
pub open spec fn compared(a: DataView, b: DataView, r: RealAnswers) -> OutcomeView<Option<Rank>> {
    match (a, b) {
        (DataView::Integer(x), DataView::Real(y)) => match r.asked(RealQuestionView::OfInteger(x)) {
            OutcomeView::Got(z) => OutcomeView::Got(real_rank(z, y)),
            OutcomeView::Failed => OutcomeView::Failed,
            OutcomeView::Needs(q) => OutcomeView::Needs(q),
        },
        (DataView::Real(x), DataView::Integer(y)) => match r.asked(RealQuestionView::OfInteger(y)) {
            OutcomeView::Got(z) => OutcomeView::Got(real_rank(x, z)),
            OutcomeView::Failed => OutcomeView::Failed,
            OutcomeView::Needs(q) => OutcomeView::Needs(q),
        },
        _ => if type_index(a) == type_index(b) {
            OutcomeView::Got(data_rank(a, b))
        } else if family(a) < family(b) {
            OutcomeView::Got(Some(Rank::Less))
        } else {
            OutcomeView::Got(Some(Rank::Greater))
        },
    }
}

fn family_of(v: &BTreeDataType) -> (r: u8)
    ensures
        r == family(v@),
{
    match v {
        BTreeDataType::Null => 0,
        BTreeDataType::Integer(_) => 1,
        BTreeDataType::Real(_) => 1,
        BTreeDataType::Text(_) => 2,
        BTreeDataType::Blob(_) => 3,
    }
}

/// Whether an outcome is what it should be.
pub open spec fn is_outcome<T>(r: Outcome<T>, v: OutcomeView<T>) -> bool {
    match r {
        Outcome::Got(x) => v == OutcomeView::Got(x),
        Outcome::Failed => v == OutcomeView::<T>::Failed,
        Outcome::Needs(q) => v == OutcomeView::<T>::Needs(q@),
    }
}

/// Whether an outcome is the value that it should be.
pub open spec fn is_value(r: Outcome<BTreeDataType>, v: OutcomeView<DataView>) -> bool {
    match r {
        Outcome::Got(x) => v == OutcomeView::Got(x@),
        Outcome::Failed => v == OutcomeView::<DataView>::Failed,
        Outcome::Needs(q) => v == OutcomeView::<DataView>::Needs(q@),
    }
}

/// Compares two values.
pub fn compare_values(a: &BTreeDataType, b: &BTreeDataType, reals: &RealAnswers) -> (r: Outcome<
    Option<Rank>,
>)
    ensures
        is_outcome(r, compared(a@, b@, *reals)),
{
    match (a, b) {
        (BTreeDataType::Integer(x), BTreeDataType::Real(y)) => {
            match reals.ask(RealQuestion::OfInteger(*x)) {
                Outcome::Got(z) => Outcome::Got(rank_reals(z, *y)),
                Outcome::Failed => Outcome::Failed,
                Outcome::Needs(q) => Outcome::Needs(q),
            }
        },
        (BTreeDataType::Real(x), BTreeDataType::Integer(y)) => {
            match reals.ask(RealQuestion::OfInteger(*y)) {
                Outcome::Got(z) => Outcome::Got(rank_reals(*x, z)),
                Outcome::Failed => Outcome::Failed,
                Outcome::Needs(q) => Outcome::Needs(q),
            }
        },
        _ => {
            let x: u8 = family_of(a);
            let y: u8 = family_of(b);
            if x == y {
                Outcome::Got(rank_data(a, b))
            } else if x < y {
                Outcome::Got(Some(Rank::Less))
            } else {
                Outcome::Got(Some(Rank::Greater))
            }
        },
    }
}

/// A comparison.
#[derive(Clone, Copy, Debug, PartialEq, Eq, Structural)]
pub enum Test {
    Equal,
    NotEqual,
    Less,
    NotGreater,
    Greater,
    NotLess,
}

/// Whether a comparison holds; it does not where the values do not compare.
pub open spec fn holds(t: Test, r: Option<Rank>) -> bool {
    match r {
        None => false,
        Some(x) => match t {
            Test::Equal => x == Rank::Equal,
            Test::NotEqual => x != Rank::Equal,
            Test::Less => x == Rank::Less,
            Test::NotGreater => x != Rank::Greater,
            Test::Greater => x == Rank::Greater,
            Test::NotLess => x != Rank::Less,
        },
    }
}

/// Whether a comparison holds, as a value.
pub open spec fn tested(t: Test, a: DataView, b: DataView, r: RealAnswers) -> OutcomeView<DataView> {
    match compared(a, b, r) {
        OutcomeView::Got(x) => OutcomeView::Got(truth(holds(t, x))),
        OutcomeView::Failed => OutcomeView::Failed,
        OutcomeView::Needs(q) => OutcomeView::Needs(q),
    }
}

/// Whether a comparison holds, as a value.
pub fn test_values(
    t: Test,
    a: &BTreeDataType,
    b: &BTreeDataType,
    reals: &RealAnswers,
) -> (r: Outcome<BTreeDataType>)
    ensures
        is_value(r, tested(t, a@, b@, *reals)),
{
    match compare_values(a, b, reals) {
        Outcome::Got(x) => {
            let b = match x {
                None => false,
                Some(Rank::Less) => match t {
                    Test::NotEqual => true,
                    Test::Less => true,
                    Test::NotGreater => true,
                    _ => false,
                },
                Some(Rank::Equal) => match t {
                    Test::Equal => true,
                    Test::NotGreater => true,
                    Test::NotLess => true,
                    _ => false,
                },
                Some(Rank::Greater) => match t {
                    Test::NotEqual => true,
                    Test::Greater => true,
                    Test::NotLess => true,
                    _ => false,
                },
            };
            Outcome::Got(bool_value(b))
        },
        Outcome::Failed => Outcome::Failed,
        Outcome::Needs(q) => Outcome::Needs(q),
    }
}

// -- Arithmetic ------------------------------------------------

/// A number as a real.
pub open spec fn numeric(v: DataView, r: RealAnswers) -> OutcomeView<u64> {
    match v {
        DataView::Integer(n) => r.asked(RealQuestionView::OfInteger(n)),
        DataView::Real(b) => OutcomeView::Got(b),
        _ => OutcomeView::Failed,
    }
}

/// A number as a real.
pub fn numeric_value(v: &BTreeDataType, reals: &RealAnswers) -> (r: Outcome<u64>)
    ensures
        is_outcome(r, numeric(v@, *reals)),
{
    match v {
        BTreeDataType::Integer(n) => reals.ask(RealQuestion::OfInteger(*n)),
        BTreeDataType::Real(b) => Outcome::Got(*b),
        _ => Outcome::Failed,
    }
}

/// Sums, differences and products.
#[derive(Clone, Copy, Debug, PartialEq, Eq, Structural)]
pub enum Arith {
    Plus,
    Minus,
    Times,
}

/// The question that an operation on reals is.
pub open spec fn arith_question(o: Arith, x: u64, y: u64) -> RealQuestionView {
    match o {
        Arith::Plus => RealQuestionView::Sum(x, y),
        Arith::Minus => RealQuestionView::Difference(x, y),
        Arith::Times => RealQuestionView::Product(x, y),
    }
}

/// A real as a value: an integer where it is one.
pub open spec fn settled(z: u64, r: RealAnswers) -> OutcomeView<DataView> {
    match r.value(RealQuestionView::Whole(z)) {
        Some(Some(n)) => OutcomeView::Got(DataView::Integer(n)),
        Some(None) => OutcomeView::Got(DataView::Real(z)),
        None => OutcomeView::Needs(RealQuestionView::Whole(z)),
    }
}

/// What a sum, a difference or a product comes to.
pub open spec fn computed(o: Arith, a: DataView, b: DataView, r: RealAnswers) -> OutcomeView<
    DataView,
> {
    match numeric(a, r) {
        OutcomeView::Got(x) => match numeric(b, r) {
            OutcomeView::Got(y) => match r.asked(arith_question(o, x, y)) {
                OutcomeView::Got(z) => settled(z, r),
                OutcomeView::Failed => OutcomeView::Failed,
                OutcomeView::Needs(q) => OutcomeView::Needs(q),
            },
            OutcomeView::Failed => OutcomeView::Failed,
            OutcomeView::Needs(q) => OutcomeView::Needs(q),
        },
        OutcomeView::Failed => OutcomeView::Failed,
        OutcomeView::Needs(q) => OutcomeView::Needs(q),
    }
}

/// What a sum, a difference or a product comes to.
pub fn numeric_binary(
    o: Arith,
    a: &BTreeDataType,
    b: &BTreeDataType,
    reals: &RealAnswers,
) -> (r: Outcome<BTreeDataType>)
    ensures
        is_value(r, computed(o, a@, b@, *reals)),
{
    let x: u64 = match numeric_value(a, reals) {
        Outcome::Got(x) => x,
        Outcome::Failed => return Outcome::Failed,
        Outcome::Needs(q) => return Outcome::Needs(q),
    };
    let y: u64 = match numeric_value(b, reals) {
        Outcome::Got(y) => y,
        Outcome::Failed => return Outcome::Failed,
        Outcome::Needs(q) => return Outcome::Needs(q),
    };
    let question = match o {
        Arith::Plus => RealQuestion::Sum(x, y),
        Arith::Minus => RealQuestion::Difference(x, y),
        Arith::Times => RealQuestion::Product(x, y),
    };
    let z: u64 = match reals.ask(question) {
        Outcome::Got(z) => z,
        Outcome::Failed => return Outcome::Failed,
        Outcome::Needs(q) => return Outcome::Needs(q),
    };
    let whole = RealQuestion::Whole(z);
    match reals.look_up(&whole) {
        Some(Some(n)) => Outcome::Got(BTreeDataType::Integer(n)),
        Some(None) => Outcome::Got(BTreeDataType::Real(z)),
        None => Outcome::Needs(whole),
    }
}

/// Whether a value is a zero.
pub open spec fn is_zero(v: DataView) -> bool {
    match v {
        DataView::Integer(n) => n == 0,
        DataView::Real(b) => magnitude(b) == 0,
        _ => false,
    }
}

/// What a quotient comes to: nothing where the divisor is zero.
pub open spec fn divided(a: DataView, b: DataView, r: RealAnswers) -> OutcomeView<DataView> {
    if is_zero(b) {
        OutcomeView::Got(DataView::Null)
    } else {
        match numeric(a, r) {
            OutcomeView::Got(x) => match numeric(b, r) {
                OutcomeView::Got(y) => match r.asked(RealQuestionView::Quotient(x, y)) {
                    OutcomeView::Got(z) => OutcomeView::Got(DataView::Real(z)),
                    OutcomeView::Failed => OutcomeView::Failed,
                    OutcomeView::Needs(q) => OutcomeView::Needs(q),
                },
                OutcomeView::Failed => OutcomeView::Failed,
                OutcomeView::Needs(q) => OutcomeView::Needs(q),
            },
            OutcomeView::Failed => OutcomeView::Failed,
            OutcomeView::Needs(q) => OutcomeView::Needs(q),
        }
    }
}

/// Whether a value is a zero.
pub fn is_zero_value(v: &BTreeDataType) -> (r: bool)
    ensures
        r == is_zero(v@),
{
    match v {
        BTreeDataType::Integer(n) => *n == 0,
        BTreeDataType::Real(b) => magnitude_of(*b) == 0,
        _ => false,
    }
}

/// What a quotient comes to.
pub fn divide_values(a: &BTreeDataType, b: &BTreeDataType, reals: &RealAnswers) -> (r: Outcome<
    BTreeDataType,
>)
    ensures
        is_value(r, divided(a@, b@, *reals)),
{
    if is_zero_value(b) {
        return Outcome::Got(BTreeDataType::Null);
    }
    let x: u64 = match numeric_value(a, reals) {
        Outcome::Got(x) => x,
        Outcome::Failed => return Outcome::Failed,
        Outcome::Needs(q) => return Outcome::Needs(q),
    };
    let y: u64 = match numeric_value(b, reals) {
        Outcome::Got(y) => y,
        Outcome::Failed => return Outcome::Failed,
        Outcome::Needs(q) => return Outcome::Needs(q),
    };
    match reals.ask(RealQuestion::Quotient(x, y)) {
        Outcome::Got(z) => Outcome::Got(BTreeDataType::Real(z)),
        Outcome::Failed => Outcome::Failed,
        Outcome::Needs(q) => Outcome::Needs(q),
    }
}

/// The bits of a real with its sign turned around.
pub open spec fn turned(b: u64) -> u64 {
    if b < SIGN_BIT {
        (b + SIGN_BIT) as u64
    } else {
        (b - SIGN_BIT) as u64
    }
}

/// A number with its sign turned around; an integer becomes a real.
pub open spec fn negated(v: DataView, r: RealAnswers) -> OutcomeView<DataView> {
    match numeric(v, r) {
        OutcomeView::Got(x) => OutcomeView::Got(DataView::Real(turned(x))),
        OutcomeView::Failed => OutcomeView::Failed,
        OutcomeView::Needs(q) => OutcomeView::Needs(q),
    }
}

/// A number with its sign turned around.
pub fn negate_value(v: &BTreeDataType, reals: &RealAnswers) -> (r: Outcome<BTreeDataType>)
    ensures
        is_value(r, negated(v@, *reals)),
{
    match numeric_value(v, reals) {
        Outcome::Got(x) => {
            let y: u64 = if x < SIGN_BIT {
                x + SIGN_BIT
            } else {
                x - SIGN_BIT
            };
            Outcome::Got(BTreeDataType::Real(y))
        },
        Outcome::Failed => Outcome::Failed,
        Outcome::Needs(q) => Outcome::Needs(q),
    }
}

/// Turning the sign around twice gives the number back.
pub proof fn turned_twice(b: u64)
    ensures
        turned(turned(b)) == b,
        magnitude(turned(b)) == magnitude(b),
{
}

} // verus!
