//! Questions about reals and their answers.
//!
//! Reals are kept as the 64 bits of their binary form. Comparing them and turning
//! their sign around is done on the bits; what takes arithmetic is asked, and
//! goes on once the answer is known.
use vstd::prelude::*;

verus! {

/// What is asked of reals, all given by their bits.
#[derive(Debug, PartialEq)]
pub enum RealQuestion {
    /// The real nearest to an integer.
    OfInteger(u64),
    /// The real that a numeral stands for.
    OfText(String),
    Sum(u64, u64),
    Difference(u64, u64),
    Product(u64, u64),
    Quotient(u64, u64),
    /// The integer that a real is, where it is one from 0 on that fits in 64
    /// bits.
    Whole(u64),
    Log2(u64),
}

/// What is asked of reals.
#[verifier::ext_equal]
pub enum RealQuestionView {
    OfInteger(u64),
    OfText(Seq<char>),
    Sum(u64, u64),
    Difference(u64, u64),
    Product(u64, u64),
    Quotient(u64, u64),
    Whole(u64),
    Log2(u64),
}

impl View for RealQuestion {
    type V = RealQuestionView;

    open spec fn view(&self) -> RealQuestionView {
        match self {
            RealQuestion::OfInteger(n) => RealQuestionView::OfInteger(*n),
            RealQuestion::OfText(s) => RealQuestionView::OfText(s@),
            RealQuestion::Sum(a, b) => RealQuestionView::Sum(*a, *b),
            RealQuestion::Difference(a, b) => RealQuestionView::Difference(*a, *b),
            RealQuestion::Product(a, b) => RealQuestionView::Product(*a, *b),
            RealQuestion::Quotient(a, b) => RealQuestionView::Quotient(*a, *b),
            RealQuestion::Whole(a) => RealQuestionView::Whole(*a),
            RealQuestion::Log2(a) => RealQuestionView::Log2(*a),
        }
    }
}

/// Whether two questions are the same.
pub fn same_question(a: &RealQuestion, b: &RealQuestion) -> (r: bool)
    ensures
        r == (a@ == b@),
{
    match (a, b) {
        (RealQuestion::OfInteger(x), RealQuestion::OfInteger(y)) => *x == *y,
        (RealQuestion::OfText(x), RealQuestion::OfText(y)) => *x == *y,
        (RealQuestion::Sum(x, z), RealQuestion::Sum(y, w)) => *x == *y && *z == *w,
        (RealQuestion::Difference(x, z), RealQuestion::Difference(y, w)) => *x == *y && *z == *w,
        (RealQuestion::Product(x, z), RealQuestion::Product(y, w)) => *x == *y && *z == *w,
        (RealQuestion::Quotient(x, z), RealQuestion::Quotient(y, w)) => *x == *y && *z == *w,
        (RealQuestion::Whole(x), RealQuestion::Whole(y)) => *x == *y,
        (RealQuestion::Log2(x), RealQuestion::Log2(y)) => *x == *y,
        _ => false,
    }
}

/// Questions that were asked, with their answers.
#[derive(Debug)]
pub struct RealAnswers {
    pub known: Vec<(RealQuestion, Option<u64>)>,
}

/// The first answer to a question among those known.
pub open spec fn first_answer(
    k: Seq<(RealQuestion, Option<u64>)>,
    q: RealQuestionView,
) -> Option<Option<u64>>
    decreases k.len(),
{
    if k.len() == 0 {
        None
    } else {
        match first_answer(k.drop_last(), q) {
            Some(a) => Some(a),
            None => if k.last().0@ == q {
                Some(k.last().1)
            } else {
                None
            },
        }
    }
}

/// What comes of something that may take answers: a value, a failure, or a
/// question that has to be answered first.
pub enum OutcomeView<T> {
    Got(T),
    Failed,
    Needs(RealQuestionView),
}

/// What comes of something that may take answers.
#[derive(Debug)]
pub enum Outcome<T> {
    Got(T),
    Failed,
    Needs(RealQuestion),
}

/// Answers, as a function: some questions may have none.
pub type Answers = spec_fn(RealQuestionView) -> Option<Option<u64>>;

/// What comes of something that may take answers: a value, or the first question
/// that has none.
pub type Asked<T> = Result<T, RealQuestionView>;

impl RealAnswers {
    /// The answers, as a function.
    pub open spec fn answers(&self) -> Answers {
        |q: RealQuestionView| self.value(q)
    }

    /// The answer to a question, where it is known.
    pub open spec fn value(&self, q: RealQuestionView) -> Option<Option<u64>> {
        first_answer(self.known@, q)
    }

    /// What asking a question comes to.
    pub open spec fn asked(&self, q: RealQuestionView) -> OutcomeView<u64> {
        match self.value(q) {
            Some(Some(b)) => OutcomeView::Got(b),
            Some(None) => OutcomeView::Failed,
            None => OutcomeView::Needs(q),
        }
    }

    /// No answers.
    pub fn new() -> (r: Self)
        ensures
            r.known@.len() == 0,
            forall|q: RealQuestionView| #[trigger] r.value(q) is None,
    {
        RealAnswers { known: Vec::new() }
    }

    /// Takes down an answer.
    pub fn learn(&mut self, q: RealQuestion, a: Option<u64>)
        ensures
            forall|p: RealQuestionView| #[trigger]
                final(self).value(p) == (match old(self).value(p) {
                    Some(x) => Some(x),
                    None => if p == q@ {
                        Some(a)
                    } else {
                        None
                    },
                }),
    {
        let ghost before = self.known@;
        self.known.push((q, a));
        assert(self.known@.drop_last() =~= before);
    }

    /// The answer to a question, where it is known.
    pub fn look_up(&self, q: &RealQuestion) -> (r: Option<Option<u64>>)
        ensures
            r == self.value(q@),
    {
        let mut i: usize = 0;
        let ghost k = self.known@;
        assert(k.take(0) =~= seq![]);
        while i < self.known.len()
            invariant
                k == self.known@,
                i <= k.len(),
                first_answer(k.take(i as int), q@) is None,
            decreases self.known.len() - i,
        {
            assert(k.take(i + 1).drop_last() =~= k.take(i as int));
            assert(k.take(i + 1).last() == k[i as int]);
            if same_question(&self.known[i].0, q) {
                proof {
                    earlier_answer(k, q@, i + 1);
                }
                return Some(self.known[i].1);
            }
            i = i + 1;
        }
        assert(k.take(k.len() as int) =~= k);
        None
    }

    /// Asks a question.
    pub fn ask(&self, q: RealQuestion) -> (r: Outcome<u64>)
        ensures
            match r {
                Outcome::Got(b) => self.asked(q@) == OutcomeView::Got(b),
                Outcome::Failed => self.asked(q@) == OutcomeView::<u64>::Failed,
                Outcome::Needs(p) => p == q && self.asked(q@) == OutcomeView::<u64>::Needs(q@),
            },
    {
        match self.look_up(&q) {
            Some(Some(b)) => Outcome::Got(b),
            Some(None) => Outcome::Failed,
            None => Outcome::Needs(q),
        }
    }
}

proof fn earlier_answer(k: Seq<(RealQuestion, Option<u64>)>, q: RealQuestionView, n: int)
    requires
        0 <= n <= k.len(),
        first_answer(k.take(n), q) is Some,
    ensures
        first_answer(k, q) == first_answer(k.take(n), q),
    decreases k.len(),
{
    if n < k.len() {
        assert(k.drop_last().take(n) =~= k.take(n));
        earlier_answer(k.drop_last(), q, n);
    } else {
        assert(k.take(n) =~= k);
    }
}

} // verus!
