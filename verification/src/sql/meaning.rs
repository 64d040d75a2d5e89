//! What expressions mean, from their text to their value.
use vstd::prelude::*;
use vstd::utf8::{encode_utf8, is_ascii_chars, is_ascii_chars_encode_utf8};

use crate::engine::node::CellView;
use crate::engine::order::{
    bytes_lt, bytes_lt_irreflexive, bytes_lt_total, bytes_lt_transitive, first_difference_decides,
    key_lt, magnitude, prefix_comes_first, utf8_injective, INFINITY_BITS, SIGN_BIT,
};
use crate::engine::value::DataView;
use crate::sql::ast::{BinaryOp, ColumnRefView, ExprView, LiteralView, UnaryOp};
use crate::sql::columns::the_entry;
use crate::sql::effects::{named_at, place_is_named};
use crate::sql::evaluation::{evaluated, operator_value};
use crate::sql::grammar::{binary_at, p_expr};
use crate::sql::lexer::{is_digit_byte, tokens_from};
use crate::sql::program::{
    column_place, columns_named, ResolvedColumn, RowSourceView, ScopeView,
};
use crate::sql::reals::{OutcomeView, RealAnswers, RealQuestionView};
use crate::sql::results::value_on;
use crate::sql::schema::ColumnDefView;
use crate::sql::spacing::blank_parts_tokens;
use crate::sql::spelling::{ascii_add, is_number, spellable, spelled, token_back};
use crate::sql::text::{decimal, is_digit, same_name};
use crate::sql::values::{truth, truthy};
use crate::sql::writing::{
    binary_token, capitals, cased, constant, decimal_value, expression_read_back, opers, stands,
    writable, written,
};

verus! {

/// The value of the expression that a text is.
pub open spec fn text_value(
    s: Seq<char>,
    sc: ScopeView,
    at: spec_fn(usize) -> Option<CellView>,
    r: RealAnswers,
) -> OutcomeView<DataView> {
    let t = tokens_from(encode_utf8(s), 0);
    match p_expr(t, 0) {
        Ok((e, j)) => if j == t.len() {
            evaluated(e, sc, at, r)
        } else {
            OutcomeView::Failed
        },
        Err(_) => OutcomeView::Failed,
    }
}

/// An operation on two numbers as text: the numbers in decimal, and the operator with a
/// blank on either side between them.
pub open spec fn operation_text(x: i64, o: Seq<char>, y: i64) -> Seq<char> {
    decimal(x as nat) + seq![' '] + o + seq![' '] + decimal(y as nat)
}

/// How an operator is spelled.
spec fn operator_text(op: BinaryOp, other: bool) -> Seq<char> {
    match op {
        BinaryOp::Multiply => "*"@,
        BinaryOp::Divide => "/"@,
        BinaryOp::Add => "+"@,
        BinaryOp::Subtract => "-"@,
        BinaryOp::Eq => if other {
            "=="@
        } else {
            "="@
        },
        BinaryOp::Ne => if other {
            "<>"@
        } else {
            "!="@
        },
        BinaryOp::Lt => "<"@,
        BinaryOp::Le => "<="@,
        BinaryOp::Gt => ">"@,
        BinaryOp::Ge => ">="@,
        BinaryOp::And => cased("and"@, other),
        BinaryOp::Or => cased("or"@, other),
    }
}

proof fn operator_spelled(op: BinaryOp, other: bool)
    ensures
        is_ascii_chars(operator_text(op, other)),
        spellable(binary_token(op, other)),
        spelled(binary_token(op, other)) == encode_utf8(operator_text(op, other)),
{
    opers();
    reveal(cased);
    reveal_strlit("and");
    reveal_strlit("or");
    is_ascii_chars_encode_utf8(operator_text(op, other));
    let s = operator_text(op, other);
    let b = encode_utf8(s);
    assert(b.len() == s.len());
    assert forall|i: int| 0 <= i < b.len() implies #[trigger] b[i] == s[i] as u8 by {}
    assert(b[0] == s[0] as u8);
    if b.len() > 1 {
        assert(b[1] == s[1] as u8);
    }
}

proof fn decimal_spelled(x: i64)
    requires
        x >= 0,
    ensures
        is_ascii_chars(decimal(x as nat)),
        is_number(encode_utf8(decimal(x as nat))),
{
    let d = decimal(x as nat);
    decimal_value(x as nat);
    assert forall|i: int| 0 <= i < d.len() implies '\0' <= #[trigger] d[i] <= '\u{7f}' by {
        assert(is_digit(d[i]));
    }
    is_ascii_chars_encode_utf8(d);
    let b = encode_utf8(d);
    assert forall|i: int| 0 <= i < b.len() implies is_digit_byte(#[trigger] b[i]) by {
        assert(is_digit(d[i]));
        assert(b[i] == d[i] as u8);
    }
    assert(is_digit_byte(b[0]));
}

/// The text of an operation on two numbers is read as that operation on them.
proof fn operation_read(
    x: i64,
    op: BinaryOp,
    other: bool,
    y: i64,
    sc: ScopeView,
    at: spec_fn(usize) -> Option<CellView>,
    r: RealAnswers,
)
    requires
        x >= 0,
        y >= 0,
    ensures
        text_value(operation_text(x, operator_text(op, other), y), sc, at, r) == operator_value(
            op,
            DataView::Integer(x as u64),
            DataView::Integer(y as u64),
            r,
        ),
{
    let a = decimal(x as nat);
    let b = decimal(y as nat);
    let o = operator_text(op, other);
    let c = seq![' '];
    let s = operation_text(x, o, y);
    decimal_spelled(x);
    decimal_spelled(y);
    operator_spelled(op, other);
    assert(is_ascii_chars(c));
    is_ascii_chars_encode_utf8(c);
    assert(encode_utf8(c)[0] == c[0] as u8);
    assert(encode_utf8(c) =~= seq![32u8]);
    ascii_add(a, c);
    ascii_add(a + c, o);
    ascii_add(a + c + o, c);
    ascii_add(a + c + o + c, b);
    let ta = constant(a);
    let to = binary_token(op, other);
    let tb = constant(b);
    token_back(ta);
    token_back(to);
    token_back(tb);
    let eb = encode_utf8(b);
    let rest = encode_utf8(o) + seq![32u8] + eb;
    blank_parts_tokens(encode_utf8(o), eb);
    blank_parts_tokens(encode_utf8(a), rest);
    assert(encode_utf8(s) =~= encode_utf8(a) + seq![32u8] + rest);
    let t = seq![ta, to, tb];
    assert(tokens_from(encode_utf8(s), 0) =~= t);
    let e = ExprView::Binary {
        left: Box::new(ExprView::Literal(LiteralView::Integer(x))),
        op,
        right: Box::new(ExprView::Literal(LiteralView::Integer(y))),
    };
    reveal_with_fuel(crate::sql::writing::written, 3);
    reveal_with_fuel(crate::sql::writing::bare, 3);
    reveal_with_fuel(writable, 3);
    assert(written(e, 6, other) =~= t);
    assert(stands(t, 0, t));
    assert forall|l: nat| #[trigger] binary_at(t, 3, l) is None by {}
    expression_read_back(e, other, t, 0);
    reveal_with_fuel(evaluated, 3);
}

/// Comparisons of integers.
proof fn integer_operators(x: u64, y: u64, r: RealAnswers)
    ensures
        operator_value(BinaryOp::Le, DataView::Integer(x), DataView::Integer(y), r)
            == OutcomeView::Got(truth(x <= y)),
        operator_value(BinaryOp::Lt, DataView::Integer(x), DataView::Integer(y), r)
            == OutcomeView::Got(truth(x < y)),
        operator_value(BinaryOp::Ge, DataView::Integer(x), DataView::Integer(y), r)
            == OutcomeView::Got(truth(x >= y)),
        operator_value(BinaryOp::Gt, DataView::Integer(x), DataView::Integer(y), r)
            == OutcomeView::Got(truth(x > y)),
        operator_value(BinaryOp::Eq, DataView::Integer(x), DataView::Integer(y), r)
            == OutcomeView::Got(truth(x == y)),
        operator_value(BinaryOp::Ne, DataView::Integer(x), DataView::Integer(y), r)
            == OutcomeView::Got(truth(x != y)),
{
    reveal(key_lt);
}

/// A comparison of two numbers is true exactly where it holds of them, whichever way it
/// is spelled: from the text to the value.
pub proof fn comparisons_of_numbers(
    x: i64,
    y: i64,
    sc: ScopeView,
    at: spec_fn(usize) -> Option<CellView>,
    r: RealAnswers,
)
    requires
        x >= 0,
        y >= 0,
    ensures
        text_value(operation_text(x, "<="@, y), sc, at, r) == OutcomeView::Got(truth(x <= y)),
        text_value(operation_text(x, "<"@, y), sc, at, r) == OutcomeView::Got(truth(x < y)),
        text_value(operation_text(x, ">="@, y), sc, at, r) == OutcomeView::Got(truth(x >= y)),
        text_value(operation_text(x, ">"@, y), sc, at, r) == OutcomeView::Got(truth(x > y)),
        text_value(operation_text(x, "="@, y), sc, at, r) == OutcomeView::Got(truth(x == y)),
        text_value(operation_text(x, "=="@, y), sc, at, r) == OutcomeView::Got(truth(x == y)),
        text_value(operation_text(x, "!="@, y), sc, at, r) == OutcomeView::Got(truth(x != y)),
        text_value(operation_text(x, "<>"@, y), sc, at, r) == OutcomeView::Got(truth(x != y)),
        truthy(truth(true)),
        !truthy(truth(false)),
{
    operation_read(x, BinaryOp::Le, false, y, sc, at, r);
    operation_read(x, BinaryOp::Lt, false, y, sc, at, r);
    operation_read(x, BinaryOp::Ge, false, y, sc, at, r);
    operation_read(x, BinaryOp::Gt, false, y, sc, at, r);
    operation_read(x, BinaryOp::Eq, false, y, sc, at, r);
    operation_read(x, BinaryOp::Eq, true, y, sc, at, r);
    operation_read(x, BinaryOp::Ne, false, y, sc, at, r);
    operation_read(x, BinaryOp::Ne, true, y, sc, at, r);
    integer_operators(x as u64, y as u64, r);
}

/// Numbers are true but for zero: from the text to the value of AND and OR.
pub proof fn logic_of_numbers(
    x: i64,
    y: i64,
    sc: ScopeView,
    at: spec_fn(usize) -> Option<CellView>,
    r: RealAnswers,
)
    requires
        x >= 0,
        y >= 0,
    ensures
        text_value(operation_text(x, "and"@, y), sc, at, r) == OutcomeView::Got(
            truth(x != 0 && y != 0),
        ),
        text_value(operation_text(x, "or"@, y), sc, at, r) == OutcomeView::Got(
            truth(x != 0 || y != 0),
        ),
        text_value(operation_text(x, "AND"@, y), sc, at, r) == OutcomeView::Got(
            truth(x != 0 && y != 0),
        ),
        text_value(operation_text(x, "OR"@, y), sc, at, r) == OutcomeView::Got(
            truth(x != 0 || y != 0),
        ),
{
    reveal(cased);
    operation_read(x, BinaryOp::And, false, y, sc, at, r);
    operation_read(x, BinaryOp::Or, false, y, sc, at, r);
    operation_read(x, BinaryOp::And, true, y, sc, at, r);
    operation_read(x, BinaryOp::Or, true, y, sc, at, r);
    reveal_strlit("and");
    reveal_strlit("or");
    reveal_strlit("AND");
    reveal_strlit("OR");
    assert(capitals("and"@) =~= "AND"@);
    assert(capitals("or"@) =~= "OR"@);
}

/// The sum, the difference, the product and the quotient of two numbers are those of the
/// reals that the numbers are; the first three are integers again where the real is one,
/// and there is no quotient by zero. From the text to the value.
pub proof fn arithmetic_of_numbers(
    x: i64,
    y: i64,
    a: u64,
    b: u64,
    c: u64,
    whole: Option<u64>,
    sc: ScopeView,
    at: spec_fn(usize) -> Option<CellView>,
    r: RealAnswers,
)
    requires
        x >= 0,
        y >= 0,
        r.value(RealQuestionView::OfInteger(x as u64)) == Some(Some(a)),
        r.value(RealQuestionView::OfInteger(y as u64)) == Some(Some(b)),
    ensures
        r.value(RealQuestionView::Sum(a, b)) == Some(Some(c)) && r.value(
            RealQuestionView::Whole(c),
        ) == Some(whole) ==> text_value(operation_text(x, "+"@, y), sc, at, r) == OutcomeView::Got(
            match whole {
                Some(n) => DataView::Integer(n),
                None => DataView::Real(c),
            },
        ),
        r.value(RealQuestionView::Difference(a, b)) == Some(Some(c)) && r.value(
            RealQuestionView::Whole(c),
        ) == Some(whole) ==> text_value(operation_text(x, "-"@, y), sc, at, r) == OutcomeView::Got(
            match whole {
                Some(n) => DataView::Integer(n),
                None => DataView::Real(c),
            },
        ),
        r.value(RealQuestionView::Product(a, b)) == Some(Some(c)) && r.value(
            RealQuestionView::Whole(c),
        ) == Some(whole) ==> text_value(operation_text(x, "*"@, y), sc, at, r) == OutcomeView::Got(
            match whole {
                Some(n) => DataView::Integer(n),
                None => DataView::Real(c),
            },
        ),
        r.value(RealQuestionView::Quotient(a, b)) == Some(Some(c)) && y != 0 ==> text_value(
            operation_text(x, "/"@, y),
            sc,
            at,
            r,
        ) == OutcomeView::Got(DataView::Real(c)),
        y == 0 ==> text_value(operation_text(x, "/"@, y), sc, at, r) == OutcomeView::Got(
            DataView::Null,
        ),
{
    operation_read(x, BinaryOp::Add, false, y, sc, at, r);
    operation_read(x, BinaryOp::Subtract, false, y, sc, at, r);
    operation_read(x, BinaryOp::Multiply, false, y, sc, at, r);
    operation_read(x, BinaryOp::Divide, false, y, sc, at, r);
}

// -- Values of any kind ----------------------------------------

/// Whether bytes come before others in a dictionary: where they first differ the smaller
/// byte decides, and what is the start of the other comes first.
pub open spec fn dictionary_less(a: Seq<u8>, b: Seq<u8>) -> bool {
    exists|k: int|
        0 <= k <= a.len() && k < b.len() && a.take(k) == #[trigger] b.take(k) && (k == a.len()
            || a[k] < b[k])
}

/// Where two byte strings part.
proof fn parting(a: Seq<u8>, b: Seq<u8>) -> (k: int)
    ensures
        0 <= k <= a.len(),
        k <= b.len(),
        a.take(k) == b.take(k),
        k < a.len() && k < b.len() ==> a[k] != b[k],
    decreases a.len(),
{
    if a.len() == 0 || b.len() == 0 || a[0] != b[0] {
        assert(a.take(0) =~= b.take(0));
        0
    } else {
        let k = parting(a.skip(1), b.skip(1));
        assert(a.take(k + 1) =~= seq![a[0]] + a.skip(1).take(k));
        assert(b.take(k + 1) =~= seq![b[0]] + b.skip(1).take(k));
        k + 1
    }
}

/// The order of byte strings is that of a dictionary.
pub proof fn bytes_in_dictionary_order(a: Seq<u8>, b: Seq<u8>)
    ensures
        bytes_lt(a, b) <==> dictionary_less(a, b),
{
    let k = parting(a, b);
    if k < a.len() && k < b.len() {
        first_difference_decides(a, b, k);
        if a[k] < b[k] {
            assert(a.take(k) == b.take(k));
        }
    } else if k == a.len() && k < b.len() {
        assert(a.take(k) =~= a);
        assert(a.is_prefix_of(b));
        prefix_comes_first(a, b);
        assert(a.take(k) == b.take(k));
    } else if k == b.len() && k < a.len() {
        assert(b.take(k) =~= b);
        assert(b.is_prefix_of(a));
        prefix_comes_first(b, a);
    } else {
        assert(a.take(k) =~= a);
        assert(b.take(k) =~= b);
        crate::engine::order::bytes_lt_irreflexive(a);
    }
    if dictionary_less(a, b) {
        let m = choose|m: int|
            0 <= m <= a.len() && m < b.len() && a.take(m) == #[trigger] b.take(m) && (m == a.len()
                || a[m] < b[m]);
        if m == a.len() {
            assert(a.take(m) =~= a);
            assert(a.is_prefix_of(b));
            prefix_comes_first(a, b);
        } else {
            first_difference_decides(a, b, m);
        }
    }
}

/// What operators make of values, whatever expressions have them.
pub proof fn operator_applied(
    l: ExprView,
    op: BinaryOp,
    m: ExprView,
    v: DataView,
    w: DataView,
    sc: ScopeView,
    at: spec_fn(usize) -> Option<CellView>,
    r: RealAnswers,
)
    requires
        evaluated(l, sc, at, r) == OutcomeView::Got(v),
        evaluated(m, sc, at, r) == OutcomeView::Got(w),
    ensures
        evaluated(
            ExprView::Binary { left: Box::new(l), op, right: Box::new(m) },
            sc,
            at,
            r,
        ) == operator_value(op, v, w, r),
{
}

/// Where values stand when those of different types are compared: nothing first, then
/// numbers, then texts, then blobs.
pub open spec fn standing(v: DataView) -> int {
    match v {
        DataView::Null => 0,
        DataView::Integer(_) => 1,
        DataView::Real(_) => 1,
        DataView::Text(_) => 2,
        DataView::Blob(_) => 3,
    }
}

/// Whether a value is less than another one: values of different types as they stand,
/// integers by size, texts and blobs as in a dictionary.
pub open spec fn value_less(v: DataView, w: DataView) -> bool {
    match (v, w) {
        (DataView::Integer(x), DataView::Integer(y)) => x < y,
        (DataView::Text(x), DataView::Text(y)) => dictionary_less(encode_utf8(x), encode_utf8(y)),
        (DataView::Blob(x), DataView::Blob(y)) => dictionary_less(x, y),
        _ => standing(v) < standing(w),
    }
}

/// All six comparisons say what the order of values says: one of less, equal and greater
/// holds, and the others are made of it.
pub proof fn comparisons_of_values(v: DataView, w: DataView, r: RealAnswers)
    requires
        !(v is Real),
        !(w is Real),
    ensures
        operator_value(BinaryOp::Lt, v, w, r) == OutcomeView::Got(truth(value_less(v, w))),
        operator_value(BinaryOp::Gt, v, w, r) == OutcomeView::Got(truth(value_less(w, v))),
        operator_value(BinaryOp::Eq, v, w, r) == OutcomeView::Got(truth(v == w)),
        operator_value(BinaryOp::Ne, v, w, r) == OutcomeView::Got(truth(v != w)),
        operator_value(BinaryOp::Le, v, w, r) == OutcomeView::Got(
            truth(value_less(v, w) || v == w),
        ),
        operator_value(BinaryOp::Ge, v, w, r) == OutcomeView::Got(
            truth(value_less(w, v) || v == w),
        ),
        v == w || value_less(v, w) || value_less(w, v),
        !(value_less(v, w) && value_less(w, v)),
        v == w ==> !value_less(v, w),
{
    reveal(key_lt);
    match (v, w) {
        (DataView::Text(x), DataView::Text(y)) => {
            let a = encode_utf8(x);
            let b = encode_utf8(y);
            bytes_in_dictionary_order(a, b);
            bytes_in_dictionary_order(b, a);
            bytes_lt_total(a, b);
            bytes_apart(a, b);
            if a == b {
                utf8_injective(x, y);
            }
        },
        (DataView::Blob(x), DataView::Blob(y)) => {
            bytes_in_dictionary_order(x, y);
            bytes_in_dictionary_order(y, x);
            bytes_lt_total(x, y);
            bytes_apart(x, y);
        },
        _ => {},
    }
}

proof fn bytes_apart(a: Seq<u8>, b: Seq<u8>)
    ensures
        !(bytes_lt(a, b) && bytes_lt(b, a)),
        a == b ==> !bytes_lt(a, b),
{
    bytes_lt_irreflexive(a);
    if bytes_lt(a, b) && bytes_lt(b, a) {
        bytes_lt_transitive(a, b, a);
    }
}

/// Reals compare as numbers: those above zero by their bits, which rise with them, those
/// below zero the other way round, every one below zero before every one above, and both
/// zeros are equal; what is not a number makes all comparisons false.
pub proof fn comparisons_of_reals(x: u64, y: u64, r: RealAnswers)
    ensures
        ({
            let lt = operator_value(BinaryOp::Lt, DataView::Real(x), DataView::Real(y), r);
            let le = operator_value(BinaryOp::Le, DataView::Real(x), DataView::Real(y), r);
            let gt = operator_value(BinaryOp::Gt, DataView::Real(x), DataView::Real(y), r);
            let ge = operator_value(BinaryOp::Ge, DataView::Real(x), DataView::Real(y), r);
            let eq = operator_value(BinaryOp::Eq, DataView::Real(x), DataView::Real(y), r);
            let ne = operator_value(BinaryOp::Ne, DataView::Real(x), DataView::Real(y), r);
            let number = magnitude(x) <= INFINITY_BITS && magnitude(y) <= INFINITY_BITS;
            let below = |a: u64| a > SIGN_BIT;
            let zero = |a: u64| a == 0 || a == SIGN_BIT;
            let less = if zero(x) {
                !below(y) && !zero(y)
            } else if below(x) {
                !below(y) || y < x
            } else {
                !below(y) && !zero(y) && x < y
            };
            let same = x == y || (zero(x) && zero(y));
            &&& lt == OutcomeView::Got(truth(number && less))
            &&& eq == OutcomeView::Got(truth(number && same))
            &&& ne == OutcomeView::Got(truth(number && !same))
            &&& le == OutcomeView::Got(truth(number && (less || same)))
            &&& gt == OutcomeView::Got(truth(number && !(less || same)))
            &&& ge == OutcomeView::Got(truth(number && !less))
        }),
{
}

/// AND holds where both values count as true, OR where one does, NOT where the value does
/// not; nothing, zero and what is empty do not count as true, and all else does.
pub proof fn logic_of_values(
    l: ExprView,
    v: DataView,
    w: DataView,
    sc: ScopeView,
    at: spec_fn(usize) -> Option<CellView>,
    r: RealAnswers,
)
    ensures
        operator_value(BinaryOp::And, v, w, r) == OutcomeView::Got(truth(truthy(v) && truthy(w))),
        operator_value(BinaryOp::Or, v, w, r) == OutcomeView::Got(truth(truthy(v) || truthy(w))),
        evaluated(l, sc, at, r) == OutcomeView::Got(v) ==> evaluated(
            ExprView::Unary { op: UnaryOp::Not, expr: Box::new(l) },
            sc,
            at,
            r,
        ) == OutcomeView::Got(truth(!truthy(v))),
        evaluated(l, sc, at, r) == OutcomeView::Got(v) ==> evaluated(
            ExprView::Unary { op: UnaryOp::Positive, expr: Box::new(l) },
            sc,
            at,
            r,
        ) == OutcomeView::Got(v),
        truth(true) == DataView::Integer(1),
        truth(false) == DataView::Integer(0),
        truthy(v) <==> !(v == DataView::Null || v == DataView::Integer(0) || v == DataView::Real(0)
            || v == DataView::Real(SIGN_BIT) || v == DataView::Text(seq![]) || v == DataView::Blob(
            seq![],
        )),
{
    match v {
        DataView::Text(s) => {
            if s.len() == 0 {
                assert(s =~= seq![]);
            }
        },
        DataView::Blob(s) => {
            if s.len() == 0 {
                assert(s =~= seq![]);
            }
        },
        _ => {},
    }
}

/// Constants mean what they say: a number itself, a text its characters, and NULL nothing;
/// a fraction is the real that its text is.
pub proof fn constants_mean(
    n: i64,
    t: Seq<char>,
    d: Seq<char>,
    b: u64,
    sc: ScopeView,
    at: spec_fn(usize) -> Option<CellView>,
    r: RealAnswers,
)
    ensures
        n >= 0 ==> evaluated(ExprView::Literal(LiteralView::Integer(n)), sc, at, r)
            == OutcomeView::Got(DataView::Integer(n as u64)),
        evaluated(ExprView::Literal(LiteralView::Text(t)), sc, at, r) == OutcomeView::Got(
            DataView::Text(t),
        ),
        evaluated(ExprView::Literal(LiteralView::Null), sc, at, r) == OutcomeView::Got(
            DataView::Null,
        ),
        r.value(RealQuestionView::OfText(d)) == Some(Some(b)) ==> evaluated(
            ExprView::Literal(LiteralView::Real(d)),
            sc,
            at,
            r,
        ) == OutcomeView::Got(DataView::Real(b)),
{
    crate::engine::value::text_of_utf8(t);
}

/// A minus turns a number around: the real that it is gets the other sign and keeps its
/// size.
pub proof fn minus_turns_around(
    l: ExprView,
    x: u64,
    n: u64,
    sc: ScopeView,
    at: spec_fn(usize) -> Option<CellView>,
    r: RealAnswers,
)
    ensures
        ({
            let minus = ExprView::Unary { op: UnaryOp::Negate, expr: Box::new(l) };
            let turned = if x < SIGN_BIT {
                (x + SIGN_BIT) as u64
            } else {
                (x - SIGN_BIT) as u64
            };
            &&& evaluated(l, sc, at, r) == OutcomeView::Got(DataView::Real(x)) ==> evaluated(
                minus,
                sc,
                at,
                r,
            ) == OutcomeView::Got(DataView::Real(turned))
            &&& evaluated(l, sc, at, r) == OutcomeView::Got(DataView::Integer(n)) && r.value(
                RealQuestionView::OfInteger(n),
            ) == Some(Some(x)) ==> evaluated(minus, sc, at, r) == OutcomeView::Got(
                DataView::Real(turned),
            )
            &&& magnitude(turned) == magnitude(x)
            &&& magnitude(x) != 0 ==> (turned > SIGN_BIT <==> x < SIGN_BIT)
        }),
{
}

/// A number and a real compare as the real nearest to the number and the real do.
pub proof fn number_against_real(n: u64, x: u64, y: u64, op: BinaryOp, r: RealAnswers)
    requires
        op == BinaryOp::Lt || op == BinaryOp::Le || op == BinaryOp::Gt || op == BinaryOp::Ge || op
            == BinaryOp::Eq || op == BinaryOp::Ne,
        r.value(RealQuestionView::OfInteger(n)) == Some(Some(x)),
    ensures
        operator_value(op, DataView::Integer(n), DataView::Real(y), r) == operator_value(
            op,
            DataView::Real(x),
            DataView::Real(y),
            r,
        ),
        operator_value(op, DataView::Real(y), DataView::Integer(n), r) == operator_value(
            op,
            DataView::Real(y),
            DataView::Real(x),
            r,
        ),
{
}

/// Numbers come before texts and texts before blobs, and nothing comes before all.
pub proof fn reals_among_others(x: u64, w: DataView, r: RealAnswers)
    requires
        standing(w) != 1,
    ensures
        operator_value(BinaryOp::Lt, DataView::Real(x), w, r) == OutcomeView::Got(
            truth(1 < standing(w)),
        ),
        operator_value(BinaryOp::Lt, w, DataView::Real(x), r) == OutcomeView::Got(
            truth(standing(w) < 1),
        ),
        operator_value(BinaryOp::Eq, DataView::Real(x), w, r) == OutcomeView::Got(truth(false)),
        operator_value(BinaryOp::Eq, w, DataView::Real(x), r) == OutcomeView::Got(truth(false)),
{
}

// -- Columns ---------------------------------------------------

/// In a statement about one table, a column is the field of the row at the place of the
/// column with that name; a table that is named with it must be that table.
pub proof fn column_of_a_table(
    table: Seq<char>,
    columns: Seq<ColumnDefView>,
    column: ColumnRefView,
    row: CellView,
    r: RealAnswers,
)
    requires
        columns.len() <= usize::MAX,
    ensures
        ({
            let v = evaluated(
                ExprView::Column(column),
                ScopeView::Table(table, columns),
                the_entry(row),
                r,
            );
            let fits = column.table matches Some(t) ==> same_name(t, table);
            &&& forall|p: int|
                #[trigger] named_at(columns, column.name, p) && fits ==> v == OutcomeView::Got(
                    if p < row.1.len() {
                        row.1[p]
                    } else {
                        DataView::Null
                    },
                )
            &&& v is Got ==> fits && exists|p: int| #[trigger] named_at(columns, column.name, p)
        }),
{
    place_is_named(columns, column.name);
    let sc = ScopeView::Table(table, columns);
    assert(the_entry(row)(0) == Some(row));
    match column_place(columns, column.name) {
        Some(q) => {
            assert forall|p: int| #[trigger] named_at(columns, column.name, p) implies p == q by {
                if p < q {
                    assert(!same_name(columns[p].name, column.name));
                }
                if q < p {
                    assert(!same_name(columns[q as int].name, column.name));
                }
            }
            assert(named_at(columns, column.name, q as int));
        },
        None => {
            assert forall|p: int| !(#[trigger] named_at(columns, column.name, p)) by {}
        },
    }
}

/// Whether a name, with that of a table or without, stands for a column of a table.
pub open spec fn stands_for(s: RowSourceView, column: ColumnRefView, p: int) -> bool {
    &&& column.table matches Some(t) ==> same_name(s.table, t) || (s.alias is Some && same_name(
        s.alias->0,
        t,
    ))
    &&& named_at(s.columns, column.name, p)
}

proof fn columns_found(
    env: Seq<RowSourceView>,
    column: ColumnRefView,
    n: int,
)
    requires
        0 <= n <= env.len(),
        forall|i: int| 0 <= i < env.len() ==> (#[trigger] env[i]).columns.len() <= usize::MAX,
    ensures
        forall|x: ResolvedColumn| #[trigger]
            columns_named(env.take(n), column.table, column.name).contains(x) <==> exists|i: int|
                0 <= i < n && #[trigger] stands_for(env[i], column, x.col_idx as int)
                    && env[i].cursor_id == x.cursor_id,
    decreases n,
{
    let t = env.take(n);
    let f = columns_named(t, column.table, column.name);
    if n > 0 {
        let d = env.take(n - 1);
        let s = env[n - 1];
        assert(t.drop_last() =~= d);
        assert(t.last() == s);
        columns_found(env, column, n - 1);
        place_is_named(s.columns, column.name);
        let before = columns_named(d, column.table, column.name);
        let called = column.table is None || s.is_called(column.table->0);
        assert forall|x: ResolvedColumn| #[trigger] f.contains(x) <==> exists|i: int|
            0 <= i < n && #[trigger] stands_for(env[i], column, x.col_idx as int)
                && env[i].cursor_id == x.cursor_id by {
            if f.contains(x) {
                let k = choose|k: int| 0 <= k < f.len() && f[k] == x;
                if k < before.len() {
                    assert(before[k] == x);
                    assert(before.contains(x));
                    let i = choose|i: int|
                        0 <= i < n - 1 && #[trigger] stands_for(env[i], column, x.col_idx as int)
                            && env[i].cursor_id == x.cursor_id;
                    assert(stands_for(env[i], column, x.col_idx as int));
                } else {
                    assert(stands_for(env[n - 1], column, x.col_idx as int));
                }
            }
            if exists|i: int|
                0 <= i < n && #[trigger] stands_for(env[i], column, x.col_idx as int)
                    && env[i].cursor_id == x.cursor_id {
                let i = choose|i: int|
                    0 <= i < n && #[trigger] stands_for(env[i], column, x.col_idx as int)
                        && env[i].cursor_id == x.cursor_id;
                if i < n - 1 {
                    assert(before.contains(x));
                    let k = choose|k: int| 0 <= k < before.len() && before[k] == x;
                    assert(f[k] == x);
                } else {
                    match column_place(s.columns, column.name) {
                        Some(q) => {
                            if x.col_idx < q {
                                assert(!same_name(
                                    s.columns[x.col_idx as int].name,
                                    column.name,
                                ));
                            }
                            if q < x.col_idx {
                                assert(!same_name(s.columns[q as int].name, column.name));
                            }
                            assert(f[before.len() as int] == x);
                        },
                        None => {},
                    }
                }
            }
        }
    } else {
        assert(f =~= seq![]);
    }
}

/// In a query, a column is the field of the row of the table that has a column with that
/// name and goes by the name of a table where one is given; it has a value only where one
/// table does.
pub proof fn column_of_a_query(
    env: Seq<RowSourceView>,
    column: ColumnRefView,
    cells: Seq<CellView>,
    r: RealAnswers,
    i: int,
    p: int,
)
    requires
        forall|k: int| 0 <= k < env.len() ==> (#[trigger] env[k]).columns.len() <= usize::MAX,
        forall|k: int| 0 <= k < env.len() ==> (#[trigger] env[k]).cursor_id == k,
        cells.len() == env.len(),
        value_on(ExprView::Column(column), env, cells, r) is Got,
        0 <= i < env.len(),
        stands_for(env[i], column, p),
    ensures
        value_on(ExprView::Column(column), env, cells, r) == OutcomeView::Got(
            if p < cells[i].1.len() {
                cells[i].1[p]
            } else {
                DataView::Null
            },
        ),
{
    let n = env.len() as int;
    let f = columns_named(env, column.table, column.name);
    columns_found(env, column, n);
    assert(env.take(n) =~= env);
    let x = ResolvedColumn { cursor_id: i as usize, col_idx: p as usize };
    assert(env[i].cursor_id == i);
    assert(stands_for(env[i], column, x.col_idx as int));
    assert(f.contains(x));
    assert(f.len() == 1);
    assert(f[0] == x);
}

} // verus!
