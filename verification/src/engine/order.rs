//! Orders on byte strings, on real numbers given by their bits, and on keys.
use vstd::prelude::*;
use vstd::utf8::encode_utf8;

use crate::engine::value::{other_zero, DataView};

verus! {

/// Outcome of comparing two values.
#[derive(Clone, Copy, PartialEq, Eq, Structural, Debug)]
pub enum Rank {
    Less,
    Equal,
    Greater,
}

/// Whether `a` comes before `b` in dictionary order of bytes.
pub open spec fn bytes_lt(a: Seq<u8>, b: Seq<u8>) -> bool
    decreases a.len(),
{
    if b.len() == 0 {
        false
    } else if a.len() == 0 {
        true
    } else if a[0] != b[0] {
        a[0] < b[0]
    } else {
        bytes_lt(a.skip(1), b.skip(1))
    }
}

/// No byte string comes before itself.
pub proof fn bytes_lt_irreflexive(a: Seq<u8>)
    ensures
        !bytes_lt(a, a),
    decreases a.len(),
{
    if a.len() > 0 {
        bytes_lt_irreflexive(a.skip(1));
    }
}

/// Dictionary order is transitive.
pub proof fn bytes_lt_transitive(a: Seq<u8>, b: Seq<u8>, c: Seq<u8>)
    requires
        bytes_lt(a, b),
        bytes_lt(b, c),
    ensures
        bytes_lt(a, c),
    decreases a.len(),
{
    if a.len() > 0 && b.len() > 0 && c.len() > 0 && a[0] == b[0] && b[0] == c[0] {
        bytes_lt_transitive(a.skip(1), b.skip(1), c.skip(1));
    }
}

/// Of two different byte strings one comes before the other.
pub proof fn bytes_lt_total(a: Seq<u8>, b: Seq<u8>)
    ensures
        a == b || bytes_lt(a, b) || bytes_lt(b, a),
    decreases a.len(),
{
    if a.len() == 0 || b.len() == 0 {
        if a.len() == 0 && b.len() == 0 {
            assert(a =~= b);
        }
    } else if a[0] == b[0] {
        bytes_lt_total(a.skip(1), b.skip(1));
        if a.skip(1) == b.skip(1) {
            assert(a =~= seq![a[0]] + a.skip(1));
            assert(b =~= seq![b[0]] + b.skip(1));
        }
    }
}

/// The first byte in which two strings differ decides, however long they are.
pub proof fn first_difference_decides(a: Seq<u8>, b: Seq<u8>, k: int)
    requires
        0 <= k < a.len(),
        k < b.len(),
        a.take(k) == b.take(k),
        a[k] != b[k],
    ensures
        bytes_lt(a, b) <==> a[k] < b[k],
        bytes_lt(b, a) <==> b[k] < a[k],
    decreases k,
{
    if k > 0 {
        assert(a.take(k)[0] == a[0] && b.take(k)[0] == b[0]);
        assert(a[0] == b[0]);
        assert(a.skip(1)[k - 1] == a[k] && b.skip(1)[k - 1] == b[k]);
        assert(a.skip(1).take(k - 1) =~= a.take(k).skip(1));
        assert(b.skip(1).take(k - 1) =~= b.take(k).skip(1));
        first_difference_decides(a.skip(1), b.skip(1), k - 1);
    }
}

/// A string comes before every longer one that it starts.
pub proof fn prefix_comes_first(a: Seq<u8>, b: Seq<u8>)
    requires
        a.is_prefix_of(b),
        a.len() < b.len(),
    ensures
        bytes_lt(a, b),
        !bytes_lt(b, a),
    decreases a.len(),
{
    if a.len() > 0 {
        assert(a.skip(1) =~= b.skip(1).take(a.len() - 1));
        prefix_comes_first(a.skip(1), b.skip(1));
    }
}

/// Compares two byte strings in dictionary order.
pub fn rank_bytes(a: &[u8], b: &[u8]) -> (r: Rank)
    ensures
        r == Rank::Less <==> bytes_lt(a@, b@),
        r == Rank::Equal <==> a@ == b@,
        r == Rank::Greater <==> bytes_lt(b@, a@),
{
    let mut i: usize = 0;
    proof {
        assert(a@.skip(0) =~= a@);
        assert(b@.skip(0) =~= b@);
    }
    while i < a.len() && i < b.len()
        invariant
            i <= a@.len(),
            i <= b@.len(),
            bytes_lt(a@, b@) == bytes_lt(a@.skip(i as int), b@.skip(i as int)),
            bytes_lt(b@, a@) == bytes_lt(b@.skip(i as int), a@.skip(i as int)),
            forall|j: int| 0 <= j < i ==> a@[j] == b@[j],
        decreases a@.len() - i,
    {
        let x: u8 = a[i];
        let y: u8 = b[i];
        proof {
            bytes_lt_irreflexive(a@);
            assert(a@.skip(i as int).skip(1) =~= a@.skip(i + 1));
            assert(b@.skip(i as int).skip(1) =~= b@.skip(i + 1));
        }
        if x < y {
            return Rank::Less;
        }
        if y < x {
            return Rank::Greater;
        }
        i = i + 1;
    }
    proof {
        bytes_lt_irreflexive(a@);
    }
    if i < a.len() {
        Rank::Greater
    } else if i < b.len() {
        Rank::Less
    } else {
        assert(a@ =~= b@);
        Rank::Equal
    }
}

// -- Real numbers by their bits --------------------------------

/// Bit patterns with the sign bit set start here.
pub const SIGN_BIT: u64 = 0x8000_0000_0000_0000;

/// The bits of positive infinity.
pub const INFINITY_BITS: u64 = 0x7ff0_0000_0000_0000;

/// The bits of `bits` without the sign.
pub open spec fn magnitude(bits: u64) -> u64 {
    if bits < SIGN_BIT {
        bits
    } else {
        (bits - SIGN_BIT) as u64
    }
}

/// Whether the bits spell a number.
pub open spec fn is_number(bits: u64) -> bool {
    magnitude(bits) <= INFINITY_BITS
}

/// An integer that orders numbers as their values do; both zeros give 0.
pub open spec fn real_index(bits: u64) -> int {
    if bits < SIGN_BIT {
        bits as int
    } else {
        -(magnitude(bits) as int)
    }
}

/// How two reals compare; `None` where one of them is not a number.
pub open spec fn real_rank(a: u64, b: u64) -> Option<Rank> {
    if !is_number(a) || !is_number(b) {
        None
    } else if real_index(a) < real_index(b) {
        Some(Rank::Less)
    } else if real_index(a) == real_index(b) {
        Some(Rank::Equal)
    } else {
        Some(Rank::Greater)
    }
}

/// The bits without the sign.
pub fn magnitude_of(bits: u64) -> (r: u64)
    ensures
        r == magnitude(bits),
{
    if bits < SIGN_BIT {
        bits
    } else {
        bits - SIGN_BIT
    }
}

/// Compares two reals as IEEE 754 does.
pub fn rank_reals(a: u64, b: u64) -> (r: Option<Rank>)
    ensures
        r == real_rank(a, b),
{
    let x: u64 = magnitude_of(a);
    let y: u64 = magnitude_of(b);
    if x > INFINITY_BITS || y > INFINITY_BITS {
        return None;
    }
    if x == 0 && y == 0 {
        return Some(Rank::Equal);
    }
    if a < SIGN_BIT {
        if b < SIGN_BIT {
            Some(rank_u64(x, y))
        } else {
            Some(Rank::Greater)
        }
    } else if b < SIGN_BIT {
        Some(Rank::Less)
    } else {
        Some(rank_u64(y, x))
    }
}

/// Compares two integers.
pub fn rank_u64(a: u64, b: u64) -> (r: Rank)
    ensures
        r == (if a < b {
            Rank::Less
        } else if a == b {
            Rank::Equal
        } else {
            Rank::Greater
        }),
{
    if a < b {
        Rank::Less
    } else if a == b {
        Rank::Equal
    } else {
        Rank::Greater
    }
}

// -- Keys ------------------------------------------------------

/// Position of a value's type in the order of keys.
pub open spec fn type_index(d: DataView) -> int {
    match d {
        DataView::Null => 0,
        DataView::Integer(_) => 1,
        DataView::Real(_) => 2,
        DataView::Text(_) => 3,
        DataView::Blob(_) => 4,
    }
}

/// An integer that tells all bit patterns apart and orders numbers as their values do.
pub open spec fn bits_index(bits: u64) -> int {
    if bits < SIGN_BIT {
        bits as int
    } else {
        -1 - magnitude(bits)
    }
}

/// The order of keys in a tree: by type, then by value.
/// Every two keys are ordered, so that a tree is sorted whatever its keys are: reals go
/// by their bits, which order NaN too.
#[verifier::opaque]
pub open spec fn key_lt(a: DataView, b: DataView) -> bool {
    match (a, b) {
        (DataView::Integer(x), DataView::Integer(y)) => x < y,
        (DataView::Real(x), DataView::Real(y)) => bits_index(x) < bits_index(y),
        (DataView::Text(x), DataView::Text(y)) => bytes_lt(encode_utf8(x), encode_utf8(y)),
        (DataView::Blob(x), DataView::Blob(y)) => bytes_lt(x, y),
        _ => type_index(a) < type_index(b),
    }
}

/// No key comes before itself.
pub broadcast proof fn key_lt_irreflexive(a: DataView)
    ensures
        !#[trigger] key_lt(a, a),
{
    reveal(key_lt);
    match a {
        DataView::Text(x) => bytes_lt_irreflexive(encode_utf8(x)),
        DataView::Blob(x) => bytes_lt_irreflexive(x),
        _ => {},
    }
}

/// The order of keys is transitive.
pub broadcast proof fn key_lt_transitive(a: DataView, b: DataView, c: DataView)
    requires
        #[trigger] key_lt(a, b),
        #[trigger] key_lt(b, c),
    ensures
        key_lt(a, c),
{
    reveal(key_lt);
    match (a, b, c) {
        (DataView::Text(x), DataView::Text(y), DataView::Text(z)) => bytes_lt_transitive(
            encode_utf8(x),
            encode_utf8(y),
            encode_utf8(z),
        ),
        (DataView::Blob(x), DataView::Blob(y), DataView::Blob(z)) => bytes_lt_transitive(x, y, z),
        _ => {},
    }
}

/// Two texts with the same bytes are the same text.
pub proof fn utf8_injective(x: Seq<char>, y: Seq<char>)
    requires
        encode_utf8(x) == encode_utf8(y),
    ensures
        x == y,
{
    vstd::utf8::encode_utf8_decode_utf8(x);
    vstd::utf8::encode_utf8_decode_utf8(y);
}

/// Of two different keys one comes before the other.
pub proof fn key_lt_total(a: DataView, b: DataView)
    ensures
        a == b || key_lt(a, b) || key_lt(b, a),
{
    reveal(key_lt);
    match (a, b) {
        (DataView::Text(x), DataView::Text(y)) => {
            bytes_lt_total(encode_utf8(x), encode_utf8(y));
            if encode_utf8(x) == encode_utf8(y) {
                utf8_injective(x, y);
            }
        },
        (DataView::Blob(x), DataView::Blob(y)) => bytes_lt_total(x, y),
        _ => {},
    }
}

/// Nothing comes between the zeros of both signs.
pub proof fn zeros_are_neighbours(x: DataView, k: DataView)
    requires
        x != k,
        x != other_zero(k),
    ensures
        key_lt(x, k) == key_lt(x, other_zero(k)),
        key_lt(k, x) == key_lt(other_zero(k), x),
{
    reveal(key_lt);
}

/// Two keys cannot each come before the other.
pub broadcast proof fn key_lt_asymmetric(a: DataView, b: DataView)
    requires
        #[trigger] key_lt(a, b),
    ensures
        !key_lt(b, a),
{
    if key_lt(b, a) {
        key_lt_transitive(a, b, a);
        key_lt_irreflexive(a);
    }
}

} // verus!
