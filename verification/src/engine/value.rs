//! Values of fields and keys, and how they are laid out in bytes.
use std::cmp::Ordering;

use vstd::prelude::*;
use vstd::string::*;
use vstd::utf8::{decode_utf8, encode_utf8, valid_utf8};

use crate::engine::bytes::{
    be16, be16_at, be16_len, be16_round_trip, be64, be64_at, be64_len, be64_round_trip, bytes_eq,
    copy_range, get_be16, get_be64, push_be16, push_be64,
};
use crate::engine::order::{
    key_lt, rank_bytes, rank_reals, rank_u64, real_rank, type_index, utf8_injective, Rank, SIGN_BIT,
};

verus! {

/// A value of a field or a key. A real is given by its IEEE 754 bits.
#[derive(Debug)]
pub enum BTreeDataType {
    Null,
    Integer(u64),
    Real(u64),
    Text(String),
    Blob(Vec<u8>),
}

/// What a value is, apart from how it is stored.
pub enum DataView {
    Null,
    Integer(u64),
    Real(u64),
    Text(Seq<char>),
    Blob(Seq<u8>),
}

impl View for BTreeDataType {
    type V = DataView;

    open spec fn view(&self) -> DataView {
        match self {
            BTreeDataType::Null => DataView::Null,
            BTreeDataType::Integer(i) => DataView::Integer(*i),
            BTreeDataType::Real(r) => DataView::Real(*r),
            BTreeDataType::Text(s) => DataView::Text(s@),
            BTreeDataType::Blob(v) => DataView::Blob(v@),
        }
    }
}

/// Number of bytes that a value takes.
pub open spec fn data_size(d: DataView) -> nat {
    match d {
        DataView::Null => 1,
        DataView::Integer(_) => 9,
        DataView::Real(_) => 9,
        DataView::Text(s) => encode_utf8(s).len() + 3,
        DataView::Blob(v) => v.len() + 3,
    }
}

/// A length as it is written in front of a text or a blob: its low 16 bits.
pub open spec fn short_len(n: nat) -> u16 {
    (n % 0x1_0000) as u16
}

/// The bytes of a value: a tag, then what the tag calls for.
pub open spec fn encode(d: DataView) -> Seq<u8> {
    match d {
        DataView::Null => seq![0u8],
        DataView::Integer(i) => seq![1u8] + be64(i),
        DataView::Real(r) => seq![2u8] + be64(r),
        DataView::Text(s) => seq![3u8] + be16(short_len(encode_utf8(s).len())) + encode_utf8(s),
        DataView::Blob(v) => seq![4u8] + be16(short_len(v.len())) + v,
    }
}

/// Whether `b` holds all the bytes of the value that it starts with.
pub open spec fn starts_value(b: Seq<u8>) -> bool {
    &&& b.len() >= 1
    &&& b[0] == 1 || b[0] == 2 ==> b.len() >= 9
    &&& b[0] >= 3 ==> b.len() >= 3 && b.len() >= 3 + be16_at(b, 1)
}

/// The value that `b` starts with.
pub open spec fn decode(b: Seq<u8>) -> DataView {
    if b[0] == 0 {
        DataView::Null
    } else if b[0] == 1 {
        DataView::Integer(be64_at(b, 1))
    } else if b[0] == 2 {
        DataView::Real(be64_at(b, 1))
    } else if b[0] == 3 {
        DataView::Text(text_of(b.subrange(3, 3 + be16_at(b, 1))))
    } else {
        DataView::Blob(b.subrange(3, 3 + be16_at(b, 1)))
    }
}

/// The text that bytes spell where whatever is not UTF-8 is replaced.
pub uninterp spec fn lossy_text(bytes: Seq<u8>) -> Seq<char>;

/// The text that bytes are read as.
pub open spec fn text_of(bytes: Seq<u8>) -> Seq<char> {
    if valid_utf8(bytes) {
        decode_utf8(bytes)
    } else {
        lossy_text(bytes)
    }
}

/// Whether a value is the real zero, of either sign.
pub open spec fn is_zero(k: DataView) -> bool {
    k == DataView::Real(0) || k == DataView::Real(SIGN_BIT)
}

/// The zero of the other sign; other values are as they are.
pub open spec fn other_zero(k: DataView) -> DataView {
    if k == DataView::Real(0) {
        DataView::Real(SIGN_BIT)
    } else if k == DataView::Real(SIGN_BIT) {
        DataView::Real(0)
    } else {
        k
    }
}

/// The zero of the other sign, where a value is a zero.
pub fn zero_of_other_sign(k: &BTreeDataType) -> (r: Option<BTreeDataType>)
    ensures
        r is Some <==> is_zero(k@),
        r matches Some(z) ==> z@ == other_zero(k@),
{
    match k {
        BTreeDataType::Real(b) => if *b == 0 {
            Some(BTreeDataType::Real(SIGN_BIT))
        } else if *b == SIGN_BIT {
            Some(BTreeDataType::Real(0))
        } else {
            None
        },
        _ => None,
    }
}

/// Calls `String::from_utf8_lossy`: the text that the bytes spell, with
/// replacement characters for what is not UTF-8. Valid UTF-8 is kept as it is;
/// which replacements the rest gets is not said.
#[verifier::external_body]
pub(crate) fn text_from_bytes(bytes: &[u8]) -> (s: String)
    ensures
        valid_utf8(bytes@) ==> s@ == decode_utf8(bytes@),
        !valid_utf8(bytes@) ==> s@ == lossy_text(bytes@),
{
    String::from_utf8_lossy(bytes).into_owned()
}

/// A text is read back from its own bytes.
pub broadcast proof fn text_of_utf8(s: Seq<char>)
    ensures
        #[trigger] text_of(encode_utf8(s)) == s,
{
    vstd::utf8::encode_utf8_valid_utf8(s);
    vstd::utf8::encode_utf8_decode_utf8(s);
}

/// Whether the length of a text or a blob can be written in full.
pub open spec fn length_fits(d: DataView) -> bool {
    data_size(d) < 0x1_0003
}

/// A value takes as many bytes as its size says.
pub proof fn encode_len(d: DataView)
    ensures
        encode(d).len() == data_size(d),
        encode(d).len() >= 1,
{
    broadcast use {be16_len, be64_len};

}

/// A value is read back from its own bytes, whatever follows them.
pub proof fn decode_encode(d: DataView, rest: Seq<u8>)
    requires
        length_fits(d),
    ensures
        starts_value(encode(d) + rest),
        decode(encode(d) + rest) == d,
{
    broadcast use {be16_len, be64_len};

    let b = encode(d) + rest;
    match d {
        DataView::Null => {},
        DataView::Integer(i) => {
            assert(b.subrange(1, 9) =~= be64(i));
            be64_round_trip(b, 1, i);
        },
        DataView::Real(r) => {
            assert(b.subrange(1, 9) =~= be64(r));
            be64_round_trip(b, 1, r);
        },
        DataView::Text(t) => {
            let u = encode_utf8(t);
            assert(b.subrange(1, 3) =~= be16(short_len(u.len())));
            be16_round_trip(b, 1, short_len(u.len()));
            assert(b.subrange(3, (3 + u.len()) as int) =~= u);
            text_of_utf8(t);
        },
        DataView::Blob(v) => {
            assert(b.subrange(1, 3) =~= be16(short_len(v.len())));
            be16_round_trip(b, 1, short_len(v.len()));
            assert(b.subrange(3, (3 + v.len()) as int) =~= v);
        },
    }
}

impl Clone for BTreeDataType {
    fn clone(&self) -> (r: Self)
        ensures
            r@ == self@,
    {
        match self {
            BTreeDataType::Null => BTreeDataType::Null,
            BTreeDataType::Integer(i) => BTreeDataType::Integer(*i),
            BTreeDataType::Real(r) => BTreeDataType::Real(*r),
            BTreeDataType::Text(s) => BTreeDataType::Text(s.clone()),
            BTreeDataType::Blob(v) => {
                let c = copy_range(v.as_slice(), 0, v.len());
                assert(c@ =~= v@);
                BTreeDataType::Blob(c)
            },
        }
    }
}

impl BTreeDataType {
    /// Number of bytes that the value takes, if that is a machine integer.
    pub fn checked_size(&self) -> (r: Option<usize>)
        ensures
            r == (if data_size(self@) <= usize::MAX {
                Some(data_size(self@) as usize)
            } else {
                None
            }),
    {
        match self {
            BTreeDataType::Null => Some(1),
            BTreeDataType::Integer(_) => Some(9),
            BTreeDataType::Real(_) => Some(9),
            BTreeDataType::Text(s) => s.as_str().as_bytes().len().checked_add(3),
            BTreeDataType::Blob(v) => v.len().checked_add(3),
        }
    }

    /// Number of bytes that the value takes.
    pub fn size(&self) -> (r: usize)
        requires
            data_size(self@) <= usize::MAX,
        ensures
            r == data_size(self@),
    {
        match self {
            BTreeDataType::Null => 1,
            BTreeDataType::Integer(_) => 9,
            BTreeDataType::Real(_) => 9,
            BTreeDataType::Text(s) => s.as_str().as_bytes().len() + 3,
            BTreeDataType::Blob(v) => v.len() + 3,
        }
    }

    /// The bytes of the value. Of the length of a text or a blob the low 16
    /// bits are written.
    pub fn get_bytes(&self) -> (r: Vec<u8>)
        ensures
            r@ == encode(self@),
    {
        let mut out: Vec<u8> = Vec::new();
        match self {
            BTreeDataType::Null => {
                out.push(0);
            },
            BTreeDataType::Integer(i) => {
                out.push(1);
                push_be64(&mut out, *i);
            },
            BTreeDataType::Real(r) => {
                out.push(2);
                push_be64(&mut out, *r);
            },
            BTreeDataType::Text(s) => {
                let b = s.as_str().as_bytes();
                out.push(3);
                push_be16(&mut out, (b.len() % 0x1_0000) as u16);
                out.extend_from_slice(b);
            },
            BTreeDataType::Blob(v) => {
                out.push(4);
                push_be16(&mut out, (v.len() % 0x1_0000) as u16);
                out.extend_from_slice(v.as_slice());
            },
        }
        assert(out@ =~= encode(self@));
        out
    }

    /// Whether `buf` holds all the bytes of the value that it starts with.
    pub fn starts(buf: &[u8]) -> (r: bool)
        ensures
            r == starts_value(buf@),
    {
        if buf.len() == 0 {
            return false;
        }
        let tag: u8 = buf[0];
        if tag == 0 {
            true
        } else if tag == 1 || tag == 2 {
            buf.len() >= 9
        } else {
            buf.len() >= 3 && buf.len() - 3 >= get_be16(buf, 1) as usize
        }
    }

    /// Reads the value that `buf` starts with.
    pub fn new(buf: &[u8]) -> (r: Self)
        requires
            starts_value(buf@),
        ensures
            r@ == decode(buf@),
    {
        let tag: u8 = buf[0];
        if tag == 0 {
            BTreeDataType::Null
        } else if tag == 1 {
            BTreeDataType::Integer(get_be64(buf, 1))
        } else if tag == 2 {
            BTreeDataType::Real(get_be64(buf, 1))
        } else {
            let len: usize = get_be16(buf, 1) as usize;
            let part = copy_range(buf, 3, 3 + len);
            if tag == 3 {
                BTreeDataType::Text(text_from_bytes(part.as_slice()))
            } else {
                BTreeDataType::Blob(part)
            }
        }
    }
}

/// Equality of values: of the same type and equal, and no NaN.
pub open spec fn data_eq(a: DataView, b: DataView) -> bool {
    match (a, b) {
        (DataView::Real(x), DataView::Real(y)) => real_rank(x, y) == Some(Rank::Equal),
        _ => a == b,
    }
}

/// How two values of one type compare; values of different types do not.
pub open spec fn data_rank(a: DataView, b: DataView) -> Option<Rank> {
    match (a, b) {
        (DataView::Real(x), DataView::Real(y)) => real_rank(x, y),
        _ => if type_index(a) != type_index(b) {
            None
        } else if key_lt(a, b) {
            Some(Rank::Less)
        } else if a == b {
            Some(Rank::Equal)
        } else {
            Some(Rank::Greater)
        },
    }
}

impl PartialEq for BTreeDataType {
    fn eq(&self, other: &Self) -> (r: bool) {
        match (self, other) {
            (BTreeDataType::Null, BTreeDataType::Null) => true,
            (BTreeDataType::Integer(a), BTreeDataType::Integer(b)) => *a == *b,
            (BTreeDataType::Real(a), BTreeDataType::Real(b)) => match rank_reals(*a, *b) {
                Some(Rank::Equal) => true,
                _ => false,
            },
            (BTreeDataType::Text(a), BTreeDataType::Text(b)) => *a == *b,
            (BTreeDataType::Blob(a), BTreeDataType::Blob(b)) => bytes_eq(
                a.as_slice(),
                b.as_slice(),
            ),
            _ => false,
        }
    }
}

impl vstd::std_specs::cmp::PartialEqSpecImpl for BTreeDataType {
    open spec fn obeys_eq_spec() -> bool {
        true
    }

    open spec fn eq_spec(&self, other: &Self) -> bool {
        data_eq(self@, other@)
    }
}

/// The standard library's name for an outcome.
pub open spec fn as_ordering(r: Option<Rank>) -> Option<Ordering> {
    match r {
        None => None,
        Some(Rank::Less) => Some(Ordering::Less),
        Some(Rank::Equal) => Some(Ordering::Equal),
        Some(Rank::Greater) => Some(Ordering::Greater),
    }
}

/// Compares two values of one type; values of different types do not compare.
pub fn rank_data(a: &BTreeDataType, b: &BTreeDataType) -> (r: Option<Rank>)
    ensures
        r == data_rank(a@, b@),
{
    match (a, b) {
        (BTreeDataType::Real(x), BTreeDataType::Real(y)) => rank_reals(*x, *y),
        (BTreeDataType::Null, BTreeDataType::Null) => {
            reveal(key_lt);
            Some(Rank::Equal)
        },
        (BTreeDataType::Integer(_), BTreeDataType::Integer(_)) => Some(rank_keys(a, b)),
        (BTreeDataType::Text(_), BTreeDataType::Text(_)) => Some(rank_keys(a, b)),
        (BTreeDataType::Blob(_), BTreeDataType::Blob(_)) => Some(rank_keys(a, b)),
        _ => None,
    }
}

/// Compares two keys.
pub fn rank_keys(a: &BTreeDataType, b: &BTreeDataType) -> (r: Rank)
    ensures
        r == Rank::Less <==> key_lt(a@, b@),
        r == Rank::Equal <==> a@ == b@,
        r == Rank::Greater <==> key_lt(b@, a@),
{
    reveal(key_lt);
    match (a, b) {
        (BTreeDataType::Integer(x), BTreeDataType::Integer(y)) => rank_u64(*x, *y),
        (BTreeDataType::Real(x), BTreeDataType::Real(y)) => {
            if *x < SIGN_BIT {
                if *y < SIGN_BIT {
                    rank_u64(*x, *y)
                } else {
                    Rank::Greater
                }
            } else if *y < SIGN_BIT {
                Rank::Less
            } else {
                rank_u64(*y, *x)
            }
        },
        (BTreeDataType::Text(x), BTreeDataType::Text(y)) => {
            proof {
                if encode_utf8(x@) == encode_utf8(y@) {
                    utf8_injective(x@, y@);
                }
            }
            rank_bytes(x.as_str().as_bytes(), y.as_str().as_bytes())
        },
        (BTreeDataType::Blob(x), BTreeDataType::Blob(y)) => rank_bytes(
            x.as_slice(),
            y.as_slice(),
        ),
        _ => {
            let i: u64 = type_number(a);
            let j: u64 = type_number(b);
            rank_u64(i, j)
        },
    }
}

/// Position of a value's type in the order of keys.
fn type_number(d: &BTreeDataType) -> (r: u64)
    ensures
        r == type_index(d@),
{
    match d {
        BTreeDataType::Null => 0,
        BTreeDataType::Integer(_) => 1,
        BTreeDataType::Real(_) => 2,
        BTreeDataType::Text(_) => 3,
        BTreeDataType::Blob(_) => 4,
    }
}

impl PartialOrd for BTreeDataType {
    fn partial_cmp(&self, other: &Self) -> (r: Option<Ordering>) {
        match rank_data(self, other) {
            None => None,
            Some(Rank::Less) => Some(Ordering::Less),
            Some(Rank::Equal) => Some(Ordering::Equal),
            Some(Rank::Greater) => Some(Ordering::Greater),
        }
    }
}

impl vstd::std_specs::cmp::PartialOrdSpecImpl for BTreeDataType {
    open spec fn obeys_partial_cmp_spec() -> bool {
        true
    }

    open spec fn partial_cmp_spec(&self, other: &Self) -> Option<Ordering> {
        as_ordering(data_rank(self@, other@))
    }
}

} // verus!
