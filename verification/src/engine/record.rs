//! Records: the sequences of values that rows are stored as.
use vstd::prelude::*;

use crate::engine::bytes::copy_range;
use crate::engine::value::{
    data_size, decode, decode_encode, encode, encode_len, length_fits, starts_value,
    BTreeDataType, DataView,
};

verus! {

/// A record: the values of a row, in order.
#[derive(Debug)]
pub struct BTreeValueType {
    pub v: Vec<BTreeDataType>,
}

/// The views of a sequence of values.
pub open spec fn data_views(s: Seq<BTreeDataType>) -> Seq<DataView> {
    Seq::new(s.len(), |i: int| s[i]@)
}

impl View for BTreeValueType {
    type V = Seq<DataView>;

    open spec fn view(&self) -> Seq<DataView> {
        data_views(self.v@)
    }
}

/// Number of bytes that a record takes.
pub open spec fn record_size(r: Seq<DataView>) -> nat
    decreases r.len(),
{
    if r.len() == 0 {
        0
    } else {
        record_size(r.drop_last()) + data_size(r.last())
    }
}

/// The bytes of a record: those of its values, one after the other.
pub open spec fn encode_record(r: Seq<DataView>) -> Seq<u8>
    decreases r.len(),
{
    if r.len() == 0 {
        seq![]
    } else {
        encode_record(r.drop_last()) + encode(r.last())
    }
}

/// Whether `b` can be read as a record.
pub open spec fn is_record(b: Seq<u8>) -> bool
    decreases b.len(),
{
    if b.len() == 0 {
        true
    } else {
        let n = data_size(decode(b));
        starts_value(b) && (n >= b.len() || is_record(b.skip(n as int)))
    }
}

/// The record that `b` is read as: each value starts where the size of the one
/// before it says.
pub open spec fn decode_record(b: Seq<u8>) -> Seq<DataView>
    decreases b.len(),
{
    if b.len() == 0 {
        seq![]
    } else {
        let d = decode(b);
        let n = data_size(d);
        if n >= b.len() {
            seq![d]
        } else {
            seq![d] + decode_record(b.skip(n as int))
        }
    }
}

/// Whether all lengths in a record can be written in full.
pub open spec fn record_lengths_fit(r: Seq<DataView>) -> bool {
    forall|i: int| 0 <= i < r.len() ==> length_fits(#[trigger] r[i])
}

/// A record takes as many bytes as its size says.
pub proof fn encode_record_len(r: Seq<DataView>)
    ensures
        encode_record(r).len() == record_size(r),
        record_size(r) >= r.len(),
    decreases r.len(),
{
    if r.len() > 0 {
        encode_record_len(r.drop_last());
        encode_len(r.last());
    }
}

/// No value of a record takes more bytes than the record.
pub proof fn record_size_bounds(r: Seq<DataView>, i: int)
    requires
        0 <= i < r.len(),
    ensures
        data_size(r[i]) <= record_size(r),
    decreases r.len(),
{
    if i < r.len() - 1 {
        record_size_bounds(r.drop_last(), i);
    }
}

proof fn encode_record_front(r: Seq<DataView>)
    requires
        r.len() > 0,
    ensures
        encode_record(r) == encode(r[0]) + encode_record(r.skip(1)),
    decreases r.len(),
{
    if r.len() == 1 {
        assert(r.drop_last() =~= Seq::<DataView>::empty());
        assert(r.skip(1) =~= Seq::<DataView>::empty());
        assert(encode_record(r.drop_last()) =~= Seq::<u8>::empty());
        assert(encode_record(r) =~= encode(r[0]) + encode_record(r.skip(1)));
    } else {
        encode_record_front(r.drop_last());
        assert(r.drop_last().skip(1) =~= r.skip(1).drop_last());
        assert(r.skip(1).last() == r.last());
        assert(encode_record(r) =~= encode(r[0]) + encode_record(r.skip(1)));
    }
}

/// A record is read back from its own bytes.
pub proof fn decode_encode_record(r: Seq<DataView>)
    requires
        record_lengths_fit(r),
    ensures
        is_record(encode_record(r)),
        decode_record(encode_record(r)) == r,
    decreases r.len(),
{
    let b = encode_record(r);
    if r.len() > 0 {
        let t = r.skip(1);
        encode_record_front(r);
        decode_encode(r[0], encode_record(t));
        encode_len(r[0]);
        assert forall|i: int| 0 <= i < t.len() implies length_fits(#[trigger] t[i]) by {
            assert(length_fits(r[i + 1]));
        }
        decode_encode_record(t);
        encode_record_len(t);
        let n = data_size(r[0]);
        assert(b.skip(n as int) =~= encode_record(t));
        if n >= b.len() {
            assert(t.len() == 0);
            assert(r =~= seq![r[0]]);
        } else {
            assert(r =~= seq![r[0]] + t);
        }
    } else {
        assert(decode_record(b) =~= r);
    }
}

impl Clone for BTreeValueType {
    fn clone(&self) -> (r: Self)
        ensures
            r@ == self@,
    {
        BTreeValueType { v: clone_values(&self.v) }
    }
}

/// A copy of a vector of values.
pub fn clone_values(v: &Vec<BTreeDataType>) -> (r: Vec<BTreeDataType>)
    ensures
        data_views(r@) == data_views(v@),
        r@.len() == v@.len(),
{
    let mut out: Vec<BTreeDataType> = Vec::new();
    let mut i: usize = 0;
    while i < v.len()
        invariant
            i <= v@.len(),
            data_views(out@) == data_views(v@).take(i as int),
        decreases v@.len() - i,
    {
        let ghost before = data_views(out@);
        let d = v[i].clone();
        out.push(d);
        i = i + 1;
        assert(data_views(out@) =~= before.push(d@));
        assert(data_views(out@) =~= data_views(v@).take(i as int));
    }
    assert(data_views(out@) =~= data_views(v@));
    assert(data_views(out@).len() == data_views(v@).len());
    out
}

impl BTreeValueType {
    /// Number of bytes that the record takes, if that is a machine integer.
    pub fn checked_size(&self) -> (r: Option<usize>)
        ensures
            r == (if record_size(self@) <= usize::MAX {
                Some(record_size(self@) as usize)
            } else {
                None
            }),
    {
        let mut n: usize = 0;
        let mut i: usize = 0;
        assert(self@.take(0) =~= seq![]);
        while i < self.v.len()
            invariant
                i <= self.v@.len(),
                n == record_size(self@.take(i as int)),
            decreases self.v@.len() - i,
        {
            proof {
                assert(self@.take(i + 1).drop_last() =~= self@.take(i as int));
                record_size_monotonic(self@, i + 1);
            }
            let s: usize = match self.v[i].checked_size() {
                Some(s) => s,
                None => return None,
            };
            n = match n.checked_add(s) {
                Some(t) => t,
                None => return None,
            };
            i = i + 1;
        }
        assert(self@.take(i as int) =~= self@);
        Some(n)
    }

    /// Number of bytes that the record takes.
    pub fn size(&self) -> (r: usize)
        requires
            record_size(self@) <= usize::MAX,
        ensures
            r == record_size(self@),
    {
        match self.checked_size() {
            Some(n) => n,
            None => 0,
        }
    }

    /// The bytes of the record.
    pub fn get_bytes(&self) -> (r: Vec<u8>)
        ensures
            r@ == encode_record(self@),
    {
        let mut out: Vec<u8> = Vec::new();
        let mut i: usize = 0;
        while i < self.v.len()
            invariant
                i <= self.v@.len(),
                out@ == encode_record(self@.take(i as int)),
            decreases self.v@.len() - i,
        {
            let mut b = self.v[i].get_bytes();
            out.append(&mut b);
            i = i + 1;
            assert(self@.take(i as int).drop_last() =~= self@.take(i - 1));
        }
        assert(self@.take(i as int) =~= self@);
        out
    }

    /// Reads a record, unless `buf` breaks off inside a value.
    pub fn read(buf: &[u8]) -> (r: Option<Self>)
        ensures
            r is Some <==> is_record(buf@),
            r matches Some(v) ==> v@ == decode_record(buf@),
    {
        let mut out: Vec<BTreeDataType> = Vec::new();
        let mut i: usize = 0;
        assert(buf@.skip(0) =~= buf@);
        assert(data_views(out@) + decode_record(buf@) =~= decode_record(buf@));
        while i < buf.len()
            invariant
                i <= buf@.len(),
                is_record(buf@) == is_record(buf@.skip(i as int)),
                decode_record(buf@) == data_views(out@) + decode_record(buf@.skip(i as int)),
            decreases buf@.len() - i,
        {
            let rest = copy_range(buf, i, buf.len());
            assert(rest@ =~= buf@.skip(i as int));
            if !BTreeDataType::starts(rest.as_slice()) {
                return None;
            }
            let d = BTreeDataType::new(rest.as_slice());
            let ghost before = data_views(out@);
            let left: usize = buf.len() - i;
            let size = d.checked_size();
            out.push(d);
            assert(data_views(out@) =~= before + seq![d@]);
            let n: usize = match size {
                Some(n) => n,
                None => left,
            };
            if n >= left {
                i = buf.len();
                assert(buf@.skip(i as int) =~= seq![]);
                assert(decode_record(buf@) =~= data_views(out@) + decode_record(buf@.skip(i as int)));
            } else {
                i = i + n;
                assert(rest@.skip(n as int) =~= buf@.skip(i as int));
                assert(decode_record(buf@) =~= data_views(out@) + decode_record(buf@.skip(i as int)));
            }
        }
        assert(buf@.skip(i as int) =~= seq![]);
        assert(data_views(out@) + decode_record(buf@.skip(i as int)) =~= data_views(out@));
        Some(BTreeValueType { v: out })
    }

    /// Reads a record.
    pub fn new(buf: &[u8]) -> (r: Self)
        requires
            is_record(buf@),
        ensures
            r@ == decode_record(buf@),
    {
        match Self::read(buf) {
            Some(r) => r,
            None => Self::null(),
        }
    }

    /// A record of one value.
    pub fn new_single(d: BTreeDataType) -> (r: Self)
        ensures
            r@ == seq![d@],
    {
        let r = BTreeValueType { v: vec![d] };
        assert(r@ =~= seq![d@]);
        r
    }

    /// The record without values.
    pub fn null() -> (r: Self)
        ensures
            r@ == Seq::<DataView>::empty(),
    {
        let r = BTreeValueType { v: Vec::new() };
        assert(r@ =~= Seq::<DataView>::empty());
        r
    }

    /// A record of the given values.
    pub fn from_vec(v: Vec<BTreeDataType>) -> (r: Self)
        ensures
            r@ == data_views(v@),
    {
        BTreeValueType { v }
    }
}

/// A longer record takes no fewer bytes.
proof fn record_size_monotonic(r: Seq<DataView>, i: int)
    requires
        0 <= i <= r.len(),
    ensures
        record_size(r.take(i)) <= record_size(r),
    decreases r.len(),
{
    if i < r.len() {
        assert(r.drop_last().take(i) =~= r.take(i));
        record_size_monotonic(r.drop_last(), i);
    } else {
        assert(r.take(i) =~= r);
    }
}

} // verus!
