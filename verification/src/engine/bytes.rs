//! Big-endian integers inside byte buffers.
use vstd::prelude::*;

verus! {

/// The two bytes of `n`, most significant first.
#[verifier::opaque]
pub open spec fn be16(n: u16) -> Seq<u8> {
    seq![(n / 256) as u8, (n % 256) as u8]
}

/// The four bytes of `n`, most significant first.
#[verifier::opaque]
pub open spec fn be32(n: u32) -> Seq<u8> {
    be16((n / 0x1_0000) as u16) + be16((n % 0x1_0000) as u16)
}

/// The eight bytes of `n`, most significant first.
#[verifier::opaque]
pub open spec fn be64(n: u64) -> Seq<u8> {
    be32((n / 0x1_0000_0000) as u32) + be32((n % 0x1_0000_0000) as u32)
}

/// The integer that the two bytes at `i` spell.
#[verifier::opaque]
pub open spec fn be16_at(s: Seq<u8>, i: int) -> u16 {
    (s[i] * 256 + s[i + 1]) as u16
}

/// The integer that the four bytes at `i` spell.
#[verifier::opaque]
pub open spec fn be32_at(s: Seq<u8>, i: int) -> u32 {
    (be16_at(s, i) * 0x1_0000 + be16_at(s, i + 2)) as u32
}

/// The integer that the eight bytes at `i` spell.
#[verifier::opaque]
pub open spec fn be64_at(s: Seq<u8>, i: int) -> u64 {
    (be32_at(s, i) * 0x1_0000_0000 + be32_at(s, i + 4)) as u64
}

/// Number of bytes of an integer of 16 bits.
pub broadcast proof fn be16_len(n: u16)
    ensures
        #[trigger] be16(n).len() == 2,
{
    reveal(be16);
}

/// Number of bytes of an integer of 32 bits.
pub broadcast proof fn be32_len(n: u32)
    ensures
        #[trigger] be32(n).len() == 4,
{
    reveal(be16);
    reveal(be32);
}

/// Number of bytes of an integer of 64 bits.
pub broadcast proof fn be64_len(n: u64)
    ensures
        #[trigger] be64(n).len() == 8,
{
    reveal(be16);
    reveal(be32);
    reveal(be64);
}

/// Whether `part` stands in `s` at offset `i`.
pub open spec fn has_at(s: Seq<u8>, i: int, part: Seq<u8>) -> bool {
    &&& 0 <= i
    &&& i + part.len() <= s.len()
    &&& s.subrange(i, i + part.len()) == part
}

/// `s` with `part` written over the bytes that start at `i`.
pub open spec fn put(s: Seq<u8>, i: int, part: Seq<u8>) -> Seq<u8> {
    s.subrange(0, i) + part + s.subrange(i + part.len(), s.len() as int)
}

/// Reading two bytes gives back the integer that was written there.
pub proof fn be16_round_trip(s: Seq<u8>, i: int, n: u16)
    requires
        has_at(s, i, be16(n)),
    ensures
        be16_at(s, i) == n,
{
    reveal(be16);
    reveal(be16_at);
    let p = s.subrange(i, i + 2);
    assert(p[0] == s[i] && p[1] == s[i + 1]);
}

/// Reading four bytes gives back the integer that was written there.
pub proof fn be32_round_trip(s: Seq<u8>, i: int, n: u32)
    requires
        has_at(s, i, be32(n)),
    ensures
        be32_at(s, i) == n,
{
    broadcast use be16_len;
    reveal(be32);
    reveal(be32_at);
    let hi = (n / 0x1_0000) as u16;
    let lo = (n % 0x1_0000) as u16;
    assert(s.subrange(i, i + 2) =~= s.subrange(i, i + 4).subrange(0, 2));
    assert(be32(n).subrange(0, 2) =~= be16(hi));
    assert(s.subrange(i + 2, i + 4) =~= s.subrange(i, i + 4).subrange(2, 4));
    assert(be32(n).subrange(2, 4) =~= be16(lo));
    be16_round_trip(s, i, hi);
    be16_round_trip(s, i + 2, lo);
}

/// Reading eight bytes gives back the integer that was written there.
pub proof fn be64_round_trip(s: Seq<u8>, i: int, n: u64)
    requires
        has_at(s, i, be64(n)),
    ensures
        be64_at(s, i) == n,
{
    broadcast use be32_len;
    reveal(be64);
    reveal(be64_at);
    let hi = (n / 0x1_0000_0000) as u32;
    let lo = (n % 0x1_0000_0000) as u32;
    assert(s.subrange(i, i + 4) =~= s.subrange(i, i + 8).subrange(0, 4));
    assert(be64(n).subrange(0, 4) =~= be32(hi));
    assert(s.subrange(i + 4, i + 8) =~= s.subrange(i, i + 8).subrange(4, 8));
    assert(be64(n).subrange(4, 8) =~= be32(lo));
    be32_round_trip(s, i, hi);
    be32_round_trip(s, i + 4, lo);
}

/// Appends the two bytes of `n`.
pub fn push_be16(v: &mut Vec<u8>, n: u16)
    ensures
        final(v)@ == old(v)@ + be16(n),
{
    reveal(be16);
    v.push((n / 256) as u8);
    v.push((n % 256) as u8);
    assert(v@ =~= old(v)@ + be16(n));
}

/// Appends the four bytes of `n`.
pub fn push_be32(v: &mut Vec<u8>, n: u32)
    ensures
        final(v)@ == old(v)@ + be32(n),
{
    reveal(be32);
    push_be16(v, (n / 0x1_0000) as u16);
    push_be16(v, (n % 0x1_0000) as u16);
    assert(v@ =~= old(v)@ + be32(n));
}

/// Appends the eight bytes of `n`.
pub fn push_be64(v: &mut Vec<u8>, n: u64)
    ensures
        final(v)@ == old(v)@ + be64(n),
{
    reveal(be64);
    push_be32(v, (n / 0x1_0000_0000) as u32);
    push_be32(v, (n % 0x1_0000_0000) as u32);
    assert(v@ =~= old(v)@ + be64(n));
}

/// Reads the two bytes at `i`.
pub fn get_be16(s: &[u8], i: usize) -> (n: u16)
    requires
        i + 2 <= s@.len(),
    ensures
        n == be16_at(s@, i as int),
{
    reveal(be16_at);
    (s[i] as u16) * 256 + s[i + 1] as u16
}

/// Reads the four bytes at `i`.
pub fn get_be32(s: &[u8], i: usize) -> (n: u32)
    requires
        i + 4 <= s@.len(),
    ensures
        n == be32_at(s@, i as int),
{
    reveal(be32_at);
    assert(i + 2 <= s.len());
    (get_be16(s, i) as u32) * 0x1_0000 + get_be16(s, i + 2) as u32
}

/// Reads the eight bytes at `i`.
pub fn get_be64(s: &[u8], i: usize) -> (n: u64)
    requires
        i + 8 <= s@.len(),
    ensures
        n == be64_at(s@, i as int),
{
    reveal(be64_at);
    assert(i + 4 <= s.len());
    (get_be32(s, i) as u64) * 0x1_0000_0000 + get_be32(s, i + 4) as u64
}

/// Writes `part` over the bytes of `s` that start at `i`.
pub fn put_bytes(s: &mut Vec<u8>, i: usize, part: &[u8])
    requires
        i + part@.len() <= old(s)@.len(),
    ensures
        final(s)@ == put(old(s)@, i as int, part@),
        final(s)@.len() == old(s)@.len(),
{
    let n: usize = part.len();
    let mut k: usize = 0;
    while k < n
        invariant
            n == part@.len(),
            k <= n,
            i + n <= s.len(),
            s@.len() == old(s)@.len(),
            forall|j: int| 0 <= j < s@.len() ==> #[trigger] s@[j] == (if i <= j < i + k {
                part@[j - i]
            } else {
                old(s)@[j]
            }),
        decreases n - k,
    {
        s.set(i + k, part[k]);
        k = k + 1;
    }
    assert(s@ =~= put(old(s)@, i as int, part@));
}

/// A copy of the bytes from `i` up to `j`.
pub fn copy_range(s: &[u8], i: usize, j: usize) -> (v: Vec<u8>)
    requires
        i <= j <= s@.len(),
    ensures
        v@ == s@.subrange(i as int, j as int),
{
    let mut v: Vec<u8> = Vec::new();
    let mut k: usize = i;
    while k < j
        invariant
            i <= k <= j <= s@.len(),
            v@ == s@.subrange(i as int, k as int),
        decreases j - k,
    {
        v.push(s[k]);
        k = k + 1;
        assert(v@ =~= s@.subrange(i as int, k as int));
    }
    v
}

/// A buffer of `n` zero bytes.
pub fn zeros(n: usize) -> (v: Vec<u8>)
    ensures
        v@ == Seq::new(n as nat, |i: int| 0u8),
{
    let mut v: Vec<u8> = Vec::new();
    let mut k: usize = 0;
    while k < n
        invariant
            k <= n,
            v@ == Seq::new(k as nat, |i: int| 0u8),
        decreases n - k,
    {
        v.push(0);
        k = k + 1;
        assert(v@ =~= Seq::new(k as nat, |i: int| 0u8));
    }
    v
}

/// Whether two buffers hold the same bytes.
pub fn bytes_eq(a: &[u8], b: &[u8]) -> (r: bool)
    ensures
        r == (a@ == b@),
{
    if a.len() != b.len() {
        return false;
    }
    let mut k: usize = 0;
    while k < a.len()
        invariant
            a@.len() == b@.len(),
            k <= a@.len(),
            forall|j: int| 0 <= j < k ==> a@[j] == b@[j],
        decreases a@.len() - k,
    {
        if a[k] != b[k] {
            return false;
        }
        k = k + 1;
    }
    assert(a@ =~= b@);
    true
}

} // verus!
