//! Big-endian integers as byte sequences, and comparison of byte strings.

use vstd::prelude::*;

verus! {

/// The two bytes of `n`, most significant first; `n` is taken modulo `0x1_0000`.
#[verifier::opaque]
pub open spec fn be16_bytes(n: int) -> Seq<u8> {
    seq![((n / 256) % 256) as u8, (n % 256) as u8]
}

/// The four bytes of `n`, most significant first; `n` is taken modulo `0x1_0000_0000`.
#[verifier::opaque]
pub open spec fn be32_bytes(n: int) -> Seq<u8> {
    be16_bytes((n / 0x1_0000) % 0x1_0000) + be16_bytes(n % 0x1_0000)
}

/// The eight bytes of `n`, most significant first; `n` is taken modulo
/// `0x1_0000_0000_0000_0000`.
#[verifier::opaque]
pub open spec fn be64_bytes(n: int) -> Seq<u8> {
    be32_bytes((n / 0x1_0000_0000) % 0x1_0000_0000) + be32_bytes(n % 0x1_0000_0000)
}

/// The number that the first two bytes of `s` denote, most significant first.
pub open spec fn be16_value(s: Seq<u8>) -> int {
    s[0] * 256 + s[1]
}

/// The number that the first four bytes of `s` denote, most significant first.
pub open spec fn be32_value(s: Seq<u8>) -> int {
    be16_value(s.take(2)) * 0x1_0000 + be16_value(s.subrange(2, 4))
}

/// The number that the first eight bytes of `s` denote, most significant first.
pub open spec fn be64_value(s: Seq<u8>) -> int {
    be32_value(s.take(4)) * 0x1_0000_0000 + be32_value(s.subrange(4, 8))
}

/// Reading back two big-endian bytes gives the number that was written.
pub proof fn lemma_be16_roundtrip(n: int)
    requires
        0 <= n < 0x1_0000,
    ensures
        be16_bytes(n).len() == 2,
        be16_value(be16_bytes(n)) == n,
{
    reveal(be16_bytes);
}

/// Reading back four big-endian bytes gives the number that was written.
pub proof fn lemma_be32_roundtrip(n: int)
    requires
        0 <= n < 0x1_0000_0000,
    ensures
        be32_bytes(n).len() == 4,
        be32_value(be32_bytes(n)) == n,
{
    reveal(be32_bytes);
    let hi = n / 0x1_0000;
    let lo = n % 0x1_0000;
    assert(hi % 0x1_0000 == hi);
    lemma_be16_roundtrip(hi);
    lemma_be16_roundtrip(lo);
    assert(be32_bytes(n).take(2) =~= be16_bytes(hi));
    assert(be32_bytes(n).subrange(2, 4) =~= be16_bytes(lo));
}

/// Reading back eight big-endian bytes gives the number that was written.
pub proof fn lemma_be64_roundtrip(n: int)
    requires
        0 <= n <= u64::MAX,
    ensures
        be64_bytes(n).len() == 8,
        be64_value(be64_bytes(n)) == n,
{
    reveal(be64_bytes);
    let hi = n / 0x1_0000_0000;
    let lo = n % 0x1_0000_0000;
    assert(hi % 0x1_0000_0000 == hi);
    lemma_be32_roundtrip(hi);
    lemma_be32_roundtrip(lo);
    assert(be64_bytes(n).take(4) =~= be32_bytes(hi));
    assert(be64_bytes(n).subrange(4, 8) =~= be32_bytes(lo));
}

/// The big-endian forms have two, four and eight bytes, whatever the number.
pub broadcast proof fn lemma_be16_len(n: int)
    ensures
        (#[trigger] be16_bytes(n)).len() == 2,
{
    reveal(be16_bytes);
}

/// Four big-endian bytes are four, whatever the number.
pub broadcast proof fn lemma_be32_len(n: int)
    ensures
        (#[trigger] be32_bytes(n)).len() == 4,
{
    broadcast use lemma_be16_len;

    reveal(be32_bytes);
}

/// Eight big-endian bytes are eight, whatever the number.
pub broadcast proof fn lemma_be64_len(n: int)
    ensures
        (#[trigger] be64_bytes(n)).len() == 8,
{
    broadcast use lemma_be32_len;

    reveal(be64_bytes);
}

pub broadcast group group_be_len {
    lemma_be16_len,
    lemma_be32_len,
    lemma_be64_len,
}

/// Two bytes are the big-endian form of the number that they denote.
pub proof fn lemma_be16_canonical(s: Seq<u8>)
    requires
        s.len() == 2,
    ensures
        be16_bytes(be16_value(s)) == s,
        0 <= be16_value(s) < 0x1_0000,
{
    reveal(be16_bytes);
    assert(be16_bytes(be16_value(s)) =~= s);
}

/// Four bytes are the big-endian form of the number that they denote.
pub proof fn lemma_be32_canonical(s: Seq<u8>)
    requires
        s.len() == 4,
    ensures
        be32_bytes(be32_value(s)) == s,
        0 <= be32_value(s) < 0x1_0000_0000,
{
    reveal(be32_bytes);
    let n = be32_value(s);
    let hi = be16_value(s.take(2));
    let lo = be16_value(s.subrange(2, 4));
    lemma_be16_canonical(s.take(2));
    lemma_be16_canonical(s.subrange(2, 4));
    assert(n / 0x1_0000 == hi && n % 0x1_0000 == lo && hi % 0x1_0000 == hi);
    assert(be32_bytes(n) =~= s);
}

/// Eight bytes are the big-endian form of the number that they denote.
pub proof fn lemma_be64_canonical(s: Seq<u8>)
    requires
        s.len() == 8,
    ensures
        be64_bytes(be64_value(s)) == s,
        0 <= be64_value(s) <= u64::MAX,
{
    reveal(be64_bytes);
    let n = be64_value(s);
    let hi = be32_value(s.take(4));
    let lo = be32_value(s.subrange(4, 8));
    lemma_be32_canonical(s.take(4));
    lemma_be32_canonical(s.subrange(4, 8));
    assert(n / 0x1_0000_0000 == hi && n % 0x1_0000_0000 == lo && hi % 0x1_0000_0000 == hi);
    assert(be64_bytes(n) =~= s);
}

/// Four big-endian bytes say a number modulo `0x1_0000_0000`.
pub proof fn lemma_be32_mod(n: int)
    requires
        0 <= n,
    ensures
        be32_bytes(n % 0x1_0000_0000) == be32_bytes(n),
{
    reveal(be32_bytes);
    let m = n % 0x1_0000_0000;
    let q = n / 0x1_0000_0000;
    assert(n == q * 0x1_0000_0000 + m);
    assert(n / 0x1_0000 == q * 0x1_0000 + m / 0x1_0000);
    assert(n % 0x1_0000 == m % 0x1_0000);
    assert((n / 0x1_0000) % 0x1_0000 == (m / 0x1_0000) % 0x1_0000);
}

/// Append `n` as two big-endian bytes.
pub fn push_be16(out: &mut Vec<u8>, n: u16)
    ensures
        final(out)@ == old(out)@ + be16_bytes(n as int),
{
    reveal(be16_bytes);
    out.push((n / 256) as u8);
    out.push((n % 256) as u8);
    assert(out@ =~= old(out)@ + be16_bytes(n as int));
}

/// Append `n` as four big-endian bytes.
pub fn push_be32(out: &mut Vec<u8>, n: u32)
    ensures
        final(out)@ == old(out)@ + be32_bytes(n as int),
{
    reveal(be32_bytes);
    let hi: u32 = n / 0x1_0000;
    let lo: u32 = n % 0x1_0000;
    assert(hi as int % 0x1_0000 == hi);
    push_be16(out, hi as u16);
    push_be16(out, lo as u16);
    assert(out@ =~= old(out)@ + be32_bytes(n as int));
}

/// Append a length as four big-endian bytes, modulo `0x1_0000_0000`.
pub fn push_len32(out: &mut Vec<u8>, n: usize)
    ensures
        final(out)@ == old(out)@ + be32_bytes(n as int),
{
    let low: u64 = n as u64 % 0x1_0000_0000;
    push_be32(out, low as u32);
    proof {
        lemma_be32_mod(n as int);
    }
}

/// Append `n` as eight big-endian bytes.
pub fn push_be64(out: &mut Vec<u8>, n: u64)
    ensures
        final(out)@ == old(out)@ + be64_bytes(n as int),
{
    reveal(be64_bytes);
    let hi: u64 = n / 0x1_0000_0000;
    let lo: u64 = n % 0x1_0000_0000;
    assert(hi as int % 0x1_0000_0000 == hi);
    push_be32(out, hi as u32);
    push_be32(out, lo as u32);
    assert(out@ =~= old(out)@ + be64_bytes(n as int));
}

/// The number that two big-endian bytes denote.
pub fn be16(b: &[u8; 2]) -> (n: u16)
    ensures
        n == be16_value(b@),
{
    (b[0] as u16) * 256 + b[1] as u16
}

/// The number that four big-endian bytes denote.
pub fn be32(b: &[u8; 4]) -> (n: u32)
    ensures
        n == be32_value(b@),
{
    let hi = [b[0], b[1]];
    let lo = [b[2], b[3]];
    let n: u32 = (be16(&hi) as u32) * 0x1_0000 + be16(&lo) as u32;
    assert(hi@ =~= b@.take(2));
    assert(lo@ =~= b@.subrange(2, 4));
    n
}

/// The number that eight big-endian bytes denote.
pub fn be64(b: &[u8; 8]) -> (n: u64)
    ensures
        n == be64_value(b@),
{
    let hi = [b[0], b[1], b[2], b[3]];
    let lo = [b[4], b[5], b[6], b[7]];
    let n: u64 = (be32(&hi) as u64) * 0x1_0000_0000 + be32(&lo) as u64;
    assert(hi@ =~= b@.take(4));
    assert(lo@ =~= b@.subrange(4, 8));
    n
}

/// Append a byte slice.
pub fn push_bytes(out: &mut Vec<u8>, bytes: &[u8])
    ensures
        final(out)@ == old(out)@ + bytes@,
{
    out.extend_from_slice(bytes);
    assert(out@ =~= old(out)@ + bytes@);
}

/// Whether two byte slices hold the same bytes.
pub fn bytes_eq(a: &[u8], b: &[u8]) -> (same: bool)
    ensures
        same == (a@ == b@),
{
    if a.len() != b.len() {
        return false;
    }
    let mut i: usize = 0;
    while i < a.len()
        invariant
            a@.len() == b@.len(),
            0 <= i <= a@.len(),
            forall|j: int| 0 <= j < i ==> a@[j] == b@[j],
        decreases a@.len() - i,
    {
        if a[i] != b[i] {
            return false;
        }
        i = i + 1;
    }
    assert(a@ =~= b@);
    true
}

/// The most significant byte comes first.
pub proof fn law_big_endian(s: Seq<u8>)
    ensures
        s.len() >= 2 ==> be16_value(s) == s[0] * 0x100 + s[1],
        s.len() >= 4 ==> be32_value(s) == s[0] * 0x100_0000 + s[1] * 0x1_0000 + s[2] * 0x100 + s[3],
        s.len() >= 8 ==> be64_value(s) == s[0] * 0x100_0000_0000_0000 + s[1] * 0x1_0000_0000_0000
            + s[2] * 0x100_0000_0000 + s[3] * 0x1_0000_0000 + s[4] * 0x100_0000 + s[5] * 0x1_0000
            + s[6] * 0x100 + s[7],
{
}

} // verus!
