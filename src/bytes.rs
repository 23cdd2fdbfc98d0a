//! Little-endian encoding of integers, through `byteorder`.

use byteorder::{ByteOrder, LittleEndian};
use vstd::prelude::*;

verus! {

/// The four bytes of `x`, least significant first.
pub open spec fn le_u32_bytes(x: u32) -> Seq<u8> {
    seq![x as u8, (x >> 8u32) as u8, (x >> 16u32) as u8, (x >> 24u32) as u8]
}

/// The eight bytes of `x`, least significant first.
pub open spec fn le_u64_bytes(x: u64) -> Seq<u8> {
    le_u32_bytes(x as u32) + le_u32_bytes((x >> 32u64) as u32)
}

/// The integer whose little-endian bytes are the first four of `s`.
pub open spec fn le_u32(s: Seq<u8>) -> u32 {
    (s[0] as u32) | ((s[1] as u32) << 8u32) | ((s[2] as u32) << 16u32) | ((s[3] as u32) << 24u32)
}

/// The integer whose little-endian bytes are the first eight of `s`.
pub open spec fn le_u64(s: Seq<u8>) -> u64 {
    (le_u32(s.subrange(0, 4)) as u64) | ((le_u32(s.subrange(4, 8)) as u64) << 32u64)
}

/// The little-endian `u32` stored at byte offset `at` of `b`.
pub open spec fn u32_at(b: Seq<u8>, at: int) -> u32 {
    le_u32(b.subrange(at, at + 4))
}

/// The little-endian `u64` stored at byte offset `at` of `b`.
pub open spec fn u64_at(b: Seq<u8>, at: int) -> u64 {
    le_u64(b.subrange(at, at + 8))
}

/// `count` little-endian `u32` values stored one after another from offset `at`.
pub open spec fn u32s_at(b: Seq<u8>, at: int, count: int) -> Seq<u32> {
    Seq::new(count as nat, |i: int| u32_at(b, at + 4 * i))
}

/// The little-endian bytes of each value of `s`, in order.
pub open spec fn le_u32s_bytes(s: Seq<u32>) -> Seq<u8> {
    Seq::new(4 * s.len(), |j: int| le_u32_bytes(s[j / 4])[j % 4])
}

pub proof fn lemma_le_u32_round_trip(x: u32)
    ensures
        le_u32(le_u32_bytes(x)) == x,
{
    let b = le_u32_bytes(x);
    assert(b[0] == x as u8 && b[1] == (x >> 8u32) as u8 && b[2] == (x >> 16u32) as u8 && b[3]
        == (x >> 24u32) as u8);
    assert(((x as u8) as u32) | ((((x >> 8u32) as u8) as u32) << 8u32) | ((((x >> 16u32) as u8)
        as u32) << 16u32) | ((((x >> 24u32) as u8) as u32) << 24u32) == x) by (bit_vector);
}

pub proof fn lemma_le_u64_round_trip(x: u64)
    ensures
        le_u64(le_u64_bytes(x)) == x,
{
    let b = le_u64_bytes(x);
    lemma_le_u32_round_trip(x as u32);
    lemma_le_u32_round_trip((x >> 32u64) as u32);
    assert(b.subrange(0, 4) =~= le_u32_bytes(x as u32));
    assert(b.subrange(4, 8) =~= le_u32_bytes((x >> 32u64) as u32));
    assert((((x as u32) as u64) | ((((x >> 32u64) as u32) as u64) << 32u64)) == x) by (bit_vector);
}

/// Each group of four bytes of `le_u32s_bytes(s)` decodes to the matching value of `s`.
pub proof fn lemma_le_u32s_round_trip(s: Seq<u32>, b: Seq<u8>, at: int)
    requires
        0 <= at,
        at + 4 * s.len() <= b.len(),
        b.subrange(at, at + 4 * s.len()) == le_u32s_bytes(s),
    ensures
        u32s_at(b, at, s.len() as int) == s,
{
    assert forall|i: int| 0 <= i < s.len() implies u32_at(b, at + 4 * i) == s[i] by {
        assert(b.subrange(at + 4 * i, at + 4 * i + 4) =~= le_u32_bytes(s[i])) by {
            assert forall|j: int| 0 <= j < 4 implies b[at + 4 * i + j] == le_u32_bytes(s[i])[j] by {
                assert(b.subrange(at, at + 4 * s.len())[4 * i + j] == b[at + 4 * i + j]);
                assert((4 * i + j) / 4 == i);
                assert((4 * i + j) % 4 == j);
            }
        }
        lemma_le_u32_round_trip(s[i]);
    }
    assert(u32s_at(b, at, s.len() as int) =~= s);
}

/// Appending one value's bytes extends the encoding of a sequence by that value.
pub proof fn lemma_le_u32s_bytes_push(s: Seq<u32>, x: u32)
    ensures
        le_u32s_bytes(s.push(x)) == le_u32s_bytes(s) + le_u32_bytes(x),
{
    let l = le_u32s_bytes(s.push(x));
    let r = le_u32s_bytes(s) + le_u32_bytes(x);
    assert forall|j: int| 0 <= j < l.len() implies l[j] == r[j] by {
        if j < 4 * s.len() {
            assert(j / 4 < s.len()) by (nonlinear_arith)
                requires
                    0 <= j < 4 * s.len(),
            ;
        } else {
            assert(j / 4 == s.len());
            assert(j % 4 == j - 4 * s.len());
        }
    }
    assert(l =~= r);
}

/// Relies on byteorder's `LittleEndian::write_u32`: it stores the bytes of
/// `x`, least significant first.
#[verifier::external_body]
fn u32_le_bytes(x: u32) -> (r: [u8; 4])
    ensures
        r@ == le_u32_bytes(x),
{
    let mut buf = [0u8; 4];
    LittleEndian::write_u32(&mut buf, x);
    buf
}

/// Relies on byteorder's `LittleEndian::write_u64`: it stores the bytes of
/// `x`, least significant first.
#[verifier::external_body]
fn u64_le_bytes(x: u64) -> (r: [u8; 8])
    ensures
        r@ == le_u64_bytes(x),
{
    let mut buf = [0u8; 8];
    LittleEndian::write_u64(&mut buf, x);
    buf
}

/// Relies on byteorder's `LittleEndian::read_u32`: it reads the first four
/// bytes of its slice as a little-endian integer.
#[verifier::external_body]
pub(crate) fn read_u32_at(b: &[u8], at: usize) -> (r: u32)
    requires
        at + 4 <= b@.len(),
    ensures
        r == u32_at(b@, at as int),
{
    LittleEndian::read_u32(&b[at..at + 4])
}

/// Relies on byteorder's `LittleEndian::read_u64`: it reads the first eight
/// bytes of its slice as a little-endian integer.
#[verifier::external_body]
pub(crate) fn read_u64_at(b: &[u8], at: usize) -> (r: u64)
    requires
        at + 8 <= b@.len(),
    ensures
        r == u64_at(b@, at as int),
{
    LittleEndian::read_u64(&b[at..at + 8])
}

/// Appends the little-endian bytes of `x`.
pub(crate) fn push_u32(out: &mut Vec<u8>, x: u32)
    ensures
        final(out)@ == old(out)@ + le_u32_bytes(x),
{
    let b = u32_le_bytes(x);
    let mut i: usize = 0;
    while i < 4
        invariant
            i <= 4,
            b@ == le_u32_bytes(x),
            out@ == old(out)@ + b@.subrange(0, i as int),
        decreases 4 - i,
    {
        out.push(b[i]);
        assert(b@.subrange(0, i + 1) =~= b@.subrange(0, i as int).push(b@[i as int]));
        i = i + 1;
    }
    assert(b@.subrange(0, 4) =~= b@);
}

/// Appends the little-endian bytes of `x`.
pub(crate) fn push_u64(out: &mut Vec<u8>, x: u64)
    ensures
        final(out)@ == old(out)@ + le_u64_bytes(x),
{
    let b = u64_le_bytes(x);
    let mut i: usize = 0;
    while i < 8
        invariant
            i <= 8,
            b@ == le_u64_bytes(x),
            out@ == old(out)@ + b@.subrange(0, i as int),
        decreases 8 - i,
    {
        out.push(b[i]);
        assert(b@.subrange(0, i + 1) =~= b@.subrange(0, i as int).push(b@[i as int]));
        i = i + 1;
    }
    assert(b@.subrange(0, 8) =~= b@);
}

} // verus!
