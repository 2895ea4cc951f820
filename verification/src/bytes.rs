//! Big-endian byte access: the mathematical meaning of a big-endian word in a
//! byte sequence, the byteorder calls that read and write such words, and the
//! laws that tie reads to writes.
use vstd::prelude::*;
use byteorder::{BigEndian, ByteOrder};

verus! {

/// The 32-bit value whose big-endian bytes are `b0 b1 b2 b3`.
pub open spec fn be_u32(b0: u8, b1: u8, b2: u8, b3: u8) -> u32 {
    ((b0 as u32) << 24u32) | ((b1 as u32) << 16u32) | ((b2 as u32) << 8u32) | (b3 as u32)
}

/// The 16-bit value whose big-endian bytes are `b0 b1`.
pub open spec fn be_u16(b0: u8, b1: u8) -> u16 {
    ((b0 as u16) << 8u16) | (b1 as u16)
}

/// The big-endian 32-bit word stored at `i .. i + 4` of `s`.
pub open spec fn be_u32_at(s: Seq<u8>, i: int) -> u32 {
    be_u32(s[i], s[i + 1], s[i + 2], s[i + 3])
}

/// The big-endian 16-bit word stored at `i .. i + 2` of `s`.
pub open spec fn be_u16_at(s: Seq<u8>, i: int) -> u16 {
    be_u16(s[i], s[i + 1])
}

/// Byte `k` (0 is the most significant) of the big-endian encoding of `v`.
pub open spec fn u32_byte(v: u32, k: int) -> u8 {
    if k == 0 {
        ((v >> 24u32) & 0xffu32) as u8
    } else if k == 1 {
        ((v >> 16u32) & 0xffu32) as u8
    } else if k == 2 {
        ((v >> 8u32) & 0xffu32) as u8
    } else {
        (v & 0xffu32) as u8
    }
}

/// `s` with the big-endian encoding of `v` written at `i .. i + 4`.
pub open spec fn set_be_u32(s: Seq<u8>, i: int, v: u32) -> Seq<u8> {
    s.update(i, u32_byte(v, 0)).update(i + 1, u32_byte(v, 1)).update(i + 2, u32_byte(v, 2)).update(
        i + 3,
        u32_byte(v, 3),
    )
}

/// `s` with the big-endian encoding of `v` written at `i .. i + 2`.
pub open spec fn set_be_u16(s: Seq<u8>, i: int, v: u16) -> Seq<u8> {
    s.update(i, ((v >> 8u16) & 0xffu16) as u8).update(i + 1, (v & 0xffu16) as u8)
}

/// Reads the big-endian word at `pos` of `buf` with `byteorder::BigEndian::read_u32`,
/// which decodes the first four bytes of the slice it is given (and panics on a
/// shorter one, which `requires` rules out).
#[verifier::external_body]
pub(crate) fn be_read_u32(buf: &[u8], pos: usize) -> (r: u32)
    requires
        pos + 4 <= buf@.len(),
    ensures
        r == be_u32_at(buf@, pos as int),
{
    BigEndian::read_u32(&buf[pos..])
}

/// Reads the big-endian half-word at `pos` of `buf` with
/// `byteorder::BigEndian::read_u16`, which decodes the first two bytes of its slice.
#[verifier::external_body]
pub(crate) fn be_read_u16(buf: &[u8], pos: usize) -> (r: u16)
    requires
        pos + 2 <= buf@.len(),
    ensures
        r == be_u16_at(buf@, pos as int),
{
    BigEndian::read_u16(&buf[pos..])
}

/// Writes `v` big-endian at `pos` of `buf` with `byteorder::BigEndian::write_u32`,
/// which copies `v.to_be_bytes()` over the first four bytes of its slice and
/// touches nothing else.
#[verifier::external_body]
pub(crate) fn be_write_u32(buf: &mut Vec<u8>, pos: usize, v: u32)
    requires
        pos + 4 <= old(buf)@.len(),
    ensures
        final(buf)@ == set_be_u32(old(buf)@, pos as int, v),
{
    BigEndian::write_u32(&mut buf[pos..], v)
}

/// Writes `v` big-endian at `pos` of `buf` with `byteorder::BigEndian::write_u16`,
/// which copies `v.to_be_bytes()` over the first two bytes of its slice and
/// touches nothing else.
#[verifier::external_body]
pub(crate) fn be_write_u16(buf: &mut Vec<u8>, pos: usize, v: u16)
    requires
        pos + 2 <= old(buf)@.len(),
    ensures
        final(buf)@ == set_be_u16(old(buf)@, pos as int, v),
{
    BigEndian::write_u16(&mut buf[pos..], v)
}

/// Splitting a word into its four big-endian bytes and joining them again gives
/// the word back.
pub proof fn lemma_u32_bytes_roundtrip(v: u32)
    ensures
        be_u32(u32_byte(v, 0), u32_byte(v, 1), u32_byte(v, 2), u32_byte(v, 3)) == v,
{
    assert((((((v >> 24u32) & 0xffu32) as u8) as u32) << 24u32) | (((((v >> 16u32) & 0xffu32) as u8) as u32) << 16u32)
        | (((((v >> 8u32) & 0xffu32) as u8) as u32) << 8u32) | (((v & 0xffu32) as u8) as u32) == v)
        by (bit_vector);
}

/// Splitting a half-word into its two big-endian bytes and joining them again
/// gives the half-word back.
pub proof fn lemma_u16_bytes_roundtrip(v: u16)
    ensures
        be_u16(((v >> 8u16) & 0xffu16) as u8, (v & 0xffu16) as u8) == v,
{
    assert((((((v >> 8u16) & 0xffu16) as u8) as u16) << 8u16) | (((v & 0xffu16) as u8) as u16) == v)
        by (bit_vector);
}

/// Read after write: the word read back at the place where `v` was written is `v`.
pub proof fn lemma_read_after_write_u32(s: Seq<u8>, i: int, v: u32)
    requires
        0 <= i,
        i + 4 <= s.len(),
    ensures
        set_be_u32(s, i, v).len() == s.len(),
        be_u32_at(set_be_u32(s, i, v), i) == v,
{
    lemma_u32_bytes_roundtrip(v);
}

/// Read after write for half-words.
pub proof fn lemma_read_after_write_u16(s: Seq<u8>, i: int, v: u16)
    requires
        0 <= i,
        i + 2 <= s.len(),
    ensures
        set_be_u16(s, i, v).len() == s.len(),
        be_u16_at(set_be_u16(s, i, v), i) == v,
{
    lemma_u16_bytes_roundtrip(v);
}

/// A write touches only its own four bytes: every other byte keeps its value.
pub proof fn lemma_write_u32_frame(s: Seq<u8>, i: int, v: u32, j: int)
    requires
        0 <= i,
        i + 4 <= s.len(),
        0 <= j < s.len(),
        j < i || i + 4 <= j,
    ensures
        set_be_u32(s, i, v)[j] == s[j],
{
}

/// A half-word write touches only its own two bytes.
pub proof fn lemma_write_u16_frame(s: Seq<u8>, i: int, v: u16, j: int)
    requires
        0 <= i,
        i + 2 <= s.len(),
        0 <= j < s.len(),
        j < i || i + 2 <= j,
    ensures
        set_be_u16(s, i, v)[j] == s[j],
{
}

} // verus!
