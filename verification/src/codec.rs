//! Big-endian integer encoding, and the calls into the `bytes` crate that the
//! block and table formats are written and read with.

use bytes::{Buf, BufMut, Bytes};
use vstd::prelude::*;

verus! {

/// The two big-endian bytes of a `u16`.
pub open spec fn be16(v: u16) -> Seq<u8> {
    seq![(v / 256) as u8, (v % 256) as u8]
}

/// The four big-endian bytes of a `u32`.
pub open spec fn be32(v: u32) -> Seq<u8> {
    seq![(v / 0x100_0000) as u8, ((v / 0x1_0000) % 256) as u8, ((v / 256) % 256) as u8, (v % 256) as u8]
}

/// The `u16` stored big-endian at position `off` of `s`.
pub open spec fn read_be16(s: Seq<u8>, off: int) -> u16 {
    (s[off] * 256 + s[off + 1]) as u16
}

/// Reading back the bytes of `be16(v)` gives `v`.
pub proof fn lemma_be16_roundtrip(v: u16)
    ensures
        read_be16(be16(v), 0) == v,
{
}

/// Reading `be16(v)` placed at `off` inside a longer string gives `v`.
pub proof fn lemma_read_be16_at(s: Seq<u8>, off: int, v: u16)
    requires
        0 <= off,
        off + 2 <= s.len(),
        s.subrange(off, off + 2) == be16(v),
    ensures
        read_be16(s, off) == v,
{
    assert(s[off] == be16(v)[0]);
    assert(s[off + 1] == be16(v)[1]);
}

/// Declares `bytes::Bytes` to Verus.
#[verifier::external_type_specification]
#[verifier::external_body]
pub struct ExBytes(Bytes);

/// The bytes that a `bytes::Bytes` holds.
pub uninterp spec fn bytes_contents(b: Bytes) -> Seq<u8>;

/// Calls `BufMut::put_u16` on a `Vec<u8>`, which appends the two big-endian
/// bytes of `n` (`put_slice(&n.to_be_bytes())`, and `put_slice` on a vector is
/// `extend_from_slice`).
#[verifier::external_body]
pub(crate) fn put_u16(buf: &mut Vec<u8>, n: u16)
    ensures
        final(buf)@ == old(buf)@ + be16(n),
{
    buf.put_u16(n)
}

/// Calls `BufMut::put_u32` on a `Vec<u8>`, which appends the four big-endian
/// bytes of `n`.
#[verifier::external_body]
pub(crate) fn put_u32(buf: &mut Vec<u8>, n: u32)
    ensures
        final(buf)@ == old(buf)@ + be32(n),
{
    buf.put_u32(n)
}

/// Calls `BufMut::put_slice` on a `Vec<u8>`, which appends `src`.
#[verifier::external_body]
pub(crate) fn put_slice(buf: &mut Vec<u8>, src: &[u8])
    ensures
        final(buf)@ == old(buf)@ + src@,
{
    buf.put_slice(src)
}

/// Calls `Buf::get_u16` on a byte slice: the big-endian `u16` in its first two
/// bytes. The call panics on fewer than two bytes, which `requires` rules out.
#[verifier::external_body]
pub(crate) fn get_u16(buf: &[u8]) -> (r: u16)
    requires
        buf@.len() >= 2,
    ensures
        r == read_be16(buf@, 0),
{
    let mut cursor: &[u8] = buf;
    cursor.get_u16()
}

/// Calls `Bytes::from` on a vector: the `Bytes` holds the vector's bytes.
#[verifier::external_body]
pub(crate) fn bytes_from_vec(v: Vec<u8>) -> (b: Bytes)
    ensures
        bytes_contents(b) == v@,
{
    Bytes::from(v)
}

/// Calls `Bytes::copy_from_slice`: the `Bytes` holds a copy of the slice.
#[verifier::external_body]
pub(crate) fn bytes_copy_from_slice(s: &[u8]) -> (b: Bytes)
    ensures
        bytes_contents(b) == s@,
{
    Bytes::copy_from_slice(s)
}

/// Calls `Vec::<u8>::from` on a `Bytes`: the vector holds the same bytes.
#[verifier::external_body]
pub(crate) fn bytes_into_vec(b: Bytes) -> (v: Vec<u8>)
    ensures
        v@ == bytes_contents(b),
{
    Vec::from(b)
}

} // verus!
