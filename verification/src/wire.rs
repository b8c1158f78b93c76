//! Big-endian integers on the wire, read and written through the `bytes` crate.
use vstd::prelude::*;

use bytes::{Buf, BufMut, TryGetError};

verus! {

/// `bytes::TryGetError`: a read asked for more bytes than were left.
#[verifier::external_type_specification]
#[verifier::external_body]
pub struct ExTryGetError(TryGetError);

/// The big-endian value of the four bytes of `s` that start at `i`.
#[verifier::opaque]
pub open spec fn be_u32_at(s: Seq<u8>, i: int) -> u32 {
    (s[i] as u32) << 24u32 | (s[i + 1] as u32) << 16u32 | (s[i + 2] as u32) << 8u32 | (s[i + 3] as u32)
}

/// The big-endian value of the eight bytes of `s` that start at `i`.
#[verifier::opaque]
pub open spec fn be_u64_at(s: Seq<u8>, i: int) -> u64 {
    (s[i] as u64) << 56u64 | (s[i + 1] as u64) << 48u64 | (s[i + 2] as u64) << 40u64 | (s[i + 3] as u64)
        << 32u64 | (s[i + 4] as u64) << 24u64 | (s[i + 5] as u64) << 16u64 | (s[i + 6] as u64)
        << 8u64 | (s[i + 7] as u64)
}

/// The four bytes of `v`, most significant first.
pub open spec fn u32_be(v: u32) -> Seq<u8> {
    seq![(v >> 24u32) as u8, (v >> 16u32) as u8, (v >> 8u32) as u8, v as u8]
}

/// The eight bytes of `v`, most significant first.
pub open spec fn u64_be(v: u64) -> Seq<u8> {
    seq![
        (v >> 56u64) as u8,
        (v >> 48u64) as u8,
        (v >> 40u64) as u8,
        (v >> 32u64) as u8,
        (v >> 24u64) as u8,
        (v >> 16u64) as u8,
        (v >> 8u64) as u8,
        v as u8,
    ]
}

/// Reading four bytes back gives the `u32` that was written, wherever they stand.
pub proof fn lemma_u32_roundtrip(v: u32, s: Seq<u8>, i: int)
    requires
        0 <= i,
        i + 4 <= s.len(),
        s.subrange(i, i + 4) == u32_be(v),
    ensures
        be_u32_at(s, i) == v,
{
    reveal(be_u32_at);
    assert(s[i] == u32_be(v)[0]);
    assert(s[i + 1] == u32_be(v)[1]);
    assert(s[i + 2] == u32_be(v)[2]);
    assert(s[i + 3] == u32_be(v)[3]);
    let b0 = s[i];
    let b1 = s[i + 1];
    let b2 = s[i + 2];
    let b3 = s[i + 3];
    assert(b0 == (v >> 24u32) as u8 && b1 == (v >> 16u32) as u8 && b2 == (v >> 8u32) as u8 && b3
        == v as u8 ==> ((b0 as u32) << 24u32 | (b1 as u32) << 16u32 | (b2 as u32) << 8u32 | (
    b3 as u32)) == v) by (bit_vector);
}

/// Reading eight bytes back gives the `u64` that was written, wherever they stand.
pub proof fn lemma_u64_roundtrip(v: u64, s: Seq<u8>, i: int)
    requires
        0 <= i,
        i + 8 <= s.len(),
        s.subrange(i, i + 8) == u64_be(v),
    ensures
        be_u64_at(s, i) == v,
{
    reveal(be_u64_at);
    assert(s[i] == u64_be(v)[0]);
    assert(s[i + 1] == u64_be(v)[1]);
    assert(s[i + 2] == u64_be(v)[2]);
    assert(s[i + 3] == u64_be(v)[3]);
    assert(s[i + 4] == u64_be(v)[4]);
    assert(s[i + 5] == u64_be(v)[5]);
    assert(s[i + 6] == u64_be(v)[6]);
    assert(s[i + 7] == u64_be(v)[7]);
    let b0 = s[i];
    let b1 = s[i + 1];
    let b2 = s[i + 2];
    let b3 = s[i + 3];
    let b4 = s[i + 4];
    let b5 = s[i + 5];
    let b6 = s[i + 6];
    let b7 = s[i + 7];
    assert(b0 == (v >> 56u64) as u8 && b1 == (v >> 48u64) as u8 && b2 == (v >> 40u64) as u8 && b3
        == (v >> 32u64) as u8 && b4 == (v >> 24u64) as u8 && b5 == (v >> 16u64) as u8 && b6 == (v
        >> 8u64) as u8 && b7 == v as u8 ==> ((b0 as u64) << 56u64 | (b1 as u64) << 48u64 | (
    b2 as u64) << 40u64 | (b3 as u64) << 32u64 | (b4 as u64) << 24u64 | (b5 as u64) << 16u64 | (
    b6 as u64) << 8u64 | (b7 as u64)) == v) by (bit_vector);
}

/// Writing back the `u32` read at `i` gives the four bytes it was read from.
pub proof fn lemma_u32_bytes(s: Seq<u8>, i: int)
    requires
        0 <= i,
        i + 4 <= s.len(),
    ensures
        u32_be(be_u32_at(s, i)) == s.subrange(i, i + 4),
{
    reveal(be_u32_at);
    let b0 = s[i];
    let b1 = s[i + 1];
    let b2 = s[i + 2];
    let b3 = s[i + 3];
    let v = be_u32_at(s, i);
    assert(v == ((b0 as u32) << 24u32 | (b1 as u32) << 16u32 | (b2 as u32) << 8u32 | (b3 as u32))
        ==> b0 == (v >> 24u32) as u8 && b1 == (v >> 16u32) as u8 && b2 == (v >> 8u32) as u8 && b3
        == v as u8) by (bit_vector);
    assert(u32_be(v) =~= s.subrange(i, i + 4));
}

/// Writing back the `u64` read at `i` gives the eight bytes it was read from.
pub proof fn lemma_u64_bytes(s: Seq<u8>, i: int)
    requires
        0 <= i,
        i + 8 <= s.len(),
    ensures
        u64_be(be_u64_at(s, i)) == s.subrange(i, i + 8),
{
    reveal(be_u64_at);
    let b0 = s[i];
    let b1 = s[i + 1];
    let b2 = s[i + 2];
    let b3 = s[i + 3];
    let b4 = s[i + 4];
    let b5 = s[i + 5];
    let b6 = s[i + 6];
    let b7 = s[i + 7];
    let v = be_u64_at(s, i);
    assert(v == ((b0 as u64) << 56u64 | (b1 as u64) << 48u64 | (b2 as u64) << 40u64 | (b3 as u64)
        << 32u64 | (b4 as u64) << 24u64 | (b5 as u64) << 16u64 | (b6 as u64) << 8u64 | (b7 as u64))
        ==> b0 == (v >> 56u64) as u8 && b1 == (v >> 48u64) as u8 && b2 == (v >> 40u64) as u8 && b3
        == (v >> 32u64) as u8 && b4 == (v >> 24u64) as u8 && b5 == (v >> 16u64) as u8 && b6 == (v
        >> 8u64) as u8 && b7 == v as u8) by (bit_vector);
    assert(u64_be(v) =~= s.subrange(i, i + 8));
}

/// `bytes::Buf::try_get_u8` on the bytes of `buf` from `pos` on: the byte at
/// `pos`, or an error when no byte is left.
#[verifier::external_body]
pub(crate) fn get_u8(buf: &[u8], pos: usize) -> (r: Result<u8, TryGetError>)
    requires
        pos <= buf@.len(),
    ensures
        r is Ok <==> pos + 1 <= buf@.len(),
        r matches Ok(v) ==> v == buf@[pos as int],
{
    let mut rest: &[u8] = &buf[pos..];
    rest.try_get_u8()
}

/// `bytes::Buf::try_get_i8` on the bytes of `buf` from `pos` on: the byte at
/// `pos` read as a signed integer, or an error when no byte is left.
#[verifier::external_body]
pub(crate) fn get_i8(buf: &[u8], pos: usize) -> (r: Result<i8, TryGetError>)
    requires
        pos <= buf@.len(),
    ensures
        r is Ok <==> pos + 1 <= buf@.len(),
        r matches Ok(v) ==> v == buf@[pos as int] as i8,
{
    let mut rest: &[u8] = &buf[pos..];
    rest.try_get_i8()
}

/// `bytes::Buf::try_get_u32` on the bytes of `buf` from `pos` on: the four
/// bytes at `pos` read big-endian, or an error when fewer than four are left.
#[verifier::external_body]
pub(crate) fn get_u32(buf: &[u8], pos: usize) -> (r: Result<u32, TryGetError>)
    requires
        pos <= buf@.len(),
    ensures
        r is Ok <==> pos + 4 <= buf@.len(),
        r matches Ok(v) ==> v == be_u32_at(buf@, pos as int),
{
    let mut rest: &[u8] = &buf[pos..];
    rest.try_get_u32()
}

/// `bytes::Buf::try_get_u64` on the bytes of `buf` from `pos` on: the eight
/// bytes at `pos` read big-endian, or an error when fewer than eight are left.
#[verifier::external_body]
pub(crate) fn get_u64(buf: &[u8], pos: usize) -> (r: Result<u64, TryGetError>)
    requires
        pos <= buf@.len(),
    ensures
        r is Ok <==> pos + 8 <= buf@.len(),
        r matches Ok(v) ==> v == be_u64_at(buf@, pos as int),
{
    let mut rest: &[u8] = &buf[pos..];
    rest.try_get_u64()
}

/// `bytes::BufMut::put_u8` on a `Vec<u8>`: appends the byte.
#[verifier::external_body]
pub(crate) fn put_u8(buf: &mut Vec<u8>, v: u8)
    requires
        old(buf)@.len() + 1 <= isize::MAX,
    ensures
        final(buf)@ == old(buf)@.push(v),
{
    buf.put_u8(v)
}

/// `bytes::BufMut::put_u32` on a `Vec<u8>`: appends the four bytes of `v`,
/// most significant first.
#[verifier::external_body]
pub(crate) fn put_u32(buf: &mut Vec<u8>, v: u32)
    requires
        old(buf)@.len() + 4 <= isize::MAX,
    ensures
        final(buf)@ == old(buf)@ + u32_be(v),
{
    buf.put_u32(v)
}

/// `bytes::BufMut::put_u64` on a `Vec<u8>`: appends the eight bytes of `v`,
/// most significant first.
#[verifier::external_body]
pub(crate) fn put_u64(buf: &mut Vec<u8>, v: u64)
    requires
        old(buf)@.len() + 8 <= isize::MAX,
    ensures
        final(buf)@ == old(buf)@ + u64_be(v),
{
    buf.put_u64(v)
}

/// `bytes::BufMut::put_slice` on a `Vec<u8>`: appends the bytes of `src`.
#[verifier::external_body]
pub(crate) fn put_slice(buf: &mut Vec<u8>, src: &[u8])
    requires
        old(buf)@.len() + src@.len() <= isize::MAX,
    ensures
        final(buf)@ == old(buf)@ + src@,
{
    buf.put_slice(src)
}

} // verus!
