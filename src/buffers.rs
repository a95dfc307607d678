//! Byte buffers of the `bytes` crate, seen through the bytes they hold.

use vstd::prelude::*;
use bytes::{Buf, BufMut, Bytes, BytesMut};

verus! {

#[verifier::external_type_specification]
#[verifier::external_body]
pub struct ExBytesMut(BytesMut);

#[verifier::external_type_specification]
#[verifier::external_body]
pub struct ExBytes(Bytes);

/// The bytes that a growable buffer holds, in order.
pub uninterp spec fn buf_bytes(b: BytesMut) -> Seq<u8>;

/// The bytes that a frozen buffer holds, in order.
pub uninterp spec fn frozen_bytes(b: Bytes) -> Seq<u8>;

/// Big-endian bytes of a 16-bit value.
pub open spec fn be16(v: u16) -> Seq<u8> {
    seq![(v >> 8u16) as u8, (v & 0xffu16) as u8]
}

/// Big-endian bytes of a 32-bit value.
pub open spec fn be32(v: u32) -> Seq<u8> {
    seq![(v >> 24u32) as u8, ((v >> 16u32) & 0xffu32) as u8, ((v >> 8u32) & 0xffu32) as u8, (v & 0xffu32) as u8]
}

/// The 16-bit value of two big-endian bytes.
pub open spec fn from_be16(a: u8, b: u8) -> u16 {
    ((a as u16) << 8u16) | (b as u16)
}

/// The 32-bit value of four big-endian bytes.
pub open spec fn from_be32(a: u8, b: u8, c: u8, d: u8) -> u32 {
    ((a as u32) << 24u32) | ((b as u32) << 16u32) | ((c as u32) << 8u32) | (d as u32)
}

/// Relies on `BytesMut::with_capacity`: the new buffer holds no bytes.
#[verifier::external_body]
pub(crate) fn new_buf(capacity: usize) -> (r: BytesMut)
    ensures
        buf_bytes(r) == Seq::<u8>::empty(),
{
    BytesMut::with_capacity(capacity)
}

/// Relies on `BytesMut::len`: the number of bytes held.
pub assume_specification[ BytesMut::len ](b: &BytesMut) -> (r: usize)
    ensures
        r == buf_bytes(*b).len(),
;

/// Relies on `BufMut::put_u8` of `BytesMut`: appends one byte. It panics only
/// past `isize::MAX` bytes.
#[verifier::external_body]
pub(crate) fn put_u8(b: &mut BytesMut, v: u8)
    requires
        buf_bytes(*old(b)).len() + 1 <= isize::MAX,
    ensures
        buf_bytes(*final(b)) == buf_bytes(*old(b)).push(v),
{
    b.put_u8(v)
}

/// Relies on `BufMut::put_u16` of `BytesMut`: appends the value big-endian.
#[verifier::external_body]
pub(crate) fn put_u16(b: &mut BytesMut, v: u16)
    requires
        buf_bytes(*old(b)).len() + 2 <= isize::MAX,
    ensures
        buf_bytes(*final(b)) == buf_bytes(*old(b)) + be16(v),
{
    b.put_u16(v)
}

/// Relies on `BufMut::put_u32` of `BytesMut`: appends the value big-endian.
#[verifier::external_body]
pub(crate) fn put_u32(b: &mut BytesMut, v: u32)
    requires
        buf_bytes(*old(b)).len() + 4 <= isize::MAX,
    ensures
        buf_bytes(*final(b)) == buf_bytes(*old(b)) + be32(v),
{
    b.put_u32(v)
}

/// Relies on `BufMut::put_slice` of `BytesMut`: appends the slice.
#[verifier::external_body]
pub(crate) fn put_slice(b: &mut BytesMut, s: &[u8])
    requires
        buf_bytes(*old(b)).len() + s@.len() <= isize::MAX,
    ensures
        buf_bytes(*final(b)) == buf_bytes(*old(b)) + s@,
{
    b.put_slice(s)
}

/// Relies on `Buf::get_u8` of `BytesMut`: takes the first byte off the front.
#[verifier::external_body]
pub(crate) fn get_u8(b: &mut BytesMut) -> (r: u8)
    requires
        buf_bytes(*old(b)).len() >= 1,
    ensures
        r == buf_bytes(*old(b))[0],
        buf_bytes(*final(b)) == buf_bytes(*old(b)).skip(1),
{
    b.get_u8()
}

/// Relies on `Buf::get_u16` of `BytesMut`: takes two bytes off the front, read
/// big-endian.
#[verifier::external_body]
pub(crate) fn get_u16(b: &mut BytesMut) -> (r: u16)
    requires
        buf_bytes(*old(b)).len() >= 2,
    ensures
        r == from_be16(buf_bytes(*old(b))[0], buf_bytes(*old(b))[1]),
        buf_bytes(*final(b)) == buf_bytes(*old(b)).skip(2),
{
    b.get_u16()
}

/// Relies on `Buf::get_u32` of `BytesMut`: takes four bytes off the front, read
/// big-endian.
#[verifier::external_body]
pub(crate) fn get_u32(b: &mut BytesMut) -> (r: u32)
    requires
        buf_bytes(*old(b)).len() >= 4,
    ensures
        r == from_be32(
            buf_bytes(*old(b))[0],
            buf_bytes(*old(b))[1],
            buf_bytes(*old(b))[2],
            buf_bytes(*old(b))[3],
        ),
        buf_bytes(*final(b)) == buf_bytes(*old(b)).skip(4),
{
    b.get_u32()
}

/// Relies on `Deref<Target = [u8]> for BytesMut`: the bytes as a slice.
#[verifier::external_body]
pub(crate) fn buf_slice(b: &BytesMut) -> (r: &[u8])
    ensures
        r@ == buf_bytes(*b),
{
    b.as_ref()
}

/// Relies on `BytesMut::freeze`: the frozen buffer holds the same bytes.
#[verifier::external_body]
pub(crate) fn freeze(b: BytesMut) -> (r: Bytes)
    ensures
        frozen_bytes(r) == buf_bytes(b),
{
    b.freeze()
}

/// Relies on `From<Vec<u8>> for Bytes`: the bytes of the vector, moved.
#[verifier::external_body]
pub(crate) fn bytes_from_vec(v: Vec<u8>) -> (r: Bytes)
    ensures
        frozen_bytes(r) == v@,
{
    Bytes::from(v)
}

/// Relies on `Deref<Target = [u8]> for Bytes`: the bytes as a slice.
#[verifier::external_body]
pub(crate) fn bytes_slice(b: &Bytes) -> (r: &[u8])
    ensures
        r@ == frozen_bytes(*b),
{
    b.as_ref()
}

} // verus!
