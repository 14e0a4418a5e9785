//! The byte buffers of the `bytes` crate, and what is claimed of them.
//!
//! Lengths stay within `isize::MAX`, the limit of every Rust allocation.

use vstd::prelude::*;

use bytes::{BufMut, Bytes, BytesMut};

verus! {

/// `bytes::BytesMut`, a growing buffer.
#[verifier::external_type_specification]
#[verifier::external_body]
pub struct ExBytesMut(bytes::BytesMut);

/// `bytes::Bytes`, a shared immutable buffer.
#[verifier::external_type_specification]
#[verifier::external_body]
pub struct ExBytes(bytes::Bytes);

/// The bytes that a growing buffer holds.
pub uninterp spec fn buf_contents(buf: BytesMut) -> Seq<u8>;

/// The bytes that a shared buffer holds.
pub uninterp spec fn bytes_contents(data: Bytes) -> Seq<u8>;

/// Calls `BytesMut::with_capacity`. Claimed: the buffer is empty.
#[verifier::external_body]
pub(crate) fn buf_with_capacity(capacity: usize) -> (buf: BytesMut)
    requires
        capacity <= isize::MAX,
    ensures
        buf_contents(buf) == Seq::<u8>::empty(),
{
    BytesMut::with_capacity(capacity)
}

/// Calls `BytesMut::len`. Claimed: it counts the contents.
#[verifier::external_body]
pub(crate) fn buf_len(buf: &BytesMut) -> (n: usize)
    ensures
        n == buf_contents(*buf).len(),
{
    buf.len()
}

/// Calls `BytesMut::capacity`. Claimed: it is no less than the length. How much more there is, the
/// allocator decides.
#[verifier::external_body]
pub(crate) fn buf_capacity(buf: &BytesMut) -> (n: usize)
    ensures
        n >= buf_contents(*buf).len(),
{
    buf.capacity()
}

/// Calls `BytesMut::reserve`. Claimed: the contents stay as they are.
#[verifier::external_body]
pub(crate) fn buf_reserve(buf: &mut BytesMut, additional: usize)
    requires
        buf_contents(*old(buf)).len() + additional <= isize::MAX,
    ensures
        buf_contents(*final(buf)) == buf_contents(*old(buf)),
{
    buf.reserve(additional)
}

/// Calls `BytesMut::put_slice`. Claimed: the bytes are appended.
#[verifier::external_body]
pub(crate) fn buf_put_slice(buf: &mut BytesMut, src: &[u8])
    requires
        buf_contents(*old(buf)).len() + src@.len() <= isize::MAX,
    ensures
        buf_contents(*final(buf)) == buf_contents(*old(buf)) + src@,
{
    buf.put_slice(src)
}

/// Calls `BytesMut::put_u8`. Claimed: the byte is appended.
#[verifier::external_body]
pub(crate) fn buf_put_u8(buf: &mut BytesMut, n: u8)
    requires
        buf_contents(*old(buf)).len() + 1 <= isize::MAX,
    ensures
        buf_contents(*final(buf)) == buf_contents(*old(buf)).push(n),
{
    buf.put_u8(n)
}

/// Calls `BytesMut::put_u16`. Claimed: the number is appended in network order.
#[verifier::external_body]
pub(crate) fn buf_put_u16(buf: &mut BytesMut, n: u16)
    requires
        buf_contents(*old(buf)).len() + 2 <= isize::MAX,
    ensures
        buf_contents(*final(buf)) == buf_contents(*old(buf)) + crate::wire::be16_bytes(n as int),
{
    buf.put_u16(n)
}

/// Assigns to an index of a `BytesMut`. Claimed: that byte changes and no other.
#[verifier::external_body]
pub(crate) fn buf_set(buf: &mut BytesMut, i: usize, n: u8)
    requires
        i < buf_contents(*old(buf)).len(),
    ensures
        buf_contents(*final(buf)) == buf_contents(*old(buf)).update(i as int, n),
{
    buf[i] = n
}

/// Calls `BytesMut::split`. Claimed: all contents move to the result.
#[verifier::external_body]
pub(crate) fn buf_split(buf: &mut BytesMut) -> (out: BytesMut)
    ensures
        buf_contents(out) == buf_contents(*old(buf)),
        buf_contents(*final(buf)) == Seq::<u8>::empty(),
{
    buf.split()
}

/// Calls `BytesMut::freeze`. Claimed: the contents stay as they are.
#[verifier::external_body]
pub(crate) fn buf_freeze(buf: BytesMut) -> (data: Bytes)
    ensures
        bytes_contents(data) == buf_contents(buf),
{
    buf.freeze()
}

/// Calls `Bytes::new`. Claimed: the buffer is empty.
#[verifier::external_body]
pub(crate) fn bytes_new() -> (data: Bytes)
    ensures
        bytes_contents(data) == Seq::<u8>::empty(),
{
    Bytes::new()
}

/// Calls `Bytes::copy_from_slice`. Claimed: the buffer holds a copy.
#[verifier::external_body]
pub(crate) fn bytes_copy_from_slice(src: &[u8]) -> (data: Bytes)
    ensures
        bytes_contents(data) == src@,
{
    Bytes::copy_from_slice(src)
}

/// Calls `Bytes::from` on a vector. Claimed: the buffer holds its bytes.
#[verifier::external_body]
pub(crate) fn bytes_from_vec(src: Vec<u8>) -> (data: Bytes)
    ensures
        bytes_contents(data) == src@,
{
    Bytes::from(src)
}

/// Calls `Bytes::as_ref`. Claimed: the slice is the contents.
#[verifier::external_body]
pub(crate) fn bytes_as_slice(data: &Bytes) -> (s: &[u8])
    ensures
        s@ == bytes_contents(*data),
{
    data.as_ref()
}

/// Calls `Bytes::clone`. Claimed: the copy has the same contents.
#[verifier::external_body]
pub(crate) fn bytes_clone(data: &Bytes) -> (copy: Bytes)
    ensures
        bytes_contents(copy) == bytes_contents(*data),
{
    data.clone()
}

} // verus!
