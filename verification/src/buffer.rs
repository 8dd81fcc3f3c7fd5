//! Shared byte buffers, which the `bytes` crate provides.

use vstd::prelude::*;

use bytes::{Buf as _, Bytes, BytesMut};

verus! {

/// `Bytes` of the `bytes` crate, a byte string that its copies share.
#[verifier::external_type_specification]
#[verifier::external_body]
pub struct ExBytes(bytes::Bytes);

/// `BytesMut` of the `bytes` crate, a buffer from whose front bytes are taken.
#[verifier::external_type_specification]
#[verifier::external_body]
pub struct ExBytesMut(bytes::BytesMut);

/// What a `Bytes` holds.
pub uninterp spec fn bytes_view(data: bytes::Bytes) -> Seq<u8>;

/// What a `BytesMut` holds.
pub uninterp spec fn buffer_view(buffer: bytes::BytesMut) -> Seq<u8>;

/// Calls `Bytes::from` on a vector: the new `Bytes` holds the vector's bytes.
#[verifier::external_body]
pub(crate) fn bytes_from(data: Vec<u8>) -> (bytes: Bytes)
    ensures
        bytes_view(bytes) == data@,
{
    Bytes::from(data)
}

/// Calls `Bytes::new`, which holds nothing.
#[verifier::external_body]
pub(crate) fn no_bytes() -> (bytes: Bytes)
    ensures
        bytes_view(bytes) == Seq::<u8>::empty(),
{
    Bytes::new()
}

/// Calls `Bytes::clone`: the copy holds the same bytes.
#[verifier::external_body]
pub(crate) fn bytes_clone(data: &Bytes) -> (copy: Bytes)
    ensures
        bytes_view(copy) == bytes_view(*data),
{
    data.clone()
}

/// Calls `Bytes::deref`, which lends out what the `Bytes` holds.
#[verifier::external_body]
pub(crate) fn bytes_slice(data: &Bytes) -> (slice: &[u8])
    ensures
        slice@ == bytes_view(*data),
{
    data
}

/// Calls `BytesMut::deref`, which lends out what the buffer holds.
#[verifier::external_body]
pub(crate) fn buffer_slice(buffer: &BytesMut) -> (slice: &[u8])
    ensures
        slice@ == buffer_view(*buffer),
{
    buffer
}

/// Calls `BytesMut::advance`, which drops the first `count` bytes and panics where there are fewer.
#[verifier::external_body]
pub(crate) fn buffer_advance(buffer: &mut BytesMut, count: usize)
    requires
        count <= buffer_view(*old(buffer)).len(),
    ensures
        buffer_view(*final(buffer)) == buffer_view(*old(buffer)).skip(count as int),
{
    buffer.advance(count)
}

/// Calls `BytesMut::split_to`, which takes the first `count` bytes out of the buffer and panics
/// where there are fewer.
#[verifier::external_body]
pub(crate) fn buffer_split_to(buffer: &mut BytesMut, count: usize) -> (head: BytesMut)
    requires
        count <= buffer_view(*old(buffer)).len(),
    ensures
        buffer_view(head) == buffer_view(*old(buffer)).take(count as int),
        buffer_view(*final(buffer)) == buffer_view(*old(buffer)).skip(count as int),
{
    buffer.split_to(count)
}

/// Calls `BytesMut::freeze`: the `Bytes` holds what the buffer held.
#[verifier::external_body]
pub(crate) fn buffer_freeze(buffer: BytesMut) -> (bytes: Bytes)
    ensures
        bytes_view(bytes) == buffer_view(buffer),
{
    buffer.freeze()
}

} // verus!
