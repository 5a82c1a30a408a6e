//! Byte buffers of the `bytes` crate, as byte sequences.
//!
//! Nothing here is proved: each item states what the `bytes` crate does.

use bytes::{Bytes, BytesMut};
use vstd::prelude::*;

verus! {

/// `bytes::Bytes`: an immutable, cheaply cloneable run of bytes.
#[verifier::external_type_specification]
#[verifier::external_body]
pub struct ExBytes(bytes::Bytes);

/// `bytes::BytesMut`: a growable run of bytes.
#[verifier::external_type_specification]
#[verifier::external_body]
pub struct ExBytesMut(bytes::BytesMut);

/// The bytes that a `Bytes` holds, first to last.
pub uninterp spec fn bytes_seq(b: Bytes) -> Seq<u8>;

/// The bytes that a `BytesMut` holds, first to last.
pub uninterp spec fn buf_seq(b: BytesMut) -> Seq<u8>;

/// `Bytes::len`: the number of bytes held.
#[verifier::external_body]
pub(crate) fn bytes_len(b: &Bytes) -> (n: usize)
    ensures
        n == bytes_seq(*b).len(),
{
    b.len()
}

/// `Bytes::slice`: a handle on the bytes from `begin` up to `end`, sharing
/// the storage of `b`. The crate panics on a range that is out of bounds.
#[verifier::external_body]
pub(crate) fn bytes_slice(b: &Bytes, begin: usize, end: usize) -> (s: Bytes)
    requires
        begin <= end <= bytes_seq(*b).len(),
    ensures
        bytes_seq(s) == bytes_seq(*b).subrange(begin as int, end as int),
{
    b.slice(begin..end)
}

/// `BytesMut::with_capacity`: an empty buffer with room for `capacity`
/// bytes.
#[verifier::external_body]
pub(crate) fn buf_with_capacity(capacity: usize) -> (b: BytesMut)
    requires
        capacity <= isize::MAX,
    ensures
        buf_seq(b) == Seq::<u8>::empty(),
{
    BytesMut::with_capacity(capacity)
}

/// `BytesMut::extend_from_slice`: the bytes of `data` are added at the end.
#[verifier::external_body]
pub(crate) fn buf_extend(b: &mut BytesMut, data: &[u8])
    ensures
        buf_seq(*final(b)) == buf_seq(*old(b)) + data@,
{
    b.extend_from_slice(data)
}

/// `BytesMut::freeze`: the same bytes, immutable from here on.
#[verifier::external_body]
pub(crate) fn buf_freeze(b: BytesMut) -> (r: Bytes)
    ensures
        bytes_seq(r) == buf_seq(b),
{
    b.freeze()
}

/// `Bytes::clone`: another handle on the same bytes.
pub assume_specification[ <bytes::Bytes as Clone>::clone ](b: &bytes::Bytes) -> (r: bytes::Bytes)
    ensures
        bytes_seq(r) == bytes_seq(*b),
;

/// `Bytes::copy_from_slice`: a new buffer holding a copy of `data`.
#[verifier::external_body]
pub(crate) fn bytes_copy_from_slice(data: &[u8]) -> (r: Bytes)
    ensures
        bytes_seq(r) == data@,
{
    Bytes::copy_from_slice(data)
}

/// `Bytes::as_ref`: the bytes held, as a slice.
#[verifier::external_body]
pub(crate) fn bytes_as_slice(b: &Bytes) -> (s: &[u8])
    ensures
        s@ == bytes_seq(*b),
{
    b.as_ref()
}

/// `BytesMut::len`: the number of bytes held.
#[verifier::external_body]
pub(crate) fn buf_len(b: &BytesMut) -> (n: usize)
    ensures
        n == buf_seq(*b).len(),
{
    b.len()
}

/// `BytesMut::as_ref`: the bytes held, as a slice.
#[verifier::external_body]
pub(crate) fn buf_as_slice(b: &BytesMut) -> (s: &[u8])
    ensures
        s@ == buf_seq(*b),
{
    b.as_ref()
}

/// `BytesMut::new`: an empty buffer.
#[verifier::external_body]
pub(crate) fn buf_new() -> (b: BytesMut)
    ensures
        buf_seq(b) == Seq::<u8>::empty(),
{
    BytesMut::new()
}

} // verus!
