//! The byte buffers of the `bytes` crate, as sequences of bytes.
//!
//! Everything here is stated of outside code and believed without proof.
use bytes::{Bytes, BytesMut};
use vstd::prelude::*;

verus! {

/// The shared byte buffer `bytes::Bytes`.
#[verifier::external_type_specification]
#[verifier::external_body]
pub struct ExBytes(bytes::Bytes);

/// The growable byte buffer `bytes::BytesMut`.
#[verifier::external_type_specification]
#[verifier::external_body]
pub struct ExBytesMut(bytes::BytesMut);

/// The bytes that a shared buffer holds.
pub uninterp spec fn contents(buffer: Bytes) -> Seq<u8>;

/// The bytes that a growable buffer holds.
pub uninterp spec fn contents_mut(buffer: BytesMut) -> Seq<u8>;

/// Sizes to which a growable buffer grows without overflowing its capacity:
/// growing at most quadruples the capacity over what is held, and an
/// allocation holds at most half the address space.
pub open spec fn buffer_fits(size: int) -> bool {
    size <= usize::MAX / 8
}

/// `Bytes::len` is the number of bytes held.
pub assume_specification[ Bytes::len ](buffer: &Bytes) -> (len: usize)
    ensures
        len == contents(*buffer).len(),
;

/// `Bytes::slice` holds the part of the buffer within the range; it panics
/// where the range is not within the buffer.
#[verifier::external_body]
pub(crate) fn slice_bytes(buffer: &Bytes, start: usize, end: usize) -> (part: Bytes)
    requires
        start <= end <= contents(*buffer).len(),
    ensures
        contents(part) == contents(*buffer).subrange(start as int, end as int),
{
    buffer.slice(start..end)
}

/// `Bytes::as_ref` reads the bytes held.
#[verifier::external_body]
pub(crate) fn bytes_slice(buffer: &Bytes) -> (slice: &[u8])
    ensures
        slice@ == contents(*buffer),
{
    buffer.as_ref()
}

/// `BytesMut::with_capacity` holds nothing; it panics where the capacity is
/// more than an allocation can hold.
pub assume_specification[ BytesMut::with_capacity ](capacity: usize) -> (buffer: BytesMut)
    requires
        buffer_fits(capacity as int),
    ensures
        contents_mut(buffer) == Seq::<u8>::empty(),
;

/// `BytesMut::len` is the number of bytes held.
pub assume_specification[ BytesMut::len ](buffer: &BytesMut) -> (len: usize)
    ensures
        len == contents_mut(*buffer).len(),
;

/// `BytesMut::is_empty` tells whether no byte is held.
pub assume_specification[ BytesMut::is_empty ](buffer: &BytesMut) -> (empty: bool)
    ensures
        empty == (contents_mut(*buffer).len() == 0),
;

/// `BytesMut::extend_from_slice` appends the slice; it panics where the new
/// capacity is more than an allocation can hold.
pub assume_specification[ BytesMut::extend_from_slice ](buffer: &mut BytesMut, extend: &[u8])
    requires
        buffer_fits((contents_mut(*old(buffer)).len() + extend@.len()) as int),
    ensures
        contents_mut(*final(buffer)) == contents_mut(*old(buffer)) + extend@,
;

/// `BytesMut::split_to` removes and returns the first `at` bytes; it panics
/// where fewer are held.
pub assume_specification[ BytesMut::split_to ](buffer: &mut BytesMut, at: usize) -> (front: BytesMut)
    requires
        at <= contents_mut(*old(buffer)).len(),
    ensures
        contents_mut(front) == contents_mut(*old(buffer)).take(at as int),
        contents_mut(*final(buffer)) == contents_mut(*old(buffer)).skip(at as int),
;

/// `BytesMut::split_off` keeps the first `at` bytes and returns the others; it
/// panics where `at` is past the capacity.
pub assume_specification[ BytesMut::split_off ](buffer: &mut BytesMut, at: usize) -> (back: BytesMut)
    requires
        at <= contents_mut(*old(buffer)).len(),
    ensures
        contents_mut(*final(buffer)) == contents_mut(*old(buffer)).take(at as int),
        contents_mut(back) == contents_mut(*old(buffer)).skip(at as int),
;

/// `BytesMut::split` removes and returns all bytes held.
pub assume_specification[ BytesMut::split ](buffer: &mut BytesMut) -> (all: BytesMut)
    ensures
        contents_mut(all) == contents_mut(*old(buffer)),
        contents_mut(*final(buffer)) == Seq::<u8>::empty(),
;

/// `BytesMut::resize` cuts the buffer to the new length, or fills it up to that
/// length with the value; it panics where the new capacity is more than an
/// allocation can hold.
pub assume_specification[ BytesMut::resize ](buffer: &mut BytesMut, new_len: usize, value: u8)
    requires
        buffer_fits(new_len as int),
    ensures
        contents_mut(*final(buffer)) == (if new_len <= contents_mut(*old(buffer)).len() {
            contents_mut(*old(buffer)).take(new_len as int)
        } else {
            contents_mut(*old(buffer)) + Seq::new(
                (new_len - contents_mut(*old(buffer)).len()) as nat,
                |i: int| value,
            )
        }),
;

/// `BytesMut::freeze` keeps the bytes and ends their growth.
pub assume_specification[ BytesMut::freeze ](buffer: BytesMut) -> (frozen: Bytes)
    ensures
        contents(frozen) == contents_mut(buffer),
;

/// `BytesMut::as_ref` reads the bytes held.
#[verifier::external_body]
pub(crate) fn bytes_mut_slice(buffer: &BytesMut) -> (slice: &[u8])
    ensures
        slice@ == contents_mut(*buffer),
{
    buffer.as_ref()
}

} // verus!
