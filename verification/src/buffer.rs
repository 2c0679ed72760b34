//! The byte buffers that frames are read from and written to.
use bytes::BytesMut;
use vstd::prelude::*;

verus! {

/// A growable byte buffer of the `bytes` crate.
#[verifier::external_type_specification]
#[verifier::external_body]
pub struct ExBytesMut(bytes::BytesMut);

/// The bytes that a buffer holds, first to last.
pub uninterp spec fn buffer_bytes(buffer: BytesMut) -> Seq<u8>;

/// `BytesMut::len` is the number of bytes in the buffer.
pub assume_specification[ BytesMut::len ](buffer: &BytesMut) -> (len: usize)
    ensures
        len == buffer_bytes(*buffer).len(),
;

/// `BytesMut::split_to` takes the first `at` bytes out of the buffer and
/// returns them; it panics where the buffer holds fewer.
pub assume_specification[ BytesMut::split_to ](buffer: &mut BytesMut, at: usize) -> (front: BytesMut)
    requires
        at <= buffer_bytes(*old(buffer)).len(),
    ensures
        buffer_bytes(front) == buffer_bytes(*old(buffer)).take(at as int),
        buffer_bytes(*final(buffer)) == buffer_bytes(*old(buffer)).skip(at as int),
;

/// `BytesMut::extend_from_slice` appends the given bytes. Growing doubles the
/// allocation at most, so half of the largest allocation never panics.
pub assume_specification[ BytesMut::extend_from_slice ](buffer: &mut BytesMut, extend: &[u8])
    requires
        buffer_bytes(*old(buffer)).len() + extend@.len() <= isize::MAX / 2,
    ensures
        buffer_bytes(*final(buffer)) == buffer_bytes(*old(buffer)) + extend@,
;

/// The contents of a buffer as a slice, through `BytesMut`'s `Deref`.
#[verifier::external_body]
pub(crate) fn contents(buffer: &BytesMut) -> (slice: &[u8])
    ensures
        slice@ == buffer_bytes(*buffer),
{
    &buffer[..]
}

} // verus!
