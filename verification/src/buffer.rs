//! What the framing layer relies on from the `bytes` crate.
//!
//! [`BytesMut`] and [`Bytes`] are opaque here. Each has a name for the bytes
//! that it holds, and each method that the framing layer calls is specified
//! over those names. None of this is proved: it is what the documentation and
//! the code of the crate say.

use bytes::{Buf, Bytes, BytesMut};
use vstd::prelude::*;

verus! {

/// The growable buffer of the `bytes` crate.
#[verifier::external_type_specification]
#[verifier::external_body]
pub struct ExBytesMut(BytesMut);

/// The shared immutable buffer of the `bytes` crate.
#[verifier::external_type_specification]
#[verifier::external_body]
pub struct ExBytes(Bytes);

/// The bytes that a [`BytesMut`] holds, first byte first.
pub uninterp spec fn buffered(buf: BytesMut) -> Seq<u8>;

/// The bytes that a [`Bytes`] holds, first byte first.
pub uninterp spec fn payload(bytes: Bytes) -> Seq<u8>;

/// `BytesMut::with_capacity` makes an empty buffer. It panics on a capacity
/// that no allocation can have.
pub assume_specification[ BytesMut::with_capacity ](capacity: usize) -> (buf: BytesMut)
    requires
        capacity <= isize::MAX,
    ensures
        buffered(buf) == Seq::<u8>::empty(),
;

/// `BytesMut::len` counts the bytes in the buffer.
pub assume_specification[ BytesMut::len ](buf: &BytesMut) -> (len: usize)
    ensures
        len == buffered(*buf).len(),
;

/// `BytesMut::is_empty` tells whether the buffer holds no bytes.
pub assume_specification[ BytesMut::is_empty ](buf: &BytesMut) -> (empty: bool)
    ensures
        empty == (buffered(*buf).len() == 0),
;

/// `BytesMut::extend_from_slice` appends `extend`, and makes room for it first.
/// It panics where the bytes would not fit in any allocation. Room that stands
/// before the first byte, left by an `advance`, may count toward that limit.
pub assume_specification[ BytesMut::extend_from_slice ](buf: &mut BytesMut, extend: &[u8])
    requires
        buffered(*old(buf)).len() + extend@.len() <= isize::MAX,
    ensures
        buffered(*final(buf)) == buffered(*old(buf)) + extend@,
;

/// `BytesMut::split_to` cuts the first `at` bytes off and returns them. It
/// panics if there are fewer.
pub assume_specification[ BytesMut::split_to ](buf: &mut BytesMut, at: usize) -> (head: BytesMut)
    requires
        at <= buffered(*old(buf)).len(),
    ensures
        buffered(head) == buffered(*old(buf)).take(at as int),
        buffered(*final(buf)) == buffered(*old(buf)).skip(at as int),
;

/// `BytesMut::freeze` makes an immutable buffer of the same bytes.
pub assume_specification[ BytesMut::freeze ](buf: BytesMut) -> (bytes: Bytes)
    ensures
        payload(bytes) == buffered(buf),
;

/// `Buf::advance` of a `BytesMut` drops the first `cnt` bytes. It panics if
/// there are fewer.
pub assume_specification[ <BytesMut as Buf>::advance ](buf: &mut BytesMut, cnt: usize)
    requires
        cnt <= buffered(*old(buf)).len(),
    ensures
        buffered(*final(buf)) == buffered(*old(buf)).skip(cnt as int),
;

/// `Deref::deref` of a `BytesMut` is the slice of its bytes.
pub assume_specification[ <BytesMut as core::ops::Deref>::deref ](buf: &BytesMut) -> (slice: &[u8])
    ensures
        slice@ == buffered(*buf),
;

/// `Bytes::len` counts the bytes in the buffer.
pub assume_specification[ Bytes::len ](bytes: &Bytes) -> (len: usize)
    ensures
        len == payload(*bytes).len(),
;

/// `Deref::deref` of a `Bytes` is the slice of its bytes.
pub assume_specification[ <Bytes as core::ops::Deref>::deref ](bytes: &Bytes) -> (slice: &[u8])
    ensures
        slice@ == payload(*bytes),
;

} // verus!
