//! The byte buffers of the `bytes` crate and the byte search of `memchr`,
//! as seen by the verifier.
//!
//! `Bytes` and `BytesMut` are opaque here. Their contents are named by
//! [`bytes_seq`] and [`buf_seq`], and every operation the library performs on
//! them is declared below together with what it is taken to do. None of
//! these statements is proved.

use bytes::{BufMut, Bytes, BytesMut};
use core::ops::Deref;
use vstd::prelude::*;

verus! {

/// `bytes::Bytes`: an immutable byte buffer that is cheap to copy and to
/// slice. Nothing inside it is visible here.
#[verifier::external_type_specification]
#[verifier::external_body]
pub struct ExBytes(Bytes);

/// `bytes::BytesMut`: a byte buffer that grows at its end and can be cut at
/// its front. Nothing inside it is visible here.
#[verifier::external_type_specification]
#[verifier::external_body]
pub struct ExBytesMut(BytesMut);

/// The bytes that an immutable buffer holds, in order.
pub uninterp spec fn bytes_seq(b: &Bytes) -> Seq<u8>;

/// The bytes that a growable buffer holds, in order.
pub uninterp spec fn buf_seq(b: &BytesMut) -> Seq<u8>;

/// `memchr::memchr`: the index of the first occurrence of `needle` in
/// `haystack`, or `None` where it does not occur.
pub assume_specification[ memchr::memchr ](needle: u8, haystack: &[u8]) -> (r: Option<usize>)
    ensures
        match r {
            Some(i) => {
                &&& i < haystack@.len()
                &&& haystack@[i as int] == needle
                &&& forall|j: int| 0 <= j < i ==> haystack@[j] != needle
            },
            None => forall|j: int| 0 <= j < haystack@.len() ==> haystack@[j] != needle,
        },
;

/// `Bytes::from_static`: a buffer that points at the given static bytes.
pub assume_specification[ Bytes::from_static ](bytes: &'static [u8]) -> (r: Bytes)
    ensures
        bytes_seq(&r) == bytes@,
;

/// `<Bytes as From<Vec<u8>>>::from`: a buffer that takes over the vector's
/// bytes.
pub assume_specification[ <Bytes as From<Vec<u8>>>::from ](vec: Vec<u8>) -> (r: Bytes)
    ensures
        bytes_seq(&r) == vec@,
;

/// `<Bytes as Clone>::clone`: another handle to the same storage, holding
/// the same bytes.
pub assume_specification[ <Bytes as Clone>::clone ](b: &Bytes) -> (r: Bytes)
    ensures
        bytes_seq(&r) == bytes_seq(b),
;

/// `<Bytes as Deref>::deref`: the buffer's contents as a slice.
#[verifier::external_body]
pub(crate) fn bytes_slice(b: &Bytes) -> (s: &[u8])
    ensures
        s@ == bytes_seq(b),
{
    b.deref()
}

/// `<BytesMut as Deref>::deref`: the buffer's contents as a slice.
#[verifier::external_body]
pub(crate) fn buf_slice(b: &BytesMut) -> (s: &[u8])
    ensures
        s@ == buf_seq(b),
{
    b.deref()
}

/// `BytesMut::extend_from_slice`: appends the slice to the buffer. The crate
/// grows the allocation as needed, and panics where the capacity it needs
/// overflows; the precondition keeps the contents within `isize::MAX` bytes,
/// the most that one allocation holds.
pub assume_specification[ BytesMut::extend_from_slice ](b: &mut BytesMut, extend: &[u8])
    requires
        buf_seq(old(b)).len() + extend@.len() <= isize::MAX,
    ensures
        buf_seq(final(b)) == buf_seq(old(b)) + extend@,
;

/// `BytesMut::split_to`: cuts the first `at` bytes off the buffer and returns
/// them; the buffer keeps the rest. The crate panics where `at` is past the
/// end.
pub assume_specification[ BytesMut::split_to ](b: &mut BytesMut, at: usize) -> (front: BytesMut)
    requires
        at <= buf_seq(old(b)).len(),
    ensures
        buf_seq(&front) == buf_seq(old(b)).take(at as int),
        buf_seq(final(b)) == buf_seq(old(b)).skip(at as int),
;

/// `BytesMut::freeze`: the same bytes in an immutable buffer.
pub assume_specification[ BytesMut::freeze ](b: BytesMut) -> (r: Bytes)
    ensures
        bytes_seq(&r) == buf_seq(&b),
;

/// `Bytes::slice` with the range `start..end`: a buffer that shares the
/// storage and holds the bytes at those positions. The crate panics unless
/// `start <= end <= len`.
#[verifier::external_body]
pub(crate) fn bytes_sub(b: &Bytes, start: usize, end: usize) -> (r: Bytes)
    requires
        start <= end <= bytes_seq(b).len(),
    ensures
        bytes_seq(&r) == bytes_seq(b).subrange(start as int, end as int),
{
    b.slice(start..end)
}

/// `<BytesMut as BufMut>::put_u8`: appends one byte, through the same path
/// as `extend_from_slice`, and so under the same bound.
#[verifier::external_body]
pub(crate) fn buf_put_u8(b: &mut BytesMut, byte: u8)
    requires
        buf_seq(old(b)).len() + 1 <= isize::MAX,
    ensures
        buf_seq(final(b)) == buf_seq(old(b)).push(byte),
{
    b.put_u8(byte)
}

} // verus!
