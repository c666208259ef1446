//! The buffer that commits are collected in before they are written.

use bytes::BytesMut;
use vstd::prelude::*;

verus! {

/// `bytes::BytesMut`, a buffer of bytes. Nothing is known of it but what the
/// functions below say.
#[verifier::external_type_specification]
#[verifier::external_body]
pub struct ExBytesMut(bytes::BytesMut);

/// The bytes that a `bytes::BytesMut` contains.
pub uninterp spec fn contents(buf: bytes::BytesMut) -> Seq<u8>;

/// `bytes::BytesMut::new`: contains nothing.
#[verifier::external_body]
pub(crate) fn new_buffer() -> (r: BytesMut)
    ensures
        contents(r) == Seq::<u8>::empty(),
{
    BytesMut::new()
}

/// `bytes::BytesMut::len`: the number of bytes contained.
#[verifier::external_body]
pub(crate) fn buffer_len(buf: &BytesMut) -> (r: usize)
    ensures
        r == contents(*buf).len(),
{
    buf.len()
}

/// `bytes::BytesMut::extend_from_slice`: appends `s`. An allocation of more
/// than `isize::MAX` bytes panics.
#[verifier::external_body]
pub(crate) fn extend_buffer(buf: &mut BytesMut, s: &[u8])
    requires
        contents(*old(buf)).len() + s@.len() <= isize::MAX,
    ensures
        contents(*final(buf)) == contents(*old(buf)) + s@,
{
    buf.extend_from_slice(s)
}

/// `bytes::BytesMut::split`: hands out all bytes, and leaves none.
#[verifier::external_body]
pub(crate) fn split_buffer(buf: &mut BytesMut) -> (r: BytesMut)
    ensures
        contents(r) == contents(*old(buf)),
        contents(*final(buf)) == Seq::<u8>::empty(),
{
    buf.split()
}

/// `bytes::BytesMut` as a slice, by its `AsRef`: the bytes contained.
#[verifier::external_body]
pub(crate) fn buffer_slice(buf: &BytesMut) -> (r: &[u8])
    ensures
        r@ == contents(*buf),
{
    buf.as_ref()
}

} // verus!
