//! The byte buffers of the `bytes` crate, as the rest of the library sees them.
//!
//! Everything in this file is trusted: each item states what the `bytes`
//! crate's source does, and Verus believes it.
use vstd::prelude::*;

verus! {

#[verifier::external_type_specification]
#[verifier::external_body]
pub struct ExBytes(bytes::Bytes);

#[verifier::external_type_specification]
#[verifier::external_body]
pub struct ExBytesMut(bytes::BytesMut);

/// The bytes that a `bytes::Bytes` holds, in order.
pub uninterp spec fn bytes_view(b: bytes::Bytes) -> Seq<u8>;

/// The bytes that a `bytes::BytesMut` holds, in order.
pub uninterp spec fn bytes_mut_view(b: bytes::BytesMut) -> Seq<u8>;

/// `<Bytes as Clone>::clone`: a second handle on the same bytes.
pub assume_specification[ <bytes::Bytes as Clone>::clone ](b: &bytes::Bytes) -> (r: bytes::Bytes)
    ensures
        bytes_view(r) == bytes_view(*b),
;

/// `<Bytes as Deref>::deref`: the slice of all bytes held, in order.
#[verifier::external_body]
pub(crate) fn bytes_as_slice(b: &bytes::Bytes) -> (s: &[u8])
    ensures
        s@ == bytes_view(*b),
{
    b
}

/// `<BytesMut as Deref>::deref`: the slice of all bytes held, in order.
#[verifier::external_body]
pub(crate) fn bytes_mut_as_slice(b: &bytes::BytesMut) -> (s: &[u8])
    ensures
        s@ == bytes_mut_view(*b),
{
    b
}

/// `BytesMut::split_to`: the first `at` bytes move to the result, the rest
/// stay. The crate asserts `at <= len` and panics otherwise.
#[verifier::external_body]
pub(crate) fn bytes_mut_split_to(b: &mut bytes::BytesMut, at: usize) -> (head: bytes::BytesMut)
    requires
        at <= bytes_mut_view(*old(b)).len(),
    ensures
        bytes_mut_view(head) == bytes_mut_view(*old(b)).take(at as int),
        bytes_mut_view(*final(b)) == bytes_mut_view(*old(b)).skip(at as int),
{
    b.split_to(at)
}

/// `BytesMut::clear`: afterwards the buffer holds no bytes.
#[verifier::external_body]
pub(crate) fn bytes_mut_clear(b: &mut bytes::BytesMut)
    ensures
        bytes_mut_view(*final(b)) == Seq::<u8>::empty(),
{
    b.clear()
}

/// `BytesMut::freeze`: the same bytes, as an immutable `Bytes`.
#[verifier::external_body]
pub(crate) fn bytes_mut_freeze(b: bytes::BytesMut) -> (r: bytes::Bytes)
    ensures
        bytes_view(r) == bytes_mut_view(b),
{
    b.freeze()
}

} // verus!
