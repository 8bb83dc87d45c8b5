//! The byte buffers of the `bytes` crate, as verified code sees them.
//!
//! Nothing in this file is proved. Each item states what the verifier is told
//! to believe about one item of `bytes`.

use bytes::Bytes;
use bytes::BytesMut;
use vstd::prelude::*;

verus! {

/// `bytes::Bytes`: an immutable, cheaply cloneable run of bytes. Opaque to the
/// verifier; its contents are spoken of through [`bytes_view`].
#[verifier::external_type_specification]
#[verifier::external_body]
pub struct ExBytes(bytes::Bytes);

/// `bytes::BytesMut`: a growable run of bytes. Opaque to the verifier; its
/// contents are spoken of through [`bytes_mut_view`].
#[verifier::external_type_specification]
#[verifier::external_body]
pub struct ExBytesMut(bytes::BytesMut);

/// The bytes that a `Bytes` handle currently shows, first to last.
pub uninterp spec fn bytes_view(b: Bytes) -> Seq<u8>;

/// The bytes that a `BytesMut` buffer currently holds, first to last.
pub uninterp spec fn bytes_mut_view(b: BytesMut) -> Seq<u8>;

/// `Bytes::new` returns a handle that shows no bytes.
pub assume_specification[ Bytes::new ]() -> (b: Bytes)
    ensures
        bytes_view(b) == Seq::<u8>::empty(),
;

/// `Bytes::is_empty` tells whether the handle shows no bytes.
pub assume_specification[ Bytes::is_empty ](b: &Bytes) -> (r: bool)
    ensures
        r == (bytes_view(*b).len() == 0),
;

/// `Bytes::split_to` panics when `at` is past the end. Otherwise it returns
/// the first `at` bytes and leaves the rest in `b`.
pub assume_specification[ Bytes::split_to ](b: &mut Bytes, at: usize) -> (head: Bytes)
    requires
        at <= bytes_view(*old(b)).len(),
    ensures
        bytes_view(head) == bytes_view(*old(b)).subrange(0, at as int),
        bytes_view(*final(b)) == bytes_view(*old(b)).subrange(
            at as int,
            bytes_view(*old(b)).len() as int,
        ),
;

/// `Bytes::from(Vec<u8>)` takes the vector over: the handle shows the
/// vector's bytes.
pub assume_specification[ <Bytes as From<Vec<u8>>>::from ](v: Vec<u8>) -> (b: Bytes)
    ensures
        bytes_view(b) == v@,
;

/// `Bytes::clone` returns a second handle that shows the same bytes.
pub assume_specification[ <Bytes as Clone>::clone ](b: &Bytes) -> (c: Bytes)
    ensures
        bytes_view(c) == bytes_view(*b),
;

/// `Bytes::slice` with an open-ended range. It panics when `begin` is past
/// the end; otherwise the new handle shows the bytes from `begin` on.
#[verifier::external_body]
pub(crate) fn bytes_slice_from(b: &Bytes, begin: usize) -> (tail: Bytes)
    requires
        begin <= bytes_view(*b).len(),
    ensures
        bytes_view(tail) == bytes_view(*b).subrange(begin as int, bytes_view(*b).len() as int),
{
    b.slice(begin..)
}

/// `Bytes::as_ref` lends the shown bytes as a slice.
#[verifier::external_body]
pub(crate) fn bytes_as_slice(b: &Bytes) -> (s: &[u8])
    ensures
        s@ == bytes_view(*b),
{
    b.as_ref()
}

/// `BytesMut::new` returns a buffer that holds no bytes.
pub assume_specification[ BytesMut::new ]() -> (b: BytesMut)
    ensures
        bytes_mut_view(b) == Seq::<u8>::empty(),
;

/// `BytesMut::extend_from_slice` appends the slice to the buffer, growing it
/// as needed.
pub assume_specification[ BytesMut::extend_from_slice ](b: &mut BytesMut, extend: &[u8])
    ensures
        bytes_mut_view(*final(b)) == bytes_mut_view(*old(b)) + extend@,
;

/// `BytesMut::as_ref` lends the held bytes as a slice.
#[verifier::external_body]
pub(crate) fn bytes_mut_as_slice(b: &BytesMut) -> (s: &[u8])
    ensures
        s@ == bytes_mut_view(*b),
{
    b.as_ref()
}

} // verus!
