//! What the library relies on of [`bytes::Bytes`].

use vstd::prelude::*;
use bytes::Bytes;

verus! {

/// [`bytes::Bytes`]: a shared, immutable string of bytes.
#[verifier::external_type_specification]
#[verifier::external_body]
pub struct ExBytes(bytes::Bytes);

/// The bytes that a handle holds.
pub uninterp spec fn bytes_of(b: Bytes) -> Seq<u8>;

/// [`Bytes::copy_from_slice`] gives a handle that holds a copy of the slice.
pub assume_specification[ Bytes::copy_from_slice ](data: &[u8]) -> (r: Bytes)
    ensures
        bytes_of(r) == data@,
;

/// [`Bytes::new`] gives a handle that holds nothing.
pub assume_specification[ Bytes::new ]() -> (r: Bytes)
    ensures
        bytes_of(r) == Seq::<u8>::empty(),
;

/// [`Bytes::is_empty`] tells whether the handle holds no byte.
pub assume_specification[ Bytes::is_empty ](b: &Bytes) -> (r: bool)
    ensures
        r == (bytes_of(*b).len() == 0),
;

/// Cloning a handle, [`Clone::clone`] on [`Bytes`], gives one that holds the same bytes.
pub assume_specification[ <Bytes as Clone>::clone ](b: &Bytes) -> (r: Bytes)
    ensures
        bytes_of(r) == bytes_of(*b),
;

/// The bytes of a handle as a slice: [`AsRef::as_ref`] on [`Bytes`].
#[verifier::external_body]
pub(crate) fn as_slice(b: &Bytes) -> (r: &[u8])
    ensures
        r@ == bytes_of(*b),
{
    b.as_ref()
}

} // verus!
