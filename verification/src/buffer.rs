//! The shared payload buffer: what a publish wrote is what a stand records and delivers.

use bytes::Bytes;
use vstd::prelude::*;

verus! {

/// A reference-counted run of bytes.
#[verifier::external_type_specification]
#[verifier::external_body]
pub struct ExBytes(bytes::Bytes);

/// The bytes a buffer holds, in order.
pub uninterp spec fn contents(buffer: Bytes) -> Seq<u8>;

/// The `Clone` of `bytes::Bytes`: another handle, which holds the same bytes. The handles share
/// one allocation, which the contract does not say: it speaks of contents, not of addresses.
#[verifier::external_body]
pub(crate) fn share(buffer: &Bytes) -> (other: Bytes)
    ensures
        contents(other) == contents(*buffer),
{
    buffer.clone()
}

/// `bytes::Bytes::from` of a vector: a buffer of the vector's bytes.
#[verifier::external_body]
pub(crate) fn hold(bytes: Vec<u8>) -> (buffer: Bytes)
    ensures
        contents(buffer) == bytes@,
{
    Bytes::from(bytes)
}

/// The `AsRef<[u8]>` of `bytes::Bytes`: the bytes the buffer holds.
#[verifier::external_body]
pub(crate) fn bytes_of(buffer: &Bytes) -> (bytes: &[u8])
    ensures
        bytes@ == contents(*buffer),
{
    buffer.as_ref()
}

} // verus!
