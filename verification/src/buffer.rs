//! Shared immutable byte buffers.
//!
//! File contents and the lines of a diff are `bytes::Bytes` handles: cutting
//! a line out of a file shares the file's storage and copies nothing.

use bytes::Bytes;
use vstd::prelude::*;

verus! {

/// `bytes::Bytes`, a cheaply shared run of bytes.  What it holds is
/// [`contents`].
#[verifier::external_type_specification]
#[verifier::external_body]
pub struct ExBytes(bytes::Bytes);

/// The bytes that a buffer holds.
pub uninterp spec fn contents(buffer: Bytes) -> Seq<u8>;

/// `Bytes::new`: a buffer that holds no byte.
#[verifier::external_body]
pub(crate) fn buffer_empty() -> (buffer: Bytes)
    ensures
        contents(buffer) == Seq::<u8>::empty(),
{
    Bytes::new()
}

/// `Bytes::clone`: a second handle on the same bytes.
pub assume_specification[ <Bytes as Clone>::clone ](buffer: &Bytes) -> (shared: Bytes)
    ensures
        contents(shared) == contents(*buffer),
;

/// `Bytes::as_ref`: the bytes of the buffer as a slice.
#[verifier::external_body]
pub(crate) fn buffer_slice(buffer: &Bytes) -> (bytes: &[u8])
    ensures
        bytes@ == contents(*buffer),
{
    buffer.as_ref()
}

} // verus!
