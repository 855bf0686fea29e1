//! Trusted boundary around `bytes::Bytes`, the carrier of opaque payloads.
//!
//! A `Bytes` value is an immutable, cheaply clonable byte sequence.  Verus
//! sees the type as opaque; `payload_seq` names the bytes it holds, and the
//! wrappers below state what each operation does to that sequence.

use vstd::prelude::*;
use bytes::Bytes;

verus! {

#[verifier::external_type_specification]
#[verifier::external_body]
pub struct ExBytes(Bytes);

/// The byte sequence held by a `Bytes` value.
pub uninterp spec fn payload_seq(b: Bytes) -> Seq<u8>;

/// Relies on `Bytes::len`: the number of bytes held.
#[verifier::external_body]
pub(crate) fn payload_len(b: &Bytes) -> (r: usize)
    ensures
        r == payload_seq(*b).len(),
{
    b.len()
}

/// Relies on `Bytes::clone`: a clone holds the same bytes.
#[verifier::external_body]
pub(crate) fn payload_clone(b: &Bytes) -> (r: Bytes)
    ensures
        payload_seq(r) == payload_seq(*b),
{
    b.clone()
}

/// Relies on `impl From<Vec<u8>> for Bytes`: the result holds exactly the
/// bytes of the vector.
#[verifier::external_body]
pub(crate) fn payload_from_vec(v: Vec<u8>) -> (r: Bytes)
    ensures
        payload_seq(r) == v@,
{
    Bytes::from(v)
}

/// Relies on `Bytes::slice`: the result holds the bytes of the given
/// sub-range.  `Bytes::slice` panics when the range is out of bounds, so the
/// bounds are required here.
#[verifier::external_body]
pub(crate) fn payload_slice(b: &Bytes, start: usize, end: usize) -> (r: Bytes)
    requires
        start <= end <= payload_seq(*b).len(),
    ensures
        payload_seq(r) == payload_seq(*b).subrange(start as int, end as int),
{
    b.slice(start..end)
}

/// Relies on `impl AsRef<[u8]> for Bytes`: a borrowed view of the same bytes.
#[verifier::external_body]
pub(crate) fn payload_as_slice(b: &Bytes) -> (r: &[u8])
    ensures
        r@ == payload_seq(*b),
{
    b.as_ref()
}

} // verus!
