//! The shared, immutable byte buffer of the `bytes` crate, as the rest of
//! the library sees it: a sequence of bytes.
use vstd::prelude::*;
use bytes::Bytes;

verus! {

/// The outside buffer type, carried through the library opaquely.
#[verifier::external_type_specification]
#[verifier::external_body]
pub struct ExBytes(Bytes);

/// The bytes a `Bytes` buffer holds.
pub uninterp spec fn bytes_contents(b: Bytes) -> Seq<u8>;

/// Calls `Bytes::new`, documented to create an empty buffer; claims that the
/// new buffer holds no bytes.
#[verifier::external_body]
pub(crate) fn bytes_empty() -> (r: Bytes)
    ensures
        bytes_contents(r) == Seq::<u8>::empty(),
{
    Bytes::new()
}

/// Calls `<Bytes as From<Vec<u8>>>::from`, which takes over the vector's
/// storage; claims that the buffer holds exactly the vector's bytes.
#[verifier::external_body]
pub(crate) fn bytes_from_vec(v: Vec<u8>) -> (r: Bytes)
    ensures
        bytes_contents(r) == v@,
{
    Bytes::from(v)
}

/// Calls `Bytes::copy_from_slice`; claims that the new buffer holds a copy
/// of exactly the slice's bytes.
#[verifier::external_body]
pub(crate) fn bytes_copy_from_slice(data: &[u8]) -> (r: Bytes)
    ensures
        bytes_contents(r) == data@,
{
    Bytes::copy_from_slice(data)
}

/// Calls `<Bytes as Clone>::clone`, which shares the buffer; claims that the
/// clone holds the same bytes.
#[verifier::external_body]
pub(crate) fn bytes_clone(b: &Bytes) -> (r: Bytes)
    ensures
        bytes_contents(r) == bytes_contents(*b),
{
    b.clone()
}

/// Calls `<Bytes as AsRef<[u8]>>::as_ref`; claims that the slice it lends
/// shows exactly the buffer's bytes.
#[verifier::external_body]
pub(crate) fn bytes_as_slice(b: &Bytes) -> (r: &[u8])
    ensures
        r@ == bytes_contents(*b),
{
    b.as_ref()
}

} // verus!
