//! The byte buffers of the `bytes` crate, as the rest of the library sees them.
//!
//! `Bytes` and `BytesMut` are kept as they are; their contents are named by
//! `bytes_view` and `bytes_mut_view`, and each method the library calls has a
//! specification over those names, taken from the crate's source.

use bytes::{Buf, BufMut, Bytes, BytesMut};
use vstd::prelude::*;

verus! {

#[verifier::external_type_specification]
#[verifier::external_body]
pub struct ExBytes(Bytes);

#[verifier::external_type_specification]
#[verifier::external_body]
pub struct ExBytesMut(BytesMut);

/// The sequence of bytes that a `Bytes` handle holds.
pub uninterp spec fn bytes_view(b: Bytes) -> Seq<u8>;

/// The sequence of bytes that a `BytesMut` buffer holds (its initialised part).
pub uninterp spec fn bytes_mut_view(b: BytesMut) -> Seq<u8>;

/// `Bytes::copy_from_slice` copies the slice into a fresh handle.
pub assume_specification[ Bytes::copy_from_slice ](data: &[u8]) -> (r: Bytes)
    ensures
        bytes_view(r) == data@,
;

/// `Bytes` dereferences to a slice of exactly the bytes it holds.
pub assume_specification[ <Bytes as core::ops::Deref>::deref ](b: &Bytes) -> (r: &[u8])
    ensures
        r@ == bytes_view(*b),
;

/// Cloning a `Bytes` handle shares the same bytes.
pub assume_specification[ <Bytes as Clone>::clone ](b: &Bytes) -> (r: Bytes)
    ensures
        bytes_view(r) == bytes_view(*b),
;

/// `BytesMut::with_capacity` makes an empty buffer (through
/// `Vec::with_capacity`, which panics on a capacity above `isize::MAX`).
pub assume_specification[ BytesMut::with_capacity ](capacity: usize) -> (r: BytesMut)
    requires
        capacity <= isize::MAX,
    ensures
        bytes_mut_view(r) == Seq::<u8>::empty(),
;

/// `BytesMut` dereferences to a slice of its initialised bytes.
pub assume_specification[ <BytesMut as core::ops::Deref>::deref ](b: &BytesMut) -> (r: &[u8])
    ensures
        r@ == bytes_mut_view(*b),
;

/// `BufMut::put_u8` on a `BytesMut` appends one byte (growing the buffer;
/// running out of memory is not modelled, as for `Vec::push`).
#[verifier::external_body]
pub(crate) fn put_u8(b: &mut BytesMut, n: u8)
    ensures
        bytes_mut_view(*final(b)) == bytes_mut_view(*old(b)).push(n),
{
    b.put_u8(n)
}

/// `BufMut::put_slice` on a `BytesMut` appends the slice (through
/// `extend_from_slice`; running out of memory is not modelled).
pub assume_specification[ <BytesMut as BufMut>::put_slice ](b: &mut BytesMut, src: &[u8])
    ensures
        bytes_mut_view(*final(b)) == bytes_mut_view(*old(b)) + src@,
;

/// `Buf::advance` on a `BytesMut` drops the first `cnt` bytes; it panics when
/// `cnt` exceeds the length, which `requires` rules out.
pub assume_specification[ <BytesMut as Buf>::advance ](b: &mut BytesMut, cnt: usize)
    requires
        cnt <= bytes_mut_view(*old(b)).len(),
    ensures
        bytes_mut_view(*final(b)) == bytes_mut_view(*old(b)).skip(cnt as int),
;

/// `BytesMut::clear` empties the buffer.
pub assume_specification[ BytesMut::clear ](b: &mut BytesMut)
    ensures
        bytes_mut_view(*final(b)) == Seq::<u8>::empty(),
;

/// `BytesMut::freeze` turns the buffer into an immutable handle over the same bytes.
pub assume_specification[ BytesMut::freeze ](b: BytesMut) -> (r: Bytes)
    ensures
        bytes_view(r) == bytes_mut_view(b),
;

/// `Bytes::from(Vec<u8>)` takes over the vector's bytes.
#[verifier::external_body]
pub(crate) fn bytes_from_vec(v: Vec<u8>) -> (r: Bytes)
    ensures
        bytes_view(r) == v@,
{
    Bytes::from(v)
}

} // verus!
