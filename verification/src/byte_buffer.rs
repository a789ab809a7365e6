//! Trusted boundary around `bytes::BytesMut`, the byte buffer that frames
//! are assembled in and parsed from. Every operation the codec performs on
//! a buffer goes through one of the wrappers below; their contracts speak
//! of `bytes_of`, the sequence of bytes a buffer currently holds.

use bytes::BufMut;
use bytes::BytesMut;
use vstd::prelude::*;

verus! {

/// The bytes a `BytesMut` currently holds, in order.
pub uninterp spec fn bytes_of(b: BytesMut) -> Seq<u8>;

#[verifier::external_type_specification]
#[verifier::external_body]
pub struct ExBytesMut(BytesMut);

/// Relies on `bytes::BytesMut::new`: a freshly created buffer holds no bytes.
#[verifier::external_body]
pub fn bm_new() -> (b: BytesMut)
    ensures
        bytes_of(b) == Seq::<u8>::empty(),
{
    BytesMut::new()
}

/// Relies on `bytes::BytesMut::len`: the number of bytes held.
#[verifier::external_body]
pub fn bm_len(b: &BytesMut) -> (n: usize)
    ensures
        n == bytes_of(*b).len(),
{
    b.len()
}

/// Relies on the slice view of `bytes::BytesMut` (its `Deref` impl): the
/// byte at position `i`.
#[verifier::external_body]
pub fn bm_byte(b: &BytesMut, i: usize) -> (r: u8)
    requires
        i < bytes_of(*b).len(),
    ensures
        r == bytes_of(*b)[i as int],
{
    b[i]
}

/// Relies on `bytes::BufMut::put_u8`: appends one byte.
#[verifier::external_body]
pub fn bm_put_u8(b: &mut BytesMut, v: u8)
    ensures
        bytes_of(*final(b)) == bytes_of(*old(b)).push(v),
{
    b.put_u8(v)
}

/// Relies on `bytes::BufMut::put_u16`: appends two bytes, big-endian
/// (high byte first).
#[verifier::external_body]
pub fn bm_put_u16(b: &mut BytesMut, v: u16)
    ensures
        bytes_of(*final(b)) == bytes_of(*old(b)).push((v / 256) as u8).push((v % 256) as u8),
{
    b.put_u16(v)
}

/// Relies on `bytes::BytesMut::unsplit`: appends the other buffer's bytes.
#[verifier::external_body]
pub fn bm_append(b: &mut BytesMut, other: BytesMut)
    ensures
        bytes_of(*final(b)) == bytes_of(*old(b)) + bytes_of(other),
{
    b.unsplit(other)
}

/// Relies on `bytes::BytesMut::extend_from_slice`: appends the slice's bytes.
#[verifier::external_body]
pub fn bm_extend(b: &mut BytesMut, data: &[u8])
    ensures
        bytes_of(*final(b)) == bytes_of(*old(b)) + data@,
{
    b.extend_from_slice(data)
}

/// Relies on `bytes::BytesMut::split_to`: removes and returns the first
/// `at` bytes, leaving the rest. Panics if `at` is past the end, which the
/// precondition rules out.
#[verifier::external_body]
pub fn bm_split_to(b: &mut BytesMut, at: usize) -> (r: BytesMut)
    requires
        at <= bytes_of(*old(b)).len(),
    ensures
        bytes_of(r) == bytes_of(*old(b)).take(at as int),
        bytes_of(*final(b)) == bytes_of(*old(b)).skip(at as int),
{
    b.split_to(at)
}

} // verus!
