//! The byte buffers of the `bytes` crate, as far as the codec uses them.
use vstd::prelude::*;
use bytes::{Bytes, BytesMut};

verus! {

/// `bytes::Bytes`, an immutable shared byte buffer, opaque here.
#[verifier::external_type_specification]
#[verifier::external_body]
pub struct ExBytes(Bytes);

/// `bytes::BytesMut`, a growable byte buffer, opaque here.
#[verifier::external_type_specification]
#[verifier::external_body]
pub struct ExBytesMut(BytesMut);

/// The bytes held by a `Bytes` handle.
pub uninterp spec fn bytes_contents(b: Bytes) -> Seq<u8>;

/// The bytes held by a `BytesMut` buffer.
pub uninterp spec fn bytes_mut_contents(b: BytesMut) -> Seq<u8>;

/// `BytesMut::len`: the number of bytes in the buffer.
#[verifier::external_body]
pub fn buf_len(b: &BytesMut) -> (n: usize)
    ensures
        n == bytes_mut_contents(*b).len(),
{
    b.len()
}

/// `BytesMut` seen as a slice (its `Deref`): the bytes it holds.
#[verifier::external_body]
pub fn buf_as_slice(b: &BytesMut) -> (s: &[u8])
    ensures
        s@ == bytes_mut_contents(*b),
{
    &b[..]
}

/// `BytesMut::reserve`: room for `additional` more bytes; the contents stay.
/// It panics only where the new capacity overflows, which `requires` rules out.
#[verifier::external_body]
pub fn buf_reserve(b: &mut BytesMut, additional: usize)
    requires
        bytes_mut_contents(*old(b)).len() + additional <= isize::MAX,
    ensures
        bytes_mut_contents(*final(b)) == bytes_mut_contents(*old(b)),
{
    b.reserve(additional)
}

/// `BytesMut::split_to`: the first `at` bytes move into the returned buffer,
/// the rest stay in `b`.
#[verifier::external_body]
pub fn buf_split_to(b: &mut BytesMut, at: usize) -> (head: BytesMut)
    requires
        at <= bytes_mut_contents(*old(b)).len(),
    ensures
        bytes_mut_contents(head) == bytes_mut_contents(*old(b)).take(at as int),
        bytes_mut_contents(*final(b)) == bytes_mut_contents(*old(b)).skip(at as int),
{
    b.split_to(at)
}

/// `BytesMut::freeze`: the same bytes, as an immutable handle.
#[verifier::external_body]
pub fn buf_freeze(b: BytesMut) -> (r: Bytes)
    ensures
        bytes_contents(r) == bytes_mut_contents(b),
{
    b.freeze()
}

/// `BufMut::put_u8` on a `BytesMut`: appends one byte.
#[verifier::external_body]
pub fn buf_put_u8(b: &mut BytesMut, v: u8)
    requires
        bytes_mut_contents(*old(b)).len() + 1 <= isize::MAX,
    ensures
        bytes_mut_contents(*final(b)) == bytes_mut_contents(*old(b)).push(v),
{
    bytes::BufMut::put_u8(b, v)
}

/// `BufMut::put_u16` on a `BytesMut`: appends the two bytes of `v`, most
/// significant first.
#[verifier::external_body]
pub fn buf_put_u16(b: &mut BytesMut, v: u16)
    requires
        bytes_mut_contents(*old(b)).len() + 2 <= isize::MAX,
    ensures
        bytes_mut_contents(*final(b)) == bytes_mut_contents(*old(b)).push((v / 256) as u8).push(
            (v % 256) as u8,
        ),
{
    bytes::BufMut::put_u16(b, v)
}

/// `Bytes` seen as a slice (its `Deref`): the bytes it holds.
#[verifier::external_body]
pub fn bytes_as_slice(b: &Bytes) -> (s: &[u8])
    ensures
        s@ == bytes_contents(*b),
{
    &b[..]
}

/// `Bytes::slice`: a handle on the bytes from `begin` up to `end`, sharing
/// the same memory.
#[verifier::external_body]
pub fn bytes_slice(b: &Bytes, begin: usize, end: usize) -> (r: Bytes)
    requires
        begin <= end <= bytes_contents(*b).len(),
    ensures
        bytes_contents(r) == bytes_contents(*b).subrange(begin as int, end as int),
{
    b.slice(begin..end)
}

/// `Bytes::clone`: another handle on the same bytes.
pub assume_specification[ <Bytes as Clone>::clone ](b: &Bytes) -> (r: Bytes)
    ensures
        bytes_contents(r) == bytes_contents(*b),
;

} // verus!
