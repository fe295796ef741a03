//! The byte containers that the buffers are built on, `Bytes` and
//! `BytesMut` of the `bytes` crate, and what is taken on trust of them.
//!
//! Nothing in this file is proved. Every contract below restates what the
//! named function's source or documentation says, in terms of the bytes
//! that a container holds.

use bytes::{BufMut, Bytes, BytesMut};
use std::collections::VecDeque;
use vstd::prelude::*;

verus! {

/// `bytes::Bytes`, an immutable run of bytes.
#[verifier::external_type_specification]
#[verifier::external_body]
pub struct ExBytes(bytes::Bytes);

/// `bytes::BytesMut`, a growable run of bytes.
#[verifier::external_type_specification]
#[verifier::external_body]
pub struct ExBytesMut(bytes::BytesMut);

/// The bytes that a `Bytes` holds, in order.
pub uninterp spec fn bytes_contents(b: Bytes) -> Seq<u8>;

/// The bytes that a `BytesMut` holds, in order.
pub uninterp spec fn bytes_mut_contents(b: BytesMut) -> Seq<u8>;

/// `Bytes::len`: the number of bytes held.
pub assume_specification[ Bytes::len ](b: &Bytes) -> (n: usize)
    ensures
        n == bytes_contents(*b).len(),
;

/// `BytesMut::len`: the number of bytes held.
pub assume_specification[ BytesMut::len ](b: &BytesMut) -> (n: usize)
    ensures
        n == bytes_mut_contents(*b).len(),
;

/// `BytesMut::zeroed`: a container of `len` zero bytes. It allocates as a
/// `Vec` does, which panics beyond `isize::MAX` bytes.
pub assume_specification[ BytesMut::zeroed ](len: usize) -> (b: BytesMut)
    requires
        len <= isize::MAX,
    ensures
        bytes_mut_contents(b) == Seq::new(len as nat, |i: int| 0u8),
;

/// `Deref::deref` of `Bytes`: the held bytes as a slice.
#[verifier::external_body]
pub(crate) fn bytes_as_slice(b: &Bytes) -> (s: &[u8])
    ensures
        s@ == bytes_contents(*b),
{
    core::ops::Deref::deref(b)
}

/// `Deref::deref` of `BytesMut`: the held bytes as a slice.
#[verifier::external_body]
pub(crate) fn bytes_mut_as_slice(b: &BytesMut) -> (s: &[u8])
    ensures
        s@ == bytes_mut_contents(*b),
{
    core::ops::Deref::deref(b)
}

/// `DerefMut::deref_mut` of `BytesMut`: the held bytes as a mutable slice.
/// What the slice holds when the borrow ends is what the container holds.
#[verifier::external_body]
pub(crate) fn bytes_mut_as_mut_slice(b: &mut BytesMut) -> (s: &mut [u8])
    ensures
        s@ == bytes_mut_contents(*old(b)),
        bytes_mut_contents(*final(b)) == final(s)@,
{
    core::ops::DerefMut::deref_mut(b)
}

/// `BufMut::put_slice` of `BytesMut`: appends `src`, growing the container
/// as needed. Growing panics where the new length overflows what a `Vec`
/// may hold.
#[verifier::external_body]
pub(crate) fn bytes_mut_put_slice(b: &mut BytesMut, src: &[u8])
    requires
        bytes_mut_contents(*old(b)).len() + src@.len() <= isize::MAX,
    ensures
        bytes_mut_contents(*final(b)) == bytes_mut_contents(*old(b)) + src@,
{
    b.put_slice(src)
}

/// `From<&[u8]>` of `BytesMut`: a container holding a copy of `src`.
#[verifier::external_body]
pub(crate) fn bytes_mut_from_slice(src: &[u8]) -> (b: BytesMut)
    ensures
        bytes_mut_contents(b) == src@,
{
    BytesMut::from(src)
}

/// `<[u8]>::copy_from_slice` of std: overwrites `dst` with `src`. It
/// panics unless both have the same length.
#[verifier::external_body]
pub(crate) fn copy_from_slice(dst: &mut [u8], src: &[u8])
    requires
        old(dst)@.len() == src@.len(),
    ensures
        final(dst)@ == src@,
{
    dst.copy_from_slice(src)
}

/// `IndexMut::index_mut` of std's `VecDeque`: a mutable borrow of element
/// `i`. It panics where `i` is out of bounds. When the borrow ends the
/// deque holds what the borrow holds at `i`, and its other elements as
/// before.
#[verifier::external_body]
pub(crate) fn deque_index_mut<T>(v: &mut VecDeque<T>, i: usize) -> (element: &mut T)
    requires
        i < old(v)@.len(),
    ensures
        *element == old(v)@[i as int],
        final(v)@ == old(v)@.update(i as int, *final(element)),
{
    core::ops::IndexMut::index_mut(v, i)
}

} // verus!
