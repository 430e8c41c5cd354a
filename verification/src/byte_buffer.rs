//! The growable byte buffer of the `bytes` crate, as the KISS codec sees it.
//!
//! `BytesMut` is opaque to the verifier: what a value holds is named by
//! [`bytes_mut_contents`], and each method the codec calls has a wrapper whose
//! contract says what the method does to those contents.

use vstd::prelude::*;

verus! {

/// Declares `bytes::BytesMut` to the verifier as an opaque type.
#[verifier::external_type_specification]
#[verifier::external_body]
pub struct ExBytesMut(bytes::BytesMut);

/// The bytes a `BytesMut` holds, front to back.
pub uninterp spec fn bytes_mut_contents(b: bytes::BytesMut) -> Seq<u8>;

/// Calls `BytesMut::len`, which returns the number of bytes held.
#[verifier::external_body]
pub(crate) fn buf_len(b: &bytes::BytesMut) -> (n: usize)
    ensures
        n == bytes_mut_contents(*b).len(),
{
    b.len()
}

/// Reads one byte through `BytesMut`'s `Deref` to `[u8]` and slice indexing;
/// in bounds it returns the byte at that position.
#[verifier::external_body]
pub(crate) fn buf_byte(b: &bytes::BytesMut, i: usize) -> (x: u8)
    requires
        i < bytes_mut_contents(*b).len(),
    ensures
        x == bytes_mut_contents(*b)[i as int],
{
    b[i]
}

/// Calls `<BytesMut as Buf>::advance`, which drops the first `cnt` bytes;
/// it panics when `cnt` exceeds the length, which `requires` rules out.
#[verifier::external_body]
pub(crate) fn buf_advance(b: &mut bytes::BytesMut, cnt: usize)
    requires
        cnt <= bytes_mut_contents(*old(b)).len(),
    ensures
        bytes_mut_contents(*final(b)) == bytes_mut_contents(*old(b)).skip(cnt as int),
{
    bytes::Buf::advance(b, cnt)
}

/// Calls `BytesMut::split_to`: the result holds the first `at` bytes and the
/// buffer keeps the rest; it panics when `at` exceeds the length.
#[verifier::external_body]
pub(crate) fn buf_split_to(b: &mut bytes::BytesMut, at: usize) -> (head: bytes::BytesMut)
    requires
        at <= bytes_mut_contents(*old(b)).len(),
    ensures
        bytes_mut_contents(head) == bytes_mut_contents(*old(b)).take(at as int),
        bytes_mut_contents(*final(b)) == bytes_mut_contents(*old(b)).skip(at as int),
{
    b.split_to(at)
}

/// Calls `BytesMut::clear`, which removes every byte.
#[verifier::external_body]
pub(crate) fn buf_clear(b: &mut bytes::BytesMut)
    ensures
        bytes_mut_contents(*final(b)) == Seq::<u8>::empty(),
{
    b.clear()
}

/// Calls `BytesMut::reserve`, which only changes capacity; it panics when the
/// new capacity would overflow, which the bound on the length rules out.
#[verifier::external_body]
pub(crate) fn buf_reserve(b: &mut bytes::BytesMut, additional: usize)
    requires
        bytes_mut_contents(*old(b)).len() + additional <= isize::MAX,
    ensures
        bytes_mut_contents(*final(b)) == bytes_mut_contents(*old(b)),
{
    b.reserve(additional)
}

/// Calls `<BytesMut as BufMut>::put_u8`, which appends one byte.
#[verifier::external_body]
pub(crate) fn buf_put_u8(b: &mut bytes::BytesMut, x: u8)
    requires
        bytes_mut_contents(*old(b)).len() + 1 <= isize::MAX,
    ensures
        bytes_mut_contents(*final(b)) == bytes_mut_contents(*old(b)).push(x),
{
    bytes::BufMut::put_u8(b, x)
}

} // verus!
