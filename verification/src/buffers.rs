//! The byte buffers of the `bytes` crate, as the codec reads and fills them.
//! Each buffer is modelled by the sequence of bytes it holds.
use vstd::prelude::*;
use bytes::{Buf, BufMut, Bytes, BytesMut};
use crate::encoding::{be_bytes, be_value};

verus! {

#[verifier::external_type_specification]
#[verifier::external_body]
pub struct ExBytesMut(BytesMut);

#[verifier::external_type_specification]
#[verifier::external_body]
pub struct ExBytes(Bytes);

/// The bytes a `BytesMut` holds, front first.
pub uninterp spec fn buf_contents(b: BytesMut) -> Seq<u8>;

/// The bytes a `Bytes` holds, front first.
pub uninterp spec fn bytes_contents(b: Bytes) -> Seq<u8>;

/// `BytesMut::len`: the number of bytes held.
#[verifier::external_body]
pub(crate) fn buf_len(b: &BytesMut) -> (n: usize)
    ensures
        n == buf_contents(*b).len(),
{
    b.len()
}

/// `BytesMut` as a slice (`Deref`): the bytes held.
#[verifier::external_body]
pub(crate) fn buf_as_slice(b: &BytesMut) -> (s: &[u8])
    ensures
        s@ == buf_contents(*b),
{
    b
}

/// `Buf::advance` on a `BytesMut`: drops the first `cnt` bytes.
/// The crate panics when `cnt` exceeds the length; that is excluded.
#[verifier::external_body]
pub(crate) fn buf_advance(b: &mut BytesMut, cnt: usize)
    requires
        cnt <= buf_contents(*old(b)).len(),
    ensures
        buf_contents(*final(b)) == buf_contents(*old(b)).skip(cnt as int),
{
    b.advance(cnt)
}

/// `Buf::get_u8` on a `BytesMut`: takes the first byte off the front.
/// The crate panics on an empty buffer; that is excluded.
#[verifier::external_body]
pub(crate) fn buf_get_u8(b: &mut BytesMut) -> (v: u8)
    requires
        buf_contents(*old(b)).len() >= 1,
    ensures
        v == buf_contents(*old(b))[0],
        buf_contents(*final(b)) == buf_contents(*old(b)).skip(1),
{
    b.get_u8()
}

/// `Buf::get_u32` on a `BytesMut`: takes four bytes off the front and reads
/// them as a big-endian number. Fewer than four bytes panic; excluded.
#[verifier::external_body]
pub(crate) fn buf_get_u32(b: &mut BytesMut) -> (v: u32)
    requires
        buf_contents(*old(b)).len() >= 4,
    ensures
        v == be_value(buf_contents(*old(b)).take(4)),
        buf_contents(*final(b)) == buf_contents(*old(b)).skip(4),
{
    b.get_u32()
}

/// `BytesMut::split_to`: returns the first `at` bytes and keeps the rest.
/// The crate panics when `at` exceeds the length; that is excluded.
#[verifier::external_body]
pub(crate) fn buf_split_to(b: &mut BytesMut, at: usize) -> (front: BytesMut)
    requires
        at <= buf_contents(*old(b)).len(),
    ensures
        buf_contents(front) == buf_contents(*old(b)).take(at as int),
        buf_contents(*final(b)) == buf_contents(*old(b)).skip(at as int),
{
    b.split_to(at)
}

/// `BytesMut::freeze`: the same bytes as an immutable `Bytes`.
#[verifier::external_body]
pub(crate) fn buf_freeze(b: BytesMut) -> (frozen: Bytes)
    ensures
        bytes_contents(frozen) == buf_contents(b),
{
    b.freeze()
}

/// `BufMut::put_u32` on a `BytesMut`: appends the four big-endian bytes of
/// `n`. Growth past `isize::MAX` bytes panics; excluded.
#[verifier::external_body]
pub(crate) fn buf_put_u32(b: &mut BytesMut, n: u32)
    requires
        buf_contents(*old(b)).len() + 4 <= isize::MAX,
    ensures
        buf_contents(*final(b)) == buf_contents(*old(b)) + be_bytes(n),
{
    b.put_u32(n)
}

/// `BufMut::put_u8` on a `BytesMut`: appends one byte. Growth past
/// `isize::MAX` bytes panics; excluded.
#[verifier::external_body]
pub(crate) fn buf_put_u8(b: &mut BytesMut, n: u8)
    requires
        buf_contents(*old(b)).len() + 1 <= isize::MAX,
    ensures
        buf_contents(*final(b)) == buf_contents(*old(b)).push(n),
{
    b.put_u8(n)
}

/// `BytesMut::extend_from_slice`: appends the given bytes. Growth past
/// `isize::MAX` bytes panics; excluded.
#[verifier::external_body]
pub(crate) fn buf_extend(b: &mut BytesMut, data: &[u8])
    requires
        buf_contents(*old(b)).len() + data@.len() <= isize::MAX,
    ensures
        buf_contents(*final(b)) == buf_contents(*old(b)) + data@,
{
    b.extend_from_slice(data)
}

/// `Bytes` as a slice (`Deref`): the bytes held.
#[verifier::external_body]
pub(crate) fn bytes_as_slice(b: &Bytes) -> (s: &[u8])
    ensures
        s@ == bytes_contents(*b),
{
    b
}

} // verus!
