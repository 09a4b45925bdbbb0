//! What the codec uses of the shared byte buffers of the `bytes` crate.
use bytes::{Buf, Bytes, BytesMut};
use vstd::prelude::*;

verus! {

/// `bytes::Bytes`, a cheaply cloned immutable buffer.
#[verifier::external_type_specification]
#[verifier::external_body]
pub struct ExBytes(bytes::Bytes);

/// `bytes::BytesMut`, a growable buffer.
#[verifier::external_type_specification]
#[verifier::external_body]
pub struct ExBytesMut(bytes::BytesMut);

/// The bytes that a `Bytes` holds.
pub uninterp spec fn bytes_contents(buffer: Bytes) -> Seq<u8>;

/// The bytes that a `BytesMut` holds.
pub uninterp spec fn bytes_mut_contents(buffer: BytesMut) -> Seq<u8>;

/// `Bytes::len`: the number of bytes held.
pub assume_specification[ Bytes::len ](buffer: &Bytes) -> (length: usize)
    ensures
        length == bytes_contents(*buffer).len(),
;

/// `Bytes::is_empty`: whether no byte is held.
pub assume_specification[ Bytes::is_empty ](buffer: &Bytes) -> (empty: bool)
    ensures
        empty == (bytes_contents(*buffer).len() == 0),
;

/// `Bytes::split_to`: takes the first `at` bytes out and leaves the rest. It panics beyond the end.
pub assume_specification[ Bytes::split_to ](buffer: &mut Bytes, at: usize) -> (front: Bytes)
    requires
        at <= bytes_contents(*old(buffer)).len(),
    ensures
        bytes_contents(front) == bytes_contents(*old(buffer)).take(at as int),
        bytes_contents(*final(buffer)) == bytes_contents(*old(buffer)).skip(at as int),
;

/// `Bytes::copy_from_slice`: a new buffer with the same bytes.
pub assume_specification[ Bytes::copy_from_slice ](data: &[u8]) -> (buffer: Bytes)
    ensures
        bytes_contents(buffer) == data@,
;

/// `BytesMut::len`: the number of bytes held.
pub assume_specification[ BytesMut::len ](buffer: &BytesMut) -> (length: usize)
    ensures
        length == bytes_mut_contents(*buffer).len(),
;

/// `BytesMut::split_to`: takes the first `at` bytes out and leaves the rest. It panics beyond the
/// end.
pub assume_specification[ BytesMut::split_to ](buffer: &mut BytesMut, at: usize) -> (front: BytesMut)
    requires
        at <= bytes_mut_contents(*old(buffer)).len(),
    ensures
        bytes_mut_contents(front) == bytes_mut_contents(*old(buffer)).take(at as int),
        bytes_mut_contents(*final(buffer)) == bytes_mut_contents(*old(buffer)).skip(at as int),
;

/// `BytesMut::freeze`: the same bytes, no longer growable.
pub assume_specification[ BytesMut::freeze ](buffer: BytesMut) -> (frozen: Bytes)
    ensures
        bytes_contents(frozen) == bytes_mut_contents(buffer),
;

/// `Deref for Bytes`: the bytes held, as a slice.
#[verifier::external_body]
pub(crate) fn bytes_slice(buffer: &Bytes) -> (slice: &[u8])
    ensures
        slice@ == bytes_contents(*buffer),
{
    buffer
}

/// `Deref for BytesMut`: the bytes held, as a slice.
#[verifier::external_body]
pub(crate) fn bytes_mut_slice(buffer: &BytesMut) -> (slice: &[u8])
    ensures
        slice@ == bytes_mut_contents(*buffer),
{
    buffer
}

/// `Buf::advance` of `Bytes`: drops the first `count` bytes. It panics beyond the end.
#[verifier::external_body]
pub(crate) fn advance(buffer: &mut Bytes, count: usize)
    requires
        count <= bytes_contents(*old(buffer)).len(),
    ensures
        bytes_contents(*final(buffer)) == bytes_contents(*old(buffer)).skip(count as int),
{
    buffer.advance(count)
}

/// `Buf::get_u8` of `Bytes`: removes and returns the first byte. It panics on an empty buffer.
#[verifier::external_body]
pub(crate) fn get_u8(buffer: &mut Bytes) -> (value: u8)
    requires
        bytes_contents(*old(buffer)).len() >= 1,
    ensures
        value == bytes_contents(*old(buffer))[0],
        bytes_contents(*final(buffer)) == bytes_contents(*old(buffer)).skip(1),
{
    buffer.get_u8()
}

/// `Buf::get_u16` of `Bytes`: removes two bytes and returns them as a big-endian number. It panics
/// on a shorter buffer.
#[verifier::external_body]
pub(crate) fn get_u16(buffer: &mut Bytes) -> (value: u16)
    requires
        bytes_contents(*old(buffer)).len() >= 2,
    ensures
        value == crate::number::be(bytes_contents(*old(buffer)).take(2)),
        bytes_contents(*final(buffer)) == bytes_contents(*old(buffer)).skip(2),
{
    buffer.get_u16()
}

/// `Buf::get_u32` of `Bytes`: removes four bytes and returns them as a big-endian number. It
/// panics on a shorter buffer.
#[verifier::external_body]
pub(crate) fn get_u32(buffer: &mut Bytes) -> (value: u32)
    requires
        bytes_contents(*old(buffer)).len() >= 4,
    ensures
        value == crate::number::be(bytes_contents(*old(buffer)).take(4)),
        bytes_contents(*final(buffer)) == bytes_contents(*old(buffer)).skip(4),
{
    buffer.get_u32()
}

/// A vector with the bytes of a buffer.
pub fn to_vec(buffer: &Bytes) -> (copy: Vec<u8>)
    ensures
        copy@ == bytes_contents(*buffer),
{
    crate::number::copy_bytes(bytes_slice(buffer))
}

} // verus!
