use vstd::prelude::*;

verus! {

#[verifier::external_type_specification]
#[verifier::external_body]
pub struct ExBytes(bytes::Bytes);

#[verifier::external_type_specification]
#[verifier::external_body]
pub struct ExBytesMut(bytes::BytesMut);

/// The bytes that a `bytes::Bytes` holds.
pub uninterp spec fn bytes_view(b: bytes::Bytes) -> Seq<u8>;

/// The bytes that a `bytes::BytesMut` holds.
pub uninterp spec fn bytes_mut_view(b: bytes::BytesMut) -> Seq<u8>;

/// `bytes::Bytes::copy_from_slice`: a new buffer holding a copy of `data`.
#[verifier::external_body]
pub(crate) fn bytes_copy_from_slice(data: &[u8]) -> (b: bytes::Bytes)
    ensures
        bytes_view(b) == data@,
{
    bytes::Bytes::copy_from_slice(data)
}

/// `<bytes::Bytes as From<Vec<u8>>>::from`: a buffer holding the bytes of `data`.
#[verifier::external_body]
pub(crate) fn bytes_from_vec(data: Vec<u8>) -> (b: bytes::Bytes)
    ensures
        bytes_view(b) == data@,
{
    bytes::Bytes::from(data)
}

/// `<bytes::Bytes as Deref>::deref`: the bytes held, as a slice.
#[verifier::external_body]
pub(crate) fn bytes_as_slice(b: &bytes::Bytes) -> (s: &[u8])
    ensures
        s@ == bytes_view(*b),
{
    b
}

/// `<bytes::BytesMut as BufMut>::put_bytes`: appends `count` copies of `value`.
#[verifier::external_body]
pub(crate) fn bytes_mut_put_bytes(b: &mut bytes::BytesMut, value: u8, count: usize)
    requires
        bytes_mut_view(*old(b)).len() + count <= isize::MAX,
    ensures
        bytes_mut_view(*final(b)) == bytes_mut_view(*old(b)) + Seq::new(count as nat, |i: int| value),
{
    bytes::BufMut::put_bytes(b, value, count)
}

/// `bytes::BytesMut::split`: hands out everything held and leaves the buffer empty.
#[verifier::external_body]
pub(crate) fn bytes_mut_split(b: &mut bytes::BytesMut) -> (front: bytes::BytesMut)
    ensures
        bytes_mut_view(front) == bytes_mut_view(*old(b)),
        bytes_mut_view(*final(b)) == Seq::<u8>::empty(),
{
    b.split()
}

/// `bytes::BytesMut::freeze`: the same bytes as an immutable buffer.
#[verifier::external_body]
pub(crate) fn bytes_mut_freeze(b: bytes::BytesMut) -> (frozen: bytes::Bytes)
    ensures
        bytes_view(frozen) == bytes_mut_view(b),
{
    b.freeze()
}

/// The number of bytes `b` holds.
pub fn bytes_len(b: &bytes::Bytes) -> (n: usize)
    ensures
        n == bytes_view(*b).len(),
{
    bytes_as_slice(b).len()
}

} // verus!
