//! The decoder's view of the transport buffer: a `bytes::BytesMut` owned by
//! the caller, which appends newly received bytes at the back while the
//! decoder removes the bytes of each completed message from the front.
//!
//! The buffer's contents are modelled as the byte sequence `bview`.

use vstd::prelude::*;

verus! {

#[verifier::external_type_specification]
#[verifier::external_body]
pub struct ExBytesMut(bytes::BytesMut);

/// The bytes the buffer currently holds, oldest first.
pub uninterp spec fn bview(b: bytes::BytesMut) -> Seq<u8>;

/// Relies on `BytesMut::len`: the number of bytes in the buffer.
#[verifier::external_body]
pub(crate) fn buf_len(b: &bytes::BytesMut) -> (n: usize)
    ensures
        n == bview(*b).len(),
{
    b.len()
}

/// Relies on the slice view of `BytesMut` (`Deref<Target = [u8]>`): reads
/// the byte at index `i`.
#[verifier::external_body]
pub(crate) fn buf_get(b: &bytes::BytesMut, i: usize) -> (x: u8)
    requires
        i < bview(*b).len(),
    ensures
        x == bview(*b)[i as int],
{
    b[i]
}

/// Relies on `BytesMut::split_to`: removes the first `n` bytes from the
/// buffer and returns them.
#[verifier::external_body]
pub(crate) fn buf_split_to(b: &mut bytes::BytesMut, n: usize) -> (r: bytes::BytesMut)
    requires
        n <= bview(*old(b)).len(),
    ensures
        bview(r) == bview(*old(b)).subrange(0, n as int),
        bview(*final(b)) == bview(*old(b)).subrange(n as int, bview(*old(b)).len() as int),
{
    b.split_to(n)
}

/// Relies on `Buf::advance` for `BytesMut`: discards the first `n` bytes.
#[verifier::external_body]
pub(crate) fn buf_advance(b: &mut bytes::BytesMut, n: usize)
    requires
        n <= bview(*old(b)).len(),
    ensures
        bview(*final(b)) == bview(*old(b)).subrange(n as int, bview(*old(b)).len() as int),
{
    bytes::Buf::advance(b, n)
}

/// Relies on the slice view of `BytesMut` and `slice::to_vec`: copies the
/// buffer's bytes out.
#[verifier::external_body]
pub(crate) fn buf_to_vec(b: &bytes::BytesMut) -> (v: Vec<u8>)
    ensures
        v@ == bview(*b),
{
    b.to_vec()
}

} // verus!
