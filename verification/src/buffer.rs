//! The growable byte buffer of the `bytes` crate, as verified code sees it:
//! a sequence of bytes, with what each operation used here does to it.

use bytes::BytesMut;
use vstd::prelude::*;

verus! {

/// `bytes::BytesMut`, of which verified code sees no more than the
/// operations below tell.
#[verifier::external_type_specification]
#[verifier::external_body]
pub struct ExBytesMut(bytes::BytesMut);

/// The bytes that a buffer holds, in order.
pub uninterp spec fn buffer_bytes(b: BytesMut) -> Seq<u8>;

/// `BytesMut::new` makes an empty buffer.
pub assume_specification[ BytesMut::new ]() -> (b: BytesMut)
    ensures
        buffer_bytes(b) == Seq::<u8>::empty(),
;

/// `BytesMut::len` is the number of bytes held.
pub assume_specification[ BytesMut::len ](b: &BytesMut) -> (n: usize)
    ensures
        n == buffer_bytes(*b).len(),
;

/// `BytesMut::extend_from_slice` appends the bytes of `extend`. It reserves
/// room first, which fails where the new length does not fit a `usize`.
pub assume_specification[ BytesMut::extend_from_slice ](b: &mut BytesMut, extend: &[u8])
    requires
        buffer_bytes(*old(b)).len() + extend@.len() <= usize::MAX,
    ensures
        buffer_bytes(*final(b)) == buffer_bytes(*old(b)) + extend@,
;

/// `BytesMut::resize` cuts the buffer to `new_len` bytes, or fills it up to
/// `new_len` with copies of `value`.
pub assume_specification[ BytesMut::resize ](b: &mut BytesMut, new_len: usize, value: u8)
    ensures
        buffer_bytes(*final(b)).len() == new_len,
        new_len <= buffer_bytes(*old(b)).len() ==> buffer_bytes(*final(b)) == buffer_bytes(
            *old(b),
        ).take(new_len as int),
        new_len >= buffer_bytes(*old(b)).len() ==> buffer_bytes(*final(b)) == buffer_bytes(
            *old(b),
        ) + Seq::new((new_len - buffer_bytes(*old(b)).len()) as nat, |i: int| value),
;

/// The bytes of the buffer as a slice, through its `Deref` impl.
#[verifier::external_body]
pub(crate) fn buffer_slice(b: &BytesMut) -> (s: &[u8])
    ensures
        s@ == buffer_bytes(*b),
{
    b
}

} // verus!
