//! What the library assumes of `bytes::BytesMut`, the growable byte buffer that
//! carries a connection's stream.

use bytes::BytesMut;
use vstd::prelude::*;

verus! {

/// `bytes::BytesMut`: a buffer of bytes that grows at its end and is consumed
/// from its front. Contracts speak of what it holds through `buf_bytes`.
#[verifier::external_type_specification]
#[verifier::external_body]
pub struct ExBytesMut(bytes::BytesMut);

/// The bytes that a buffer holds, front first.
pub uninterp spec fn buf_bytes(b: BytesMut) -> Seq<u8>;

/// `BytesMut::new` gives a buffer that holds no bytes.
pub assume_specification[ BytesMut::new ]() -> (b: BytesMut)
    ensures
        buf_bytes(b) == Seq::<u8>::empty(),
;

/// `BytesMut::len` is the number of bytes held.
pub assume_specification[ BytesMut::len ](b: &BytesMut) -> (n: usize)
    ensures
        n == buf_bytes(*b).len(),
;

/// `BytesMut::split_to` cuts the first `at` bytes off the front and returns them;
/// the buffer keeps the rest. It panics when `at` exceeds the length.
pub assume_specification[ BytesMut::split_to ](b: &mut BytesMut, at: usize) -> (front: BytesMut)
    requires
        at <= buf_bytes(*old(b)).len(),
    ensures
        buf_bytes(front) == buf_bytes(*old(b)).subrange(0, at as int),
        buf_bytes(*final(b)) == buf_bytes(*old(b)).subrange(at as int, buf_bytes(*old(b)).len() as int),
;

/// `BytesMut::resize` cuts the buffer to `new_len` bytes, or fills it up to that
/// length with `value`. Growing reserves room first, which panics for more
/// bytes than an allocation can have.
pub assume_specification[ BytesMut::resize ](b: &mut BytesMut, new_len: usize, value: u8)
    requires
        new_len <= isize::MAX,
    ensures
        buf_bytes(*final(b)) == if new_len <= buf_bytes(*old(b)).len() {
            buf_bytes(*old(b)).subrange(0, new_len as int)
        } else {
            buf_bytes(*old(b)) + Seq::new(
                (new_len - buf_bytes(*old(b)).len()) as nat,
                |i: int| value,
            )
        },
;

/// `BytesMut::extend_from_slice` appends the slice. It reserves room first,
/// which panics for more bytes than an allocation can have.
pub assume_specification[ BytesMut::extend_from_slice ](b: &mut BytesMut, extend: &[u8])
    requires
        buf_bytes(*old(b)).len() + extend@.len() <= isize::MAX,
    ensures
        buf_bytes(*final(b)) == buf_bytes(*old(b)) + extend@,
;

/// `BytesMut::from` on a slice gives a buffer that holds a copy of it.
pub assume_specification<'a>[ <BytesMut as From<&'a [u8]>>::from ](src: &'a [u8]) -> (b: BytesMut)
    ensures
        buf_bytes(b) == src@,
;

/// `as_ref` on a buffer lends the bytes it holds.
pub assume_specification[ <BytesMut as AsRef<[u8]>>::as_ref ](b: &BytesMut) -> (bytes: &[u8])
    ensures
        bytes@ == buf_bytes(*b),
;

} // verus!
