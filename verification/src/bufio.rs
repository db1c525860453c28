//! The connection buffer type of the `bytes` crate, and the two
//! operations the decoder needs of it: reading its contents as a
//! slice and consuming bytes from its front. These are the library's
//! only trusted items; everything decoded from the bytes they expose
//! is verified.

use vstd::prelude::*;

verus! {

#[verifier::external_type_specification]
#[verifier::external_body]
pub struct ExBytesMut(bytes::BytesMut);

/// The readable bytes of a buffer, front first.
pub uninterp spec fn bytes_view(b: bytes::BytesMut) -> Seq<u8>;

/// Relies on `<BytesMut as AsRef<[u8]>>::as_ref`: the readable bytes
/// as a slice, which defines what `bytes_view` names.
#[verifier::external_body]
pub fn bytes_as_slice(b: &bytes::BytesMut) -> (r: &[u8])
    ensures
        r@ == bytes_view(*b),
{
    b.as_ref()
}

/// Relies on `<BytesMut as bytes::Buf>::advance`: drops `cnt` bytes
/// from the front of the buffer. The call panics past the readable
/// length, so that much is required here.
#[verifier::external_body]
pub fn bytes_advance(b: &mut bytes::BytesMut, cnt: usize)
    requires
        cnt <= bytes_view(*old(b)).len(),
    ensures
        bytes_view(*final(b)) == bytes_view(*old(b)).skip(cnt as int),
{
    bytes::Buf::advance(b, cnt)
}

} // verus!
