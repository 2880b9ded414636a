//! The decoder's input buffer is `bytes::BytesMut`, the growable byte
//! buffer that the connection handler appends socket reads to. Verus does
//! not look inside it; these are the crate's trusted items: the type
//! declaration, a name for the bytes it holds, and the two operations the
//! decoder needs — reading the bytes and dropping a decoded frame's bytes
//! from the front.

use vstd::prelude::*;

use bytes::Buf;
use bytes::BytesMut;

verus! {

#[verifier::external_type_specification]
#[verifier::external_body]
pub struct ExBytesMut(BytesMut);

/// The bytes a buffer holds, front to back.
pub uninterp spec fn buf_data(b: BytesMut) -> Seq<u8>;

/// Relies on BytesMut's deref to `[u8]`: one contiguous slice of every
/// byte the buffer holds, in order.
#[verifier::external_body]
pub fn buf_bytes(b: &BytesMut) -> (r: &[u8])
    ensures
        r@ == buf_data(*b),
{
    &b[..]
}

/// Relies on bytes::Buf::advance for BytesMut: removes exactly `cnt`
/// bytes from the front and keeps the rest. It panics past the end, so
/// callers stay within the buffer's length.
#[verifier::external_body]
pub fn buf_advance(b: &mut BytesMut, cnt: usize)
    requires
        cnt <= buf_data(*old(b)).len(),
    ensures
        buf_data(*final(b)) == buf_data(*old(b)).skip(cnt as int),
{
    b.advance(cnt);
}

} // verus!
