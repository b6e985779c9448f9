//! The scratch buffer in which datagrams are assembled: a `bytes::BytesMut`.
//!
//! Nothing in this file is proved. Each function below makes one call into
//! the `bytes` crate, and its contract records what that call does to the
//! bytes the buffer holds.

use vstd::prelude::*;
use bytes::BytesMut;

verus! {

#[verifier::external_type_specification]
#[verifier::external_body]
pub struct ExBytesMut(BytesMut);

/// The bytes a buffer holds, in the order in which they were written.
pub uninterp spec fn buf_bytes(b: BytesMut) -> Seq<u8>;

/// `BytesMut::with_capacity`: a buffer that holds no bytes yet. The call
/// allocates `capacity` bytes at once, which the allocator refuses beyond
/// `isize::MAX`. Half of that is asked here, as of every call that may make
/// the buffer grow: a buffer grows to twice its capacity where that is
/// more than what is asked for, and this too has to stay within
/// `isize::MAX`.
#[verifier::external_body]
pub(crate) fn buf_with_capacity(capacity: usize) -> (b: BytesMut)
    requires
        2 * capacity <= isize::MAX,
    ensures
        buf_bytes(b) == Seq::<u8>::empty(),
{
    BytesMut::with_capacity(capacity)
}

/// `BytesMut::len`: the number of bytes the buffer holds.
#[verifier::external_body]
pub(crate) fn buf_len(b: &BytesMut) -> (n: usize)
    ensures
        n == buf_bytes(*b).len(),
{
    b.len()
}

/// `BytesMut::reserve`: makes room for `additional` more bytes and leaves
/// the bytes held as they are. For a buffer that was never split and never
/// asked for more than half of `isize::MAX`, which is every buffer made
/// here, the call does not fail: neither the room asked for nor twice the
/// capacity at hand exceeds `isize::MAX`.
#[verifier::external_body]
pub(crate) fn buf_reserve(b: &mut BytesMut, additional: usize)
    requires
        2 * (buf_bytes(*old(b)).len() + additional) <= isize::MAX,
    ensures
        buf_bytes(*final(b)) == buf_bytes(*old(b)),
{
    b.reserve(additional)
}

/// `BytesMut::extend_from_slice`: appends `src` behind the bytes held,
/// growing the buffer first where it is too small, as `BytesMut::reserve`
/// does and within the same bound.
#[verifier::external_body]
pub(crate) fn buf_extend(b: &mut BytesMut, src: &[u8])
    requires
        2 * (buf_bytes(*old(b)).len() + src@.len()) <= isize::MAX,
    ensures
        buf_bytes(*final(b)) == buf_bytes(*old(b)) + src@,
{
    b.extend_from_slice(src)
}

/// `BytesMut::clear`: drops every byte held.
#[verifier::external_body]
pub(crate) fn buf_clear(b: &mut BytesMut)
    ensures
        buf_bytes(*final(b)) == Seq::<u8>::empty(),
{
    b.clear()
}

/// `BytesMut`'s `Deref` to a byte slice, copied out: the bytes held, as a
/// vector of their own.
#[verifier::external_body]
pub(crate) fn buf_to_vec(b: &BytesMut) -> (v: Vec<u8>)
    ensures
        v@ == buf_bytes(*b),
{
    b.to_vec()
}

} // verus!
