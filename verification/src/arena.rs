//! The fixed-capacity byte region that an index lives in: an anonymous
//! memory map of the `memmap2` crate. Nothing in this file is proved: each
//! item states what `memmap2` does, and the index is proved from that.

use std::ops::{Deref, DerefMut};
use vstd::prelude::*;

verus! {

/// `memmap2::MmapMut`, a writable mapped byte region, opaque to the verifier.
#[verifier::external_type_specification]
#[verifier::external_body]
pub struct ExMmapMut(memmap2::MmapMut);

/// `std::io::Error`, carried from a failed mapping to the caller.
#[verifier::external_type_specification]
#[verifier::external_body]
pub struct ExIoError(std::io::Error);

/// The bytes of a mapped region, in order: what the slice holds that
/// `<MmapMut as Deref>::deref` gives.
pub uninterp spec fn arena_bytes(m: memmap2::MmapMut) -> Seq<u8>;

/// `MmapMut::map_anon`: a fresh anonymous region, or the error of the system
/// call. Claimed: a region that was had is `len` bytes long. Whether one is
/// had is up to the machine, and nothing is claimed of what it holds.
#[verifier::external_body]
pub(crate) fn arena_new(len: usize) -> (r: Result<memmap2::MmapMut, std::io::Error>)
    ensures
        r matches Ok(m) ==> arena_bytes(m).len() == len,
{
    memmap2::MmapMut::map_anon(len)
}

/// `<MmapMut as Deref>::deref`. Claimed: the slice it gives holds the bytes
/// of the region.
#[verifier::external_body]
pub(crate) fn arena_slice(m: &memmap2::MmapMut) -> (r: &[u8])
    ensures
        r@ == arena_bytes(*m),
{
    m.deref()
}

/// `<MmapMut as DerefMut>::deref_mut`. Claimed: the slice it gives holds the
/// bytes of the region, and what the slice holds when the borrow ends is
/// what the region holds from then on.
#[verifier::external_body]
pub(crate) fn arena_slice_mut(m: &mut memmap2::MmapMut) -> (r: &mut [u8])
    ensures
        r@ == arena_bytes(*old(m)),
        arena_bytes(*final(m)) == final(r)@,
{
    m.deref_mut()
}

} // verus!
