//! A block is the unit returned to the user; its payload starts at its address.
//! While it is free, one link word belongs to it, which `SpanMemory` keeps for
//! its address.

use vstd::prelude::*;

verus! {

/// The link word of a free block.
#[derive(Clone, Copy)]
pub struct Block {
    /// Address of the next block of the list, 0 at its end, or `UNLINKED`.
    pub next: u64,
}

/// Link value of a remotely freed block between the producer's swap and the
/// store that completes the link. An expected intermediate state.
pub const UNLINKED: u64 = 0xffff_ffff_ffff_ffff;

/// Payload address handed to the user for the block at `block`.
pub fn block_payload(block: u64) -> (r: u64)
    ensures
        r == block,
{
    block
}

/// The block of a user payload address.
pub fn block_from_payload(ptr: u64) -> (r: u64)
    ensures
        r == ptr,
{
    ptr
}

} // verus!
