//! A backing region: a span-aligned range of memory that an allocator manages.

use crate::config::{SPAN_ALIGN, SPAN_SIZE};
use vstd::prelude::*;

verus! {

/// A range of `len` bytes at `ptr`.
pub struct OwnedRegion {
    pub ptr: u64,
    pub len: u64,
}

impl OwnedRegion {
    /// The region of exactly `spans` spans at the aligned address `ptr`.
    pub fn new(ptr: u64, spans: u64) -> (r: Self)
        requires
            ptr % SPAN_ALIGN == 0,
            ptr + spans * SPAN_SIZE <= u64::MAX,
        ensures
            r.ptr == ptr,
            r.len == spans * SPAN_SIZE,
    {
        proof {
            assert(spans * SPAN_SIZE >= 0) by (nonlinear_arith);
        }
        OwnedRegion { ptr, len: spans * SPAN_SIZE }
    }

    pub fn ptr(&self) -> (r: u64)
        ensures
            r == self.ptr,
    {
        self.ptr
    }

    pub fn len(&self) -> (r: u64)
        ensures
            r == self.len,
    {
        self.len
    }

    pub fn is_empty(&self) -> (r: bool)
        ensures
            r == (self.len == 0),
    {
        self.len == 0
    }
}

} // verus!
