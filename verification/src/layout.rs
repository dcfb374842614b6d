//! Size and alignment of a memory request.

use crate::align::{is_power_of_two, is_pow2, lemma_is_pow2_bounds};
use vstd::prelude::*;

verus! {

/// Largest size in bytes of one object.
pub const MAX_OBJECT_SIZE: u64 = 0x7fff_ffff_ffff_ffff;

/// A request: `size` bytes at an address that is a multiple of `align`.
#[derive(Clone, Copy, Debug, PartialEq, Eq, Structural)]
pub struct Layout {
    pub size: u64,
    pub align: u64,
}

/// The alignment is no power of two, or the size rounded up to it is too large.
#[derive(Clone, Copy, Debug, PartialEq, Eq, Structural)]
pub struct LayoutError;

impl Layout {
    /// `align` is a power of two, and `size` rounded up to it is no larger
    /// than `MAX_OBJECT_SIZE`.
    pub open spec fn valid(self) -> bool {
        &&& is_pow2(self.align)
        &&& self.size + self.align - 1 <= MAX_OBJECT_SIZE
    }

    /// Build a layout, or fail where it would not be valid.
    pub fn from_size_align(size: u64, align: u64) -> (r: Result<Layout, LayoutError>)
        ensures
            r == (if (Layout { size, align }).valid() {
                Ok::<Layout, LayoutError>(Layout { size, align })
            } else {
                Err(LayoutError)
            }),
    {
        if !is_power_of_two(align) {
            return Err(LayoutError);
        }
        proof {
            lemma_is_pow2_bounds(align);
        }
        if align - 1 > MAX_OBJECT_SIZE || size > MAX_OBJECT_SIZE - (align - 1) {
            return Err(LayoutError);
        }
        Ok(Layout { size, align })
    }

    pub fn size(&self) -> (r: u64)
        ensures
            r == self.size,
    {
        self.size
    }

    pub fn align(&self) -> (r: u64)
        ensures
            r == self.align,
    {
        self.align
    }
}

} // verus!
