//! Versioned head word for ABA-safe pops.
//!
//! The pointer and the version form one logical value and are always compared
//! and exchanged together.

use vstd::prelude::*;

verus! {

/// Head node and version of a public list, exchanged as one.
#[derive(Copy, Clone, Debug, PartialEq, Eq, Structural)]
pub struct HeadWord {
    pub ptr: u64,
    pub version: u64,
}

impl HeadWord {
    /// The word of a list that was not initialized yet.
    pub fn zero() -> (r: Self)
        ensures
            r == (HeadWord { ptr: 0, version: 0 }),
    {
        HeadWord { ptr: 0, version: 0 }
    }

    pub fn new(ptr: u64, version: u64) -> (r: Self)
        ensures
            r == (HeadWord { ptr, version }),
    {
        HeadWord { ptr, version }
    }
}

} // verus!
