//! Rows of allocator metadata, one per participating thread.

use vstd::prelude::*;

verus! {

/// A table whose number of rows is chosen when it is built.
pub struct RuntimeSlice<T> {
    pub rows: Vec<T>,
}

impl<T> RuntimeSlice<T> {
    pub fn from_vec(rows: Vec<T>) -> (r: Self)
        ensures
            r.rows@ == rows@,
    {
        RuntimeSlice { rows }
    }

    pub fn len(&self) -> (r: u64)
        ensures
            r == self.rows@.len(),
    {
        self.rows.len() as u64
    }

    pub fn is_empty(&self) -> (r: bool)
        ensures
            r == (self.rows@.len() == 0),
    {
        self.rows.len() == 0
    }

    pub fn as_slice(&self) -> (r: &[T])
        ensures
            r@ == self.rows@,
    {
        self.rows.as_slice()
    }
}

} // verus!
