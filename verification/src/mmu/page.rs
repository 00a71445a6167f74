use vstd::prelude::*;

verus! {

/// Size of a small page, and the alignment of one.
pub const PAGE_SIZE: usize = 4096;

/// A page of memory.
pub struct Page;

impl Page {
    /// The page at address `this` seen as a slice of its bytes: the address and the
    /// length `PAGE_SIZE`.
    pub fn as_slice_ptr(this: usize) -> (r: (usize, usize))
        ensures
            r == (this, PAGE_SIZE),
    {
        (this, PAGE_SIZE)
    }
}

} // verus!
