use vstd::prelude::*;

use crate::error::Error;

verus! {

/// Why a mapping could not be made.
#[derive(PartialEq, Eq, Structural, Clone, Copy, Debug)]
pub enum MapError {
    /// The address is already mapped.
    Remap,
    /// Memory for a table could not be allocated.
    AllocError,
}

impl MapError {
    /// The kernel-wide error for this mapping error.
    pub fn into_error(self) -> (r: Error)
        ensures
            self == MapError::Remap ==> r == Error::Remap,
            self == MapError::AllocError ==> r == Error::OutOfMem,
    {
        match self {
            MapError::Remap => Error::Remap,
            MapError::AllocError => Error::OutOfMem,
        }
    }
}

} // verus!
