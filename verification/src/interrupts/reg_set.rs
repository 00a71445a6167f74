use vstd::prelude::*;

verus! {

/// The registers an exception handler saves: `r0`..`r12`, the link register and the
/// program status.
#[derive(Clone, Copy, Debug, Default)]
pub struct RegSet {
    pub r: [usize; 13],
    pub lr: usize,
    pub cpsr: usize,
}

} // verus!
