use vstd::prelude::*;

verus! {

/// The processor's virtual timer.
pub struct VirtualCounter;

impl VirtualCounter {
    /// The interrupt id of the virtual timer.
    pub fn irq_id(&self) -> (r: usize)
        ensures
            r == 27,
    {
        27
    }
}

} // verus!
