use vstd::prelude::*;

verus! {

/// The registers of the interrupt controller's CPU interface.
#[derive(PartialEq, Eq, Structural, Clone, Copy, Debug)]
pub struct GicCpu {
    pub ctlr: u32,
    pub pmr: u32,
    pub bpr: u32,
    pub iar: u32,
    pub eoir: u32,
}

/// Priority mask that lets every interrupt through.
pub const ALLOW_ALL: u32 = 0xf0;

impl GicCpu {
    /// Lets the CPU interface signal interrupts to the processor.
    pub fn enable_singaling_to_cpu(&mut self)
        ensures
            *final(self) == (GicCpu { ctlr: 1, ..*old(self) }),
    {
        self.ctlr = 1;
    }

    /// Sets the priority mask.
    pub fn set_prio_mask(&mut self, mask: u32)
        ensures
            *final(self) == (GicCpu { pmr: mask, ..*old(self) }),
    {
        self.pmr = mask;
    }

    /// The id of the interrupt being signalled.
    pub fn current_interrupt_number(&self) -> (r: u32)
        ensures
            r == self.iar,
    {
        self.iar
    }

    /// Signals the end of handling interrupt `interrupt_number`.
    pub fn signal_end(&mut self, interrupt_number: u32)
        ensures
            *final(self) == (GicCpu { eoir: interrupt_number, ..*old(self) }),
    {
        self.eoir = interrupt_number;
    }
}

} // verus!
