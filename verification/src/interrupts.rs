use vstd::prelude::*;

use crate::interrupts::gic_cpu::{GicCpu, ALLOW_ALL};
use crate::interrupts::gic_dispatcher::{enabled_in, GicDispatcher};
use crate::interrupts::timer::VirtualCounter;

pub mod gic_cpu;
pub mod gic_dispatcher;
pub mod handlers;
pub mod interrupt;
pub mod interrupt_stack;
pub mod interrupts_controller;
pub mod irq_disable;
pub mod reg_set;
pub mod timer;

verus! {

/// Sets up the interrupt controller for the timer: the CPU interface signals
/// interrupts and lets every priority through, the distributor forwards interrupts and
/// enables the virtual timer's.
pub fn init_interrupt_handler(gicc: &mut GicCpu, gicd: &mut GicDispatcher)
    ensures
        *final(gicc) == (GicCpu { ctlr: 1, pmr: ALLOW_ALL, ..*old(gicc) }),
        final(gicd).ctlr == 1,
        final(gicd).isenabler@ == old(gicd).isenabler@.update(0, old(gicd).isenabler[0] | (1u32 << 27u32)),
        enabled_in(final(gicd).isenabler, 27),
{
    gicc.enable_singaling_to_cpu();
    gicc.set_prio_mask(ALLOW_ALL);
    gicd.enable_forarding();
    let timer = VirtualCounter;
    gicd.enable_interrupt(timer.irq_id());
}

} // verus!
