use vstd::prelude::*;

pub mod error;
pub mod heap;
pub mod interrupts;
pub mod kalloc;
pub mod memory_model;
pub mod mmu;
pub mod num;
pub mod phys;
pub mod ring_buffer;
pub mod sched;
pub mod spinlock;
pub mod step_range;
