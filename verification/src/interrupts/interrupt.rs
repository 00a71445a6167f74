use vstd::prelude::*;

verus! {

/// An interrupt of the interrupt controller: a shared peripheral interrupt or a private
/// peripheral interrupt, by its number within its kind.
#[derive(PartialEq, Eq, Structural, Clone, Copy, Debug)]
pub enum Interrupt {
    Spi(u8),
    Ppi(u8),
}

/// The controller's interrupt id of an interrupt: shared peripheral interrupts start at
/// 32, private ones at 16.
pub open spec fn interrupt_id(interrupt: Interrupt) -> int {
    match interrupt {
        Interrupt::Spi(n) => n + 32,
        Interrupt::Ppi(n) => n + 16,
    }
}

} // verus!
