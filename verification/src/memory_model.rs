use vstd::prelude::*;

use crate::phys::Phys;

verus! {

/// Start of the memory given to the machine.
pub const MEM_START: usize = 0x4000_0000;

/// The kernel is linked to run at this address.
pub const KERN_LINK: usize = 0x8000_0000;

/// Distance from a physical address to the kernel's virtual address for it.
pub const PHYS_TO_VIRT: usize = 0x4000_0000;

/// Size of the stack the kernel boots on.
pub const BOOT_STACK_SIZE: usize = 0x1000;

/// The kernel's virtual address for a physical address.
pub fn phys_to_virt<T>(phys: &Phys<T>) -> (r: usize)
    requires
        phys.addr + PHYS_TO_VIRT <= usize::MAX,
    ensures
        r == phys.addr + PHYS_TO_VIRT,
{
    phys.addr + PHYS_TO_VIRT
}

/// The kernel virtual address through which the `T` at `phys` is written.
pub fn phys_to_virt_mut<T>(phys: &Phys<T>) -> (r: usize)
    requires
        phys.addr + PHYS_TO_VIRT <= usize::MAX,
    ensures
        r == phys.addr + PHYS_TO_VIRT,
{
    phys_to_virt(phys)
}

/// The physical address behind a kernel virtual address.
pub fn virt_to_phys<T>(virt: usize) -> (r: Phys<T>)
    requires
        virt >= PHYS_TO_VIRT,
    ensures
        r.addr == virt - PHYS_TO_VIRT,
{
    Phys::from(virt - PHYS_TO_VIRT)
}

/// The physical address behind a kernel virtual address of read-only data.
pub fn virt_to_phys_const<T>(virt: usize) -> (r: Phys<T>)
    requires
        virt >= PHYS_TO_VIRT,
    ensures
        r.addr == virt - PHYS_TO_VIRT,
{
    Phys::from(virt - PHYS_TO_VIRT)
}

/// Going to the virtual address and back gives the same physical address, and the
/// other way round.
pub proof fn lemma_phys_virt_round_trip(phys: usize, virt: usize)
    ensures
        phys + PHYS_TO_VIRT <= usize::MAX ==> (phys + PHYS_TO_VIRT) - PHYS_TO_VIRT == phys,
        virt >= PHYS_TO_VIRT ==> (virt - PHYS_TO_VIRT) + PHYS_TO_VIRT == virt,
{
}

} // verus!
