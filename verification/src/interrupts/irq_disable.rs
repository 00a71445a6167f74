use vstd::prelude::*;

use crate::mmu::per_cpu::PerCpu;

verus! {

/// Enters a section with interrupts masked: one more level of nesting.
pub fn irq_disable_enter(depth: &mut PerCpu<u32>)
    requires
        old(depth).value() < u32::MAX,
    ensures
        final(depth).value() == old(depth).value() + 1,
{
    let d = depth.as_ptr();
    *d = *d + 1;
}

/// Leaves a section with interrupts masked: one level of nesting less. Answers whether
/// that was the outermost level, where interrupts are to be unmasked again.
pub fn irq_disable_exit(depth: &mut PerCpu<u32>) -> (r: bool)
    requires
        old(depth).value() > 0,
    ensures
        final(depth).value() == old(depth).value() - 1,
        r == (final(depth).value() == 0),
{
    let depth_local = {
        let d = depth.as_ptr();
        let old_value = *d;
        *d = *d - 1;
        old_value - 1
    };
    depth_local == 0
}

/// Runs `f`, which may switch stacks and with them the nesting depth, puts the depth
/// back as it was before, and gives what `f` returned.
pub fn irq_state_save<Ret, F: FnOnce(&mut PerCpu<u32>) -> Ret>(depth: &mut PerCpu<u32>, f: F) -> (r: Ret)
    requires
        forall|d: &mut PerCpu<u32>| f.requires((d,)),
    ensures
        final(depth).value() == old(depth).value(),
        exists|d: &mut PerCpu<u32>| *d == *old(depth) && f.ensures((d,), r),
{
    let saved = depth.get();
    let ret = f(depth);
    depth.replace(saved);
    ret
}

/// Enters and then leaves a masked section: the depth is back where it was, and
/// interrupts are unmasked exactly when the section was the outermost.
pub proof fn lemma_enter_exit(before: u32, entered: u32, after: u32, unmask: bool)
    requires
        before < u32::MAX,
        entered == before + 1,
        after == entered - 1,
        unmask == (after == 0),
    ensures
        after == before,
        unmask == (before == 0),
{
}

} // verus!
