use vstd::prelude::*;

use crate::error::Error;
use crate::heap::block::{BlockLayout, Layout};
use crate::heap::kern_allocator::KernAlloctor;
use crate::memory_model::{virt_to_phys, PHYS_TO_VIRT};
use crate::phys::Phys;

verus! {

/// Allocates memory for `layout` from `heap` and gives its physical address. The
/// kernel virtual address of the result is aligned as asked, lies above the
/// physical-to-virtual offset, and its bytes stop being available.
pub fn allocate<T>(heap: &mut KernAlloctor, layout: Layout) -> (r: Result<Phys<T>, Error>)
    requires
        old(heap).wf(),
        old(heap).available_above(PHYS_TO_VIRT as int),
        layout.wf(),
        layout.size > 0,
    ensures
        final(heap).wf(),
        final(heap).available_above(PHYS_TO_VIRT as int),
        final(heap).end_addr() == old(heap).end_addr(),
        r is Ok <==> old(heap).can_allocate(layout),
        (final(heap).curr_addr(), final(heap).free_blocks()) == old(heap).state_after(layout),
        match r {
            Ok(phys) => {
                let virt = phys.addr + PHYS_TO_VIRT;
                let size = BlockLayout::of_layout(layout).size.bytes;
                &&& virt % (layout.align as int) == 0
                &&& virt + size <= final(heap).curr_addr()
                &&& forall|x: int| virt <= x < virt + size ==> #[trigger] old(heap).available(x)
                &&& forall|x: int|
                    #[trigger] final(heap).available(x) <==> old(heap).available(x) && !(virt <= x
                        < virt + size)
            },
            Err(e) => {
                &&& e == Error::OutOfMem
                &&& forall|x: int| #[trigger] final(heap).available(x) <==> old(heap).available(x)
            },
        },
{
    let virt = heap.allocate(layout)?;
    assert(old(heap).available(virt as int));
    Ok(virt_to_phys(virt))
}

/// The global allocator's allocation: the kernel virtual address of memory for
/// `layout` taken from the installed heap, or 0 when the heap cannot hold it.
pub fn global_allocate(heap: &mut Option<KernAlloctor>, layout: Layout) -> (r: usize)
    requires
        *old(heap) is Some,
        (*old(heap))->0.wf(),
        (*old(heap))->0.available_above(PHYS_TO_VIRT as int),
        layout.wf(),
        layout.size > 0,
    ensures
        *final(heap) is Some,
        (*final(heap))->0.wf(),
        (r != 0) <==> (*old(heap))->0.can_allocate(layout),
        r != 0 ==> r % layout.align == 0 && forall|x: int|
            #[trigger] (*final(heap))->0.available(x) <==> (*old(heap))->0.available(x) && !(r <= x < r
                + BlockLayout::of_layout(layout).size.bytes),
        r == 0 ==> forall|x: int| #[trigger] (*final(heap))->0.available(x) <==> (*old(heap))->0.available(x),
{
    match heap {
        Some(h) => {
            match h.allocate(layout) {
                Ok(ptr) => {
                    proof {
                        assert((*old(heap))->0.available(ptr as int));
                    }
                    ptr
                },
                Err(_) => 0,
            }
        },
        None => 0,
    }
}

/// The global allocator's deallocation: gives the memory at `ptr`, allocated for
/// `layout`, back to the installed heap.
pub fn global_dealloc(heap: &mut Option<KernAlloctor>, ptr: usize, layout: Layout)
    requires
        *old(heap) is Some,
        (*old(heap))->0.wf(),
        layout.wf(),
        layout.size > 0,
        ptr != 0,
        ptr % 8 == 0,
        ptr + BlockLayout::of_layout(layout).size.bytes <= (*old(heap))->0.curr_addr(),
        forall|x: int|
            ptr <= x < ptr + BlockLayout::of_layout(layout).size.bytes ==> !(#[trigger] crate::heap::free_list::in_free(
                (*old(heap))->0.free_blocks(),
                x,
            )),
    ensures
        *final(heap) is Some,
        (*final(heap))->0.wf(),
        forall|x: int| #[trigger]
            (*final(heap))->0.available(x) <==> (*old(heap))->0.available(x) || (ptr <= x < ptr
                + BlockLayout::of_layout(layout).size.bytes),
{
    match heap {
        Some(h) => {
            h.dealloc(ptr, layout);
        },
        None => {},
    }
}

/// Scales a memory size for display: divides by 1024 while the quotient is not zero,
/// moving through the units bytes, KiB, MiB, GiB; at GiB it divides once more when it
/// can, so sizes of a TiB and more come out in TiB under the GiB unit. Gives the scaled
/// size and the unit's index.
pub fn size_scale(size: usize) -> (r: (usize, usize))
    ensures
        r.1 <= 3,
        r.1 < 3 ==> r.0 < 1024 && r.0 == (size as int) / vstd::arithmetic::power::pow(1024, r.1 as nat),
        r.1 > 0 ==> (size as int) / vstd::arithmetic::power::pow(1024, (r.1 - 1) as nat) >= 1024,
        r.1 == 3 ==> {
            let g = (size as int) / vstd::arithmetic::power::pow(1024, 3);
            if g / 1024 == 0 {
                r.0 == g
            } else {
                r.0 == g / 1024
            }
        },
{
    let mut scaled = size;
    let mut scale: usize = 0;
    proof {
        vstd::arithmetic::power::lemma_pow0(1024);
    }
    loop
        invariant
            scale <= 3,
            scaled == (size as int) / vstd::arithmetic::power::pow(1024, scale as nat),
            scale > 0 ==> (size as int) / vstd::arithmetic::power::pow(1024, (scale - 1) as nat) >= 1024,
        decreases 3 - scale,
    {
        if scaled / 1024 == 0 {
            return (scaled, scale);
        }
        if scale == 3 {
            return (scaled / 1024, scale);
        }
        proof {
            vstd::arithmetic::power::lemma_pow_positive(1024, scale as nat);
            vstd::arithmetic::div_mod::lemma_div_denominator(
                size as int,
                vstd::arithmetic::power::pow(1024, scale as nat),
                1024,
            );
            vstd::arithmetic::power::lemma_pow_adds(1024, scale as nat, 1);
            vstd::arithmetic::power::lemma_pow1(1024);
        }
        scaled = scaled / 1024;
        scale = scale + 1;
    }
}

} // verus!
