use vstd::prelude::*;

use crate::error::Error;
use crate::heap::block::{BlockLayout, Layout};
use crate::heap::kern_allocator::{can_allocate_seq, KernAlloctor};
use crate::heap::kern_heap;
use crate::memory_model::PHYS_TO_VIRT;
use crate::mmu::page::{Page, PAGE_SIZE};
use crate::mmu::page_permission::PagePerm;
use crate::mmu::translation_table::{l2_table_layout, page_count, space_start, TranslationTable};
use crate::phys::Phys;

verus! {

/// Allocates a page from `heap` and maps it into the kernel table as a stack, behind a
/// guard page, for the kernel only. Gives the virtual address of the stack's bottom.
/// Fails with `OutOfMem` when the heap has no page, otherwise as `map_stack` does: it
/// succeeds exactly when the heap holds the page, the table has a hole for the stack and
/// its guard page, and the heap then holds the second-level tables the mapping takes.
pub fn alloc_stack(table: &mut TranslationTable, heap: &mut KernAlloctor) -> (r: Result<usize, Error>)
    requires
        old(table).wf(),
        old(heap).wf(),
        old(heap).available_above(PHYS_TO_VIRT as int),
        old(table).find_scan(0, PAGE_SIZE as int) matches Ok(h) ==> space_start(old(table).space()) + h
            + 0x1000 + PAGE_SIZE <= usize::MAX,
    ensures
        final(table).wf(),
        final(table).space() == old(table).space(),
        final(heap).wf(),
        final(heap).available_above(PHYS_TO_VIRT as int),
        forall|x: int| #[trigger] final(heap).available(x) ==> old(heap).available(x),
        final(table).keeps_mappings(*old(table)),
        final(heap).end_addr() == old(heap).end_addr(),
        !old(heap).can_allocate(Layout { size: PAGE_SIZE, align: PAGE_SIZE }) ==> r == Err::<usize, Error>(
            Error::OutOfMem,
        ),
        old(heap).can_allocate(Layout { size: PAGE_SIZE, align: PAGE_SIZE }) ==> (old(table).find_scan(
            0,
            PAGE_SIZE as int,
        ) matches Err(e) ==> r == Err::<usize, Error>(e)),
        r is Ok <==> {
            let page = Layout { size: PAGE_SIZE, align: PAGE_SIZE };
            let after = old(heap).state_after(page);
            &&& old(heap).can_allocate(page)
            &&& old(table).find_scan(0, PAGE_SIZE as int) is Ok
            &&& can_allocate_seq(
                after.0,
                after.1,
                old(heap).end_addr(),
                l2_table_layout(),
                old(table).tables_needed(
                    space_start(old(table).space()) + old(table).find_scan(0, PAGE_SIZE as int)->Ok_0,
                    page_count(PAGE_SIZE as int) + 1,
                ),
            )
        },
        r is Ok ==> ({
            let h = old(table).find_scan(0, PAGE_SIZE as int)->Ok_0;
            &&& final(table).is_hole(h)
            &&& exists|p: int|
                #![trigger final(table).page_mapped_to(h + 0x1000, p, PagePerm::KernOnly)]
                final(table).page_mapped_to(h + 0x1000, p, PagePerm::KernOnly) && forall|x: int|
                    p + PHYS_TO_VIRT <= x < p + PHYS_TO_VIRT + PAGE_SIZE ==> #[trigger] old(heap).available(x)
                        && !final(heap).available(x)
        }),
        r is Err ==> r == Err::<usize, Error>(Error::OutOfMem) || r == Err::<usize, Error>(Error::OutOfRange),
        r matches Ok(bottom) ==> old(table).find_scan(0, PAGE_SIZE as int) matches Ok(h) && bottom
            == space_start(old(table).space()) + h + 0x1000,
{
    assert(4096usize & 4095usize == 0) by (bit_vector);
    proof {
        assert(BlockLayout::of_layout(Layout { size: PAGE_SIZE, align: PAGE_SIZE }).size.bytes == PAGE_SIZE);
        table.lemma_find_scan_range(0, PAGE_SIZE as int);
    }
    let stack = match kern_heap::allocate::<Page>(heap, Layout { size: PAGE_SIZE, align: PAGE_SIZE }) {
        Ok(s) => s,
        Err(e) => return Err(e),
    };
    let phys = Phys::<[u8]>::from_raw_parts(stack.addr(), PAGE_SIZE);
    let ghost t0 = *table;
    let r = table.map_stack(phys, PagePerm::KernOnly, heap);
    proof {
        if let Ok(bottom) = r {
            let h = t0.find_scan(0, PAGE_SIZE as int)->Ok_0;
            assert(page_count(PAGE_SIZE as int) == 1);
            assert(t0.map_offset(space_start(t0.space()) + h + 0x1000, 0) == h + 0x1000);
            assert(table.page_mapped_to(h + 0x1000, stack.addr + 0 * 4096, PagePerm::KernOnly));
            assert(table.page_mapped_to(h + 0x1000, stack.addr as int, PagePerm::KernOnly));
        }
    }
    r
}

/// Sets up a stack for an exception mode: allocates and maps one as `alloc_stack`
/// does and gives its top, where the stack pointer starts since stacks grow down.
pub fn setup_interrupt_stacks(table: &mut TranslationTable, heap: &mut KernAlloctor) -> (r: Result<usize, Error>)
    requires
        old(table).wf(),
        old(heap).wf(),
        old(heap).available_above(PHYS_TO_VIRT as int),
        old(table).find_scan(0, PAGE_SIZE as int) matches Ok(h) ==> space_start(old(table).space()) + h
            + 0x1000 + PAGE_SIZE <= usize::MAX,
    ensures
        final(table).wf(),
        final(heap).wf(),
        final(heap).available_above(PHYS_TO_VIRT as int),
        final(table).space() == old(table).space(),
        forall|x: int| #[trigger] final(heap).available(x) ==> old(heap).available(x),
        final(table).keeps_mappings(*old(table)),
        final(heap).end_addr() == old(heap).end_addr(),
        !old(heap).can_allocate(Layout { size: PAGE_SIZE, align: PAGE_SIZE }) ==> r == Err::<usize, Error>(
            Error::OutOfMem,
        ),
        old(heap).can_allocate(Layout { size: PAGE_SIZE, align: PAGE_SIZE }) ==> (old(table).find_scan(
            0,
            PAGE_SIZE as int,
        ) matches Err(e) ==> r == Err::<usize, Error>(e)),
        r is Ok <==> {
            let page = Layout { size: PAGE_SIZE, align: PAGE_SIZE };
            let after = old(heap).state_after(page);
            &&& old(heap).can_allocate(page)
            &&& old(table).find_scan(0, PAGE_SIZE as int) is Ok
            &&& can_allocate_seq(
                after.0,
                after.1,
                old(heap).end_addr(),
                l2_table_layout(),
                old(table).tables_needed(
                    space_start(old(table).space()) + old(table).find_scan(0, PAGE_SIZE as int)->Ok_0,
                    page_count(PAGE_SIZE as int) + 1,
                ),
            )
        },
        r is Ok ==> ({
            let h = old(table).find_scan(0, PAGE_SIZE as int)->Ok_0;
            &&& final(table).is_hole(h)
            &&& exists|p: int|
                #![trigger final(table).page_mapped_to(h + 0x1000, p, PagePerm::KernOnly)]
                final(table).page_mapped_to(h + 0x1000, p, PagePerm::KernOnly) && forall|x: int|
                    p + PHYS_TO_VIRT <= x < p + PHYS_TO_VIRT + PAGE_SIZE ==> #[trigger] old(heap).available(x)
                        && !final(heap).available(x)
        }),
        r is Err ==> r == Err::<usize, Error>(Error::OutOfMem) || r == Err::<usize, Error>(Error::OutOfRange),
        r matches Ok(top) ==> old(table).find_scan(0, PAGE_SIZE as int) matches Ok(h) && top
            == space_start(old(table).space()) + h + 0x1000 + PAGE_SIZE,
{
    let stack = match alloc_stack(table, heap) {
        Ok(s) => s,
        Err(e) => return Err(e),
    };
    Ok(stack + PAGE_SIZE)
}

} // verus!
