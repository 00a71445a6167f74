use vstd::prelude::*;

use crate::error::Error;
use crate::heap::block::{BlockLayout, Layout};
use crate::heap::kern_allocator::{can_allocate_seq, lemma_seq_one, KernAlloctor};
use crate::heap::kern_heap;
use crate::memory_model::PHYS_TO_VIRT;
use crate::mmu::page_permission::PagePerm;
use crate::mmu::l2entry::{l2_mapped_value, SMALL_PAGE_MASK};
use crate::mmu::addr_parts::l1_index_of;
use crate::mmu::translation_table::{l2_table_layout, page_count, slot_of, AddressSpace, TranslationTable};
use crate::phys::Phys;

verus! {

/// Bytes of the first process's stack.
pub const STACK_SIZE: usize = 4096;

/// Bytes of the first process's code that get mapped.
pub const INIT_CODE_LEN: usize = 100;

/// The first process's stack.
pub struct Stack;

/// Once page 0 of `t0` is mapped, giving `t1`, the page at `0x1000` is a hole in `t1`
/// exactly when it was one in `t0`, and mapping it takes no new second-level table.
proof fn lemma_after_first_page(t0: TranslationTable, t1: TranslationTable, code: usize)
    requires
        t0.space() == AddressSpace::User,
        t1.changed_only(t0, 0, 1),
        t1.page_mapped_to(0, code as int, PagePerm::UserRo),
    ensures
        t1.range_mappable(0x1000, STACK_SIZE as int) == t0.range_mappable(0x1000, STACK_SIZE as int),
        t1.tables_needed(0x1000, 1) == 0,
{
    assert(page_count(STACK_SIZE as int) == 1);
    assert(t1.map_offset(0x1000, 0) == 0x1000);
    assert(l1_index_of(0x1000) == 0);
    assert(slot_of(0x1000) == 1);
    assert(l1_index_of(0) == 0);
    assert(1int / 256 == 0);
    assert(0usize & 3 == 0) by (bit_vector);
    let w = t1.entry(0);
    assert(w & 3 == 1 ==> w & 3 != 0) by (bit_vector);
    assert(t1.is_hole(0x1000) == t0.is_hole(0x1000));
    assert(t1.page_mappable(0x1000, 0) == t0.page_mappable(0x1000, 0));
    assert(t1.range_mappable(0x1000, STACK_SIZE as int) == t0.range_mappable(0x1000, STACK_SIZE as int)) by {
        if t0.range_mappable(0x1000, STACK_SIZE as int) {
            assert(t0.page_mappable(0x1000, 0));
        }
        if t1.range_mappable(0x1000, STACK_SIZE as int) {
            assert(t1.page_mappable(0x1000, 0));
        }
    }
    assert(t1.tables_needed(0x1000, 0) == 0);
}

/// Prepares the first process in the table `mappings`: allocates its stack from `heap`,
/// maps its code (at physical `init_code`) read-only at address 0 and its stack
/// read-write at 0x1000. Gives the stack's physical address. Fails with `OutOfMem`
/// when the heap cannot hold the stack, otherwise as `map` does.
pub fn setup_init(mappings: &mut TranslationTable, heap: &mut KernAlloctor, init_code: usize) -> (r:
    Result<Phys<Stack>, Error>)
    requires
        old(mappings).wf(),
        old(heap).wf(),
        old(heap).available_above(PHYS_TO_VIRT as int),
        init_code + INIT_CODE_LEN <= usize::MAX,
    ensures
        final(mappings).wf(),
        final(mappings).space() == old(mappings).space(),
        final(heap).wf(),
        final(heap).available_above(PHYS_TO_VIRT as int),
        forall|x: int| #[trigger] final(heap).available(x) ==> old(heap).available(x),
        r is Err ==> r == Err::<Phys<Stack>, Error>(Error::OutOfMem) || r == Err::<Phys<Stack>, Error>(
            Error::OutOfRange,
        ) || r == Err::<Phys<Stack>, Error>(Error::Remap),
        r matches Ok(stack) ==> {
            &&& forall|x: int|
                stack.addr + PHYS_TO_VIRT <= x < stack.addr + PHYS_TO_VIRT + STACK_SIZE
                    ==> #[trigger] old(heap).available(x) && !final(heap).available(x)
            &&& final(mappings).page_mapped_to(
                final(mappings).map_offset(0x1000, 0),
                stack.addr as int,
                PagePerm::UserRw,
            )
            &&& old(mappings).space() == AddressSpace::User ==> final(mappings).page_mapped_to(
                0,
                init_code as int,
                PagePerm::UserRo,
            )
        },
        final(mappings).keeps_mappings(*old(mappings)),
        r is Ok <==> {
            let stack_layout = Layout { size: STACK_SIZE, align: 1 };
            let after = old(heap).state_after(stack_layout);
            &&& old(heap).can_allocate(stack_layout)
            &&& old(mappings).space() == AddressSpace::User
            &&& old(mappings).range_mappable(0, INIT_CODE_LEN as int)
            &&& old(mappings).range_mappable(0x1000, STACK_SIZE as int)
            &&& can_allocate_seq(
                after.0,
                after.1,
                old(heap).end_addr(),
                l2_table_layout(),
                old(mappings).tables_needed(0, 1),
            )
        },
        !old(heap).can_allocate(Layout { size: STACK_SIZE, align: 1 }) ==> r == Err::<Phys<Stack>, Error>(
            Error::OutOfMem,
        ),
        old(heap).can_allocate(Layout { size: STACK_SIZE, align: 1 }) && old(mappings).space()
            == AddressSpace::Kernel ==> r == Err::<Phys<Stack>, Error>(Error::OutOfRange),
{
    assert(1usize & 0usize == 0) by (bit_vector);
    proof {
        assert(BlockLayout::of_layout(Layout { size: STACK_SIZE, align: 1 }).size.bytes == STACK_SIZE);
    }
    let stack = match kern_heap::allocate::<Stack>(heap, Layout { size: STACK_SIZE, align: 1 }) {
        Ok(s) => s,
        Err(e) => return Err(e),
    };
    let ghost h1 = *heap;
    match mappings.map(0x0, init_code, INIT_CODE_LEN, PagePerm::UserRo, true, true, heap) {
        Ok(()) => {},
        Err(e) => return Err(e),
    }
    let ghost t1 = *mappings;
    proof {
        assert(page_count(INIT_CODE_LEN as int) == 1);
        assert(old(mappings).map_offset(0, 0) == 0);
        assert(slot_of(0) == 0);
        assert(t1.page_mapped_to(0, init_code + 0 * 4096, PagePerm::UserRo));
        lemma_after_first_page(*old(mappings), t1, init_code);
        lemma_seq_one(heap.curr_addr(), heap.free_blocks(), heap.end_addr(), l2_table_layout());
    }
    match mappings.map(0x1000, stack.addr(), STACK_SIZE, PagePerm::UserRw, true, true, heap) {
        Ok(()) => {},
        Err(e) => {
            proof {
                mappings.lemma_keeps_trans(t1, *old(mappings));
            }
            return Err(e);
        },
    }
    proof {
        mappings.lemma_keeps_trans(t1, *old(mappings));
        if old(mappings).space() == AddressSpace::User {
            assert(page_count(INIT_CODE_LEN as int) == 1);
            assert(old(mappings).map_offset(0, 0) == 0);
            assert(t1.page_mapped_to(0, init_code + 0 * 4096, PagePerm::UserRo));
            let v = l2_mapped_value(init_code, PagePerm::UserRo);
            assert(v & 3 == 2) by (bit_vector)
                requires
                    v == (init_code & SMALL_PAGE_MASK) | 2usize,
                    SMALL_PAGE_MASK == 0xffff_f000usize,
            ;
            assert(!t1.is_hole(0));
            assert(mappings.page_kept(t1, 0));
        }
    }
    proof {
        assert(page_count(STACK_SIZE as int) == 1);
        assert(t1.map_offset(0x1000, 0) == mappings.map_offset(0x1000, 0));
        assert(mappings.page_mapped_to(t1.map_offset(0x1000, 0), stack.addr + 0 * 4096, PagePerm::UserRw));
        assert forall|x: int|
            stack.addr + PHYS_TO_VIRT <= x < stack.addr + PHYS_TO_VIRT + STACK_SIZE implies #[trigger] old(
                heap,
            ).available(x) && !heap.available(x) by {
            assert(!h1.available(x));
        }
    }
    Ok(stack)
}

} // verus!
