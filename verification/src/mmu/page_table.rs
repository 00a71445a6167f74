use vstd::prelude::*;

use crate::error::Error;
use crate::heap::block::Layout;
use crate::heap::kern_allocator::{can_allocate_from, can_allocate_seq, state_after_seq, KernAlloctor};
use crate::heap::kern_heap;
use crate::memory_model::PHYS_TO_VIRT;
use crate::mmu::page::{Page, PAGE_SIZE};
use crate::mmu::page_permission::PagePerm;
use crate::mmu::entry::is_table_value;
use crate::mmu::addr_parts::l1_index_of;
use crate::mmu::translation_table::{
    l2_table_layout, page_count, slot_of, AddressSpace, L1Table, TranslationTable, L2_SLOT_COUNT,
};
use crate::mmu::entry::L1_ENTRY_COUNT;
use crate::phys::Phys;

verus! {

/// Bytes of a first-level table in memory.
pub const L1_TABLE_SIZE: usize = 8384;

/// Alignment of a first-level table in memory.
pub const L1_TABLE_ALIGN: usize = 8192;

/// The translation table of a user address space, with the physical address of its
/// first-level table.
pub struct PageTable {
    table: TranslationTable,
    base: Phys<L1Table>,
}

impl PageTable {
    /// The translation table.
    pub closed spec fn table_view(&self) -> TranslationTable {
        self.table
    }

    /// Physical address of the first-level table.
    pub closed spec fn base_addr(&self) -> usize {
        self.base.addr
    }

    /// A user table whose translation table is well formed.
    pub closed spec fn wf(&self) -> bool {
        &&& self.table.wf()
        &&& self.table.space() == AddressSpace::User
    }

    /// A well-formed page table maps the user half of the address space.
    pub proof fn lemma_user_space(&self)
        requires
            self.wf(),
        ensures
            self.table_view().space() == AddressSpace::User,
    {
    }

    /// A user page table that maps nothing, its first-level table taken from `heap`;
    /// `OutOfMem` when the heap cannot hold it.
    pub fn new(heap: &mut KernAlloctor) -> (r: Result<Self, Error>)
        requires
            old(heap).wf(),
            old(heap).available_above(PHYS_TO_VIRT as int),
        ensures
            final(heap).wf(),
            final(heap).available_above(PHYS_TO_VIRT as int),
            forall|x: int| #[trigger] final(heap).available(x) ==> old(heap).available(x),
            r is Err ==> r == Err::<Self, Error>(Error::OutOfMem),
            r is Ok <==> old(heap).can_allocate(Layout { size: L1_TABLE_SIZE, align: L1_TABLE_ALIGN }),
            (final(heap).curr_addr(), final(heap).free_blocks()) == old(heap).state_after(
                Layout { size: L1_TABLE_SIZE, align: L1_TABLE_ALIGN },
            ),
            final(heap).end_addr() == old(heap).end_addr(),
            r matches Ok(t) ==> t.wf() && forall|a: int| 0 <= a < 0x8000_0000 ==> #[trigger] t.table_view().is_hole(a),
            r matches Ok(t) ==> forall|i: int| 0 <= i < L1_ENTRY_COUNT ==> #[trigger] t.table_view().entry(i) == 0,
            r matches Ok(t) ==> forall|u: int| 0 <= u < L2_SLOT_COUNT ==> #[trigger] t.table_view().slot(u) == 0,
    {
        assert(8192usize & 8191usize == 0) by (bit_vector);
        let base = match kern_heap::allocate::<L1Table>(heap, Layout { size: L1_TABLE_SIZE, align: L1_TABLE_ALIGN }) {
            Ok(b) => b,
            Err(e) => return Err(e),
        };
        let table = TranslationTable::new(L1Table::zeroed(), AddressSpace::User);
        proof {
            assert forall|a: int| 0 <= a < 0x8000_0000 implies #[trigger] table.is_hole(a) by {
                crate::mmu::translation_table::lemma_slot_of(a);
                assert(table.entry(crate::mmu::addr_parts::l1_index_of(a)) == 0);
                assert(0usize & 3 == 0) by (bit_vector);
            }
        }
        Ok(PageTable { table, base })
    }

    /// The value to load into the user translation-table base register: the physical
    /// address of the first-level table.
    pub fn apply_user(&self) -> (r: usize)
        ensures
            r == self.base_addr(),
    {
        self.base.addr()
    }

    /// Maps the physical bytes `phys` into this address space with `perm`, as
    /// `TranslationTable::map_memory` does.
    pub fn map_memory(&mut self, phys: Phys<[u8]>, perm: PagePerm, heap: &mut KernAlloctor) -> (r: Result<
        (usize, usize),
        Error,
    >)
        requires
            old(self).wf(),
            phys.len + 0x3000 <= usize::MAX,
            phys.addr + phys.len + 0x1000 <= usize::MAX,
            old(self).table_view().find_scan(0, (phys.len + phys.addr % 0x1000) as int) matches Ok(h) ==> h + phys.len + 0x1000 <= usize::MAX,
            old(heap).wf(),
            old(heap).available_above(PHYS_TO_VIRT as int),
        ensures
            final(self).wf(),
            final(self).base_addr() == old(self).base_addr(),
            final(heap).wf(),
            final(heap).available_above(PHYS_TO_VIRT as int),
            forall|x: int| #[trigger] final(heap).available(x) ==> old(heap).available(x),
            final(heap).end_addr() == old(heap).end_addr(),
            old(self).table_view().find_scan(0, (phys.len + phys.addr % 0x1000) as int) matches Err(e) ==> r == Err::<(usize, usize), Error>(e),
            old(self).table_view().find_scan(0, (phys.len + phys.addr % 0x1000) as int) matches Ok(h) ==> {
                &&& r is Ok || r == Err::<(usize, usize), Error>(Error::OutOfMem)
                &&& r is Ok <==> can_allocate_seq(
                    old(heap).curr_addr(),
                    old(heap).free_blocks(),
                    old(heap).end_addr(),
                    l2_table_layout(),
                    old(self).table_view().tables_needed(h, page_count(phys.len + phys.addr % 0x1000)),
                )
                &&& r is Ok ==> (final(heap).curr_addr(), final(heap).free_blocks()) == state_after_seq(
                    old(heap).curr_addr(),
                    old(heap).free_blocks(),
                    old(heap).end_addr(),
                    l2_table_layout(),
                    old(self).table_view().tables_needed(h, page_count(phys.len + phys.addr % 0x1000)),
                )
                &&& r is Ok ==> final(self).table_view().changed_only(
                    old(self).table_view(),
                    slot_of(h),
                    slot_of(h) + page_count(phys.len + phys.addr % 0x1000),
                )
                &&& r is Ok ==> r == Ok::<(usize, usize), Error>(((h + phys.addr % 0x1000) as usize, phys.len))
                &&& r is Ok ==> final(self).table_view().keeps_mappings(old(self).table_view())
                &&& r is Ok ==> forall|j: int|
                    0 <= j < page_count(phys.len + phys.addr % 0x1000) ==> #[trigger] final(self).table_view().page_mapped_to(
                        old(self).table_view().map_offset(h, j),
                        phys.addr + j * 4096,
                        perm,
                    )
            },
    {
        self.as_translation_table().map_memory(phys, perm, heap)
    }

    /// Allocates a page from `heap` and maps it at virtual `virt` with `perm`; gives the
    /// kernel's virtual address of the page and its length. `OutOfMem` when the heap
    /// cannot hold a page; otherwise fails as `map` does.
    pub fn alloc_page(&mut self, virt: usize, perm: PagePerm, heap: &mut KernAlloctor) -> (r: Result<
        (usize, usize),
        Error,
    >)
        requires
            old(self).wf(),
            virt + PAGE_SIZE <= usize::MAX,
            old(heap).wf(),
            old(heap).available_above(PHYS_TO_VIRT as int),
        ensures
            final(self).wf(),
            final(self).base_addr() == old(self).base_addr(),
            final(heap).wf(),
            final(heap).available_above(PHYS_TO_VIRT as int),
            forall|x: int| #[trigger] final(heap).available(x) ==> old(heap).available(x),
            final(self).table_view().keeps_mappings(old(self).table_view()),
            !old(heap).can_allocate(Layout { size: PAGE_SIZE, align: PAGE_SIZE }) ==> r == Err::<
                (usize, usize),
                Error,
            >(Error::OutOfMem),
            r is Ok <==> old(heap).can_allocate(Layout { size: PAGE_SIZE, align: PAGE_SIZE })
                && old(self).table_view().range_mappable(virt as int, PAGE_SIZE as int) && (is_table_value(
                old(self).table_view().entry(l1_index_of(virt as int)),
            ) || can_allocate_from(
                old(heap).state_after(Layout { size: PAGE_SIZE, align: PAGE_SIZE }).0,
                old(heap).state_after(Layout { size: PAGE_SIZE, align: PAGE_SIZE }).1,
                old(heap).end_addr(),
                l2_table_layout(),
            )),
            r matches Ok(p) ==> p.1 == PAGE_SIZE && p.0 % 0x1000 == 0
                && final(self).table_view().page_mapped_to(virt as int, (p.0 - PHYS_TO_VIRT) as int, perm),
    {
        assert(4096usize & 4095usize == 0) by (bit_vector);
        let page = match kern_heap::allocate::<Page>(heap, Layout { size: PAGE_SIZE, align: PAGE_SIZE }) {
            Ok(p) => p,
            Err(e) => return Err(e),
        };
        let ghost before = self.table;
        proof {
            self.lemma_user_space();
            assert(before.map_offset(virt as int, 0) == virt);
            assert(crate::mmu::translation_table::page_count(PAGE_SIZE as int) == 1);
        }
        let page_addr = page.addr();
        proof {
            assert(page_addr + PHYS_TO_VIRT <= usize::MAX);
        }
        assert(page_addr + PAGE_SIZE <= usize::MAX);
        match self.as_translation_table().map(virt, page_addr, PAGE_SIZE, perm, true, true, heap) {
            Ok(()) => {},
            Err(e) => return Err(e),
        }
        proof {
            assert(crate::mmu::translation_table::page_count(PAGE_SIZE as int) == 1);
            assert(self.table.page_mapped_to(before.map_offset(virt as int, 0), page_addr + 0 * 4096, perm));
            assert(before.map_offset(virt as int, 0) == virt);
        }
        Ok(Page::as_slice_ptr(page.into_virt()))
    }

    /// The translation table of this address space.
    pub fn as_translation_table(&mut self) -> (r: &mut TranslationTable)
        ensures
            *r == old(self).table_view(),
            final(self).table_view() == *final(r),
            final(self).base_addr() == old(self).base_addr(),
    {
        &mut self.table
    }
}

} // verus!
