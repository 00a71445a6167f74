use vstd::prelude::*;

use core::ops::Range;

use crate::error::Error;
use crate::heap::block::Layout;
use crate::heap::kern_allocator::{
    can_allocate_seq, lemma_can_allocate_seq_prefix, lemma_seq_split, state_after_from, state_after_seq,
    KernAlloctor,
};
use crate::heap::kern_heap;
use crate::memory_model::PHYS_TO_VIRT;
use crate::mmu::addr_parts::{
    l1_index_of, l2_index_of, lemma_parts, page_offset_of, AddrParts, Offset, ADDRESS_SPACE_SIZE,
};
use crate::mmu::entry::{
    section_value, is_section_value, is_supersection_value, is_table_value, is_unmapped_value, Entry, EntryKind,
    SeconLevelTable, L1_ENTRY_COUNT, L2_ENTRY_COUNT, SECTION_SIZE,
};
use crate::mmu::entry::{L2_TABLE_MASK, SECTION_MASK};
use crate::mmu::l2entry::{
    l2_mapped_value, l2_phys_of, l2_type_of, lemma_l2_mapped_value, L2Entry, L2EntryType,
    SMALL_PAGE_MASK,
};
use crate::mmu::page::PAGE_SIZE;
use crate::mmu::page_permission::PagePerm;
use crate::phys::{Phys, PhysMut};
use crate::step_range::StepRange;

verus! {

/// Bytes of a second-level table in memory.
pub const L2_TABLE_SIZE: usize = 1024;

/// Number of second-level entries the first-level table can reach.
pub const L2_SLOT_COUNT: usize = 536576;

/// Size and alignment of a second-level table taken from the heap.
pub open spec fn l2_table_layout() -> Layout {
    Layout { size: L2_TABLE_SIZE, align: L2_TABLE_SIZE }
}

/// Which half of the address space a table maps.
#[derive(PartialEq, Eq, Structural, Clone, Copy, Debug)]
pub enum AddressSpace {
    Kernel,
    User,
}

/// First virtual address of an address space.
pub open spec fn space_start(space: AddressSpace) -> int {
    match space {
        AddressSpace::Kernel => 0x8000_0000,
        AddressSpace::User => 0,
    }
}

/// End (exclusive) of the virtual addresses a table of an address space accepts.
pub open spec fn space_end(space: AddressSpace) -> int {
    match space {
        AddressSpace::Kernel => 0xffff_ffff,
        AddressSpace::User => 0x7fff_ffff,
    }
}

/// A first-level table together with the second-level tables its entries point at:
/// the second-level entries of first-level entry `i` are at `l2[i * 256 .. i * 256 + 256]`.
pub struct L1Table {
    entries: Vec<Entry>,
    l2: Vec<L2Entry>,
}

impl L1Table {
    /// The table has its full number of first-level entries and second-level slots.
    pub closed spec fn shape_wf(&self) -> bool {
        &&& self.entries@.len() == L1_ENTRY_COUNT
        &&& self.l2@.len() == L2_SLOT_COUNT
    }

    /// Every entry and slot is zero: nothing is mapped.
    pub closed spec fn is_zeroed(&self) -> bool {
        &&& forall|i: int| 0 <= i < L1_ENTRY_COUNT ==> (#[trigger] self.entries@[i]).value == 0
        &&& forall|t: int| 0 <= t < L2_SLOT_COUNT ==> (#[trigger] self.l2@[t]).value == 0
    }

    /// A table that maps nothing.
    pub fn zeroed() -> (r: L1Table)
        ensures
            r.shape_wf(),
            r.is_zeroed(),
    {
        let mut entries: Vec<Entry> = Vec::new();
        let mut i: usize = 0;
        while i < L1_ENTRY_COUNT
            invariant
                i <= L1_ENTRY_COUNT,
                entries@.len() == i,
                forall|k: int| 0 <= k < i ==> (#[trigger] entries@[k]).value == 0,
            decreases L1_ENTRY_COUNT - i,
        {
            entries.push(Entry { value: 0 });
            i = i + 1;
        }
        let mut l2: Vec<L2Entry> = Vec::new();
        let mut t: usize = 0;
        while t < L2_SLOT_COUNT
            invariant
                t <= L2_SLOT_COUNT,
                l2@.len() == t,
                forall|k: int| 0 <= k < t ==> (#[trigger] l2@[k]).value == 0,
            decreases L2_SLOT_COUNT - t,
        {
            l2.push(L2Entry { value: 0 });
            t = t + 1;
        }
        L1Table { entries, l2 }
    }
}

/// A translation table of one half of the address space.
pub struct TranslationTable {
    table: L1Table,
    address_space: AddressSpace,
}

/// Flat index of the second-level entry that maps offset `a`.
pub open spec fn slot_of(a: int) -> int {
    a / 0x1000
}

/// Bytes from the page that holds `addr` to the end of the page that holds its last byte
/// of `size` bytes.
pub open spec fn device_span(addr: int, size: int) -> int {
    crate::num::align_up_usize((addr + size) as usize, 0x1000) - (addr - addr % 0x1000)
}

/// Number of pages `len` bytes from a start address spread over.
pub open spec fn page_count(len: int) -> int {
    if len <= 0 {
        0
    } else {
        (len + 4095) / 4096
    }
}

proof fn lemma_l1_shift(a: int, k: int)
    requires
        a >= 0,
        k >= 0,
    ensures
        l1_index_of(a + 0x100000 * k) == l1_index_of(a) + k,
{
    vstd::arithmetic::div_mod::lemma_fundamental_div_mod(a, 0x100000);
    vstd::arithmetic::div_mod::lemma_div_multiples_vanish_fancy(a / 0x100000 + k, a % 0x100000, 0x100000);
    vstd::arithmetic::div_mod::lemma_mod_pos_bound(a, 0x100000);
    assert(a + 0x100000 * k == 0x100000 * (a / 0x100000 + k) + a % 0x100000);
}

proof fn lemma_l1_next_page(a: int)
    requires
        a >= 0,
    ensures
        l1_index_of(a) <= l1_index_of(a + 4096) <= l1_index_of(a) + 1,
{
    vstd::arithmetic::div_mod::lemma_div_is_ordered(a, a + 4096, 0x100000);
    vstd::arithmetic::div_mod::lemma_fundamental_div_mod(a, 0x100000);
    vstd::arithmetic::div_mod::lemma_fundamental_div_mod(a + 4096, 0x100000);
    vstd::arithmetic::div_mod::lemma_mod_pos_bound(a, 0x100000);
    vstd::arithmetic::div_mod::lemma_mod_pos_bound(a + 4096, 0x100000);
}

proof fn lemma_slot_shift(a: int, k: int)
    requires
        a >= 0,
        k >= 0,
    ensures
        slot_of(a + 4096 * k) == slot_of(a) + k,
{
    vstd::arithmetic::div_mod::lemma_fundamental_div_mod(a, 4096);
    vstd::arithmetic::div_mod::lemma_div_multiples_vanish_fancy(a / 4096 + k, a % 4096, 4096);
    vstd::arithmetic::div_mod::lemma_mod_pos_bound(a, 4096);
    assert(a + 4096 * k == 4096 * (a / 4096 + k) + a % 4096);
}

proof fn lemma_slot_of_next(a: int)
    requires
        0 <= a,
    ensures
        l2_index_of(a + 0x1000) == 0 <==> l2_index_of(a) == 255,
{
    vstd::arithmetic::div_mod::lemma_fundamental_div_mod(a, 0x1000);
    vstd::arithmetic::div_mod::lemma_div_multiples_vanish_fancy(a / 0x1000 + 1, a % 0x1000, 0x1000);
    vstd::arithmetic::div_mod::lemma_mod_pos_bound(a, 0x1000);
    assert(a + 0x1000 == 0x1000 * (a / 0x1000 + 1) + a % 0x1000);
    assert((a + 0x1000) / 0x1000 == a / 0x1000 + 1);
    let q = a / 0x1000;
    vstd::arithmetic::div_mod::lemma_fundamental_div_mod(q, 256);
    vstd::arithmetic::div_mod::lemma_mod_pos_bound(q, 256);
    vstd::arithmetic::div_mod::lemma_fundamental_div_mod(q + 1, 256);
    vstd::arithmetic::div_mod::lemma_mod_pos_bound(q + 1, 256);
    if q % 256 == 255 {
        vstd::arithmetic::div_mod::lemma_div_multiples_vanish_fancy(q / 256 + 1, 0, 256);
        assert(q + 1 == 256 * (q / 256 + 1));
        vstd::arithmetic::div_mod::lemma_mod_multiples_basic(q / 256 + 1, 256);
    } else {
        vstd::arithmetic::div_mod::lemma_div_multiples_vanish_fancy(q / 256, q % 256 + 1, 256);
        assert(q + 1 == 256 * (q / 256) + (q % 256 + 1));
        vstd::arithmetic::div_mod::lemma_mod_multiples_vanish(q / 256, q % 256 + 1, 256);
        vstd::arithmetic::div_mod::lemma_small_mod((q % 256 + 1) as nat, 256);
    }
}

/// The flat second-level slot of an offset is its first-level index times 256 plus its
/// second-level index, and both lie in range.
pub proof fn lemma_slot_of(a: int)
    requires
        0 <= a < ADDRESS_SPACE_SIZE,
    ensures
        slot_of(a) == l1_index_of(a) * 256 + l2_index_of(a),
        0 <= slot_of(a) < 524288,
        0 <= l1_index_of(a) < 2048,
        0 <= l2_index_of(a) < 256,
        slot_of(a) / 256 == l1_index_of(a),
{
    vstd::arithmetic::div_mod::lemma_div_denominator(a, 0x1000, 256);
    vstd::arithmetic::div_mod::lemma_fundamental_div_mod(a / 0x1000, 256);
    assert(0x1000 * 256 == 0x100000);
}

impl TranslationTable {
    /// Raw value of first-level entry `i`.
    pub closed spec fn entry(&self, i: int) -> usize {
        self.table.entries@[i].value
    }

    /// Raw value of the second-level entry with flat index `t`.
    pub closed spec fn slot(&self, t: int) -> usize {
        self.table.l2@[t].value
    }

    /// The half of the address space this table maps.
    pub closed spec fn space(&self) -> AddressSpace {
        self.address_space
    }

    /// The table's shape is right and every entry is of a type this kernel handles:
    /// unmapped, a second-level table, or a section that is not a supersection.
    pub closed spec fn wf(&self) -> bool {
        &&& self.table.shape_wf()
        &&& forall|i: int|
            0 <= i < L1_ENTRY_COUNT ==> {
                let v = #[trigger] self.entry(i);
                is_unmapped_value(v) || is_table_value(v) || is_section_value(v)
            }
    }

    /// The page at offset `a` is a hole: its first-level entry maps nothing, or points at
    /// a second-level table whose entry for it maps nothing.
    pub open spec fn is_hole(&self, a: int) -> bool {
        let v = self.entry(l1_index_of(a));
        ||| is_unmapped_value(v)
        ||| is_table_value(v) && l2_type_of(self.slot(slot_of(a))) == L2EntryType::Unmapped
    }

    /// A table of `address_space` over `table`.
    pub fn new(table: L1Table, address_space: AddressSpace) -> (r: TranslationTable)
        requires
            table.shape_wf(),
            table.is_zeroed(),
        ensures
            r.wf(),
            r.space() == address_space,
            forall|i: int| 0 <= i < L1_ENTRY_COUNT ==> #[trigger] r.entry(i) == 0,
            forall|t: int| 0 <= t < L2_SLOT_COUNT ==> #[trigger] r.slot(t) == 0,
    {
        let r = TranslationTable { table, address_space };
        assert forall|i: int| 0 <= i < L1_ENTRY_COUNT implies {
            let v = #[trigger] r.entry(i);
            is_unmapped_value(v) || is_table_value(v) || is_section_value(v)
        } by {
            assert(r.table.entries@[i].value == 0);
            assert(0usize & 3 == 0) by (bit_vector);
        }
        r
    }

    /// The virtual addresses this table accepts.
    pub fn get_range(&self) -> (r: Range<usize>)
        ensures
            r.start == space_start(self.space()),
            r.end == space_end(self.space()),
    {
        match self.address_space {
            AddressSpace::Kernel => 0x8000_0000..0xffff_ffff,
            AddressSpace::User => 0x0000_0000..0x7fff_ffff,
        }
    }

    /// The offset of virtual address `addr` in this table; `OutOfRange` when the table
    /// does not accept it.
    pub fn get_offset(&self, addr: usize) -> (r: Result<Offset, Error>)
        ensures
            space_start(self.space()) <= addr < space_end(self.space()) ==> r == Ok::<
                Offset,
                Error,
            >(Offset((addr - space_start(self.space())) as usize)),
            !(space_start(self.space()) <= addr < space_end(self.space())) ==> r == Err::<
                Offset,
                Error,
            >(Error::OutOfRange),
    {
        let range = self.get_range();
        if !(range.start <= addr && addr < range.end) {
            Err(Error::OutOfRange)
        } else {
            Ok(Offset(addr - range.start))
        }
    }

    /// The virtual address of `offset` in this table.
    pub fn get_virt(&self, offset: Offset) -> (r: usize)
        requires
            offset.0 < ADDRESS_SPACE_SIZE,
        ensures
            r == space_start(self.space()) + offset.0,
    {
        self.get_range().start + offset.0
    }

    /// The virtual address of `offset` in this table.
    pub fn offset_to_virt(&self, offset: Offset) -> (r: usize)
        requires
            offset.0 < ADDRESS_SPACE_SIZE,
        ensures
            r == space_start(self.space()) + offset.0,
    {
        let address_range_base: usize = match self.address_space {
            AddressSpace::Kernel => 0x8000_0000,
            AddressSpace::User => 0x0000_0000,
        };
        address_range_base + offset.0
    }

    /// The first-level entry at `l1_index`.
    pub fn get_l1(&self, l1_index: usize) -> (r: Entry)
        requires
            self.wf(),
            l1_index < L1_ENTRY_COUNT,
        ensures
            r.value == self.entry(l1_index as int),
    {
        self.table.entries[l1_index]
    }

    /// Offset of a physical slice's start inside its page.
    pub fn page_offset<T>(phys: &Phys<[T]>) -> (r: usize)
        ensures
            r == phys.addr % 0x1000,
    {
        proof {
            lemma_parts(phys.addr);
        }
        phys.addr() & 0xfff
    }

    /// Allocates a second-level table and points first-level entry `l1_index` at it;
    /// `Remap` when the entry already maps something, `OutOfMem` when no table could
    /// be allocated. A new table maps nothing.
    fn create_l2table(&mut self, l1_index: usize, heap: &mut KernAlloctor) -> (r: Result<
        (),
        Error,
    >)
        requires
            old(self).wf(),
            l1_index < 2048,
            old(heap).wf(),
            old(heap).available_above(PHYS_TO_VIRT as int),
        ensures
            final(self).wf(),
            final(self).space() == old(self).space(),
            final(heap).wf(),
            final(heap).available_above(PHYS_TO_VIRT as int),
            forall|x: int| #[trigger] final(heap).available(x) ==> old(heap).available(x),
            r is Err ==> final(self).table_unchanged(*old(self)),
            r is Ok <==> old(heap).can_allocate(l2_table_layout()) && is_unmapped_value(
                old(self).entry(l1_index as int),
            ),
            (final(heap).curr_addr(), final(heap).free_blocks()) == old(heap).state_after(
                l2_table_layout(),
            ),
            final(heap).end_addr() == old(heap).end_addr(),
            !old(heap).can_allocate(l2_table_layout()) ==> r == Err::<(), Error>(Error::OutOfMem),
            r == Err::<(), Error>(Error::OutOfMem) || (r == Err::<(), Error>(Error::Remap)
                && !is_unmapped_value(old(self).entry(l1_index as int))) || (r is Ok
                && is_unmapped_value(old(self).entry(l1_index as int))),
            r is Ok ==> {
                &&& is_unmapped_value(old(self).entry(l1_index as int))
                &&& is_table_value(final(self).entry(l1_index as int))
                &&& forall|i: int|
                    0 <= i < L1_ENTRY_COUNT && i != l1_index ==> #[trigger] final(self).entry(i)
                        == old(self).entry(i)
                &&& forall|t: int|
                    0 <= t < L2_SLOT_COUNT && t / 256 != l1_index ==> #[trigger] final(self).slot(t)
                        == old(self).slot(t)
                &&& forall|t: int|
                    0 <= t < L2_SLOT_COUNT && t / 256 == l1_index ==> #[trigger] final(self).slot(t)
                        == 0
            },
    {
        assert(1024usize & 1023usize == 0) by (bit_vector);
        let new_l2_table = kern_heap::allocate::<SeconLevelTable>(
            heap,
            Layout { size: L2_TABLE_SIZE, align: L2_TABLE_SIZE },
        );
        let new_l2_table = match new_l2_table {
            Ok(t) => t,
            Err(e) => return Err(e),
        };
        let entry = self.table.entries[l1_index];
        assert(entry.value == self.entry(l1_index as int));
        match entry.get_type() {
            EntryKind::Unmapped => {},
            _ => return Err(Error::Remap),
        }
        let mut entry = entry;
        entry.set_l2_table(PhysMut::from(new_l2_table.addr()), 0);
        self.table.entries.set(l1_index, entry);
        let base = l1_index * L2_ENTRY_COUNT;
        let mut j: usize = 0;
        while j < L2_ENTRY_COUNT
            invariant
                j <= L2_ENTRY_COUNT,
                base == l1_index * 256,
                l1_index < 2048,
                self.table.shape_wf(),
                self.table.entries@ == old(self).table.entries@.update(l1_index as int, entry),
                self.address_space == old(self).address_space,
                forall|t: int|
                    0 <= t < L2_SLOT_COUNT && !(base <= t < base + j) ==> #[trigger] self.slot(t)
                        == old(self).slot(t),
                forall|t: int| base <= t < base + j ==> #[trigger] self.slot(t) == 0,
            decreases L2_ENTRY_COUNT - j,
        {
            let ghost prev = *self;
            self.table.l2.set(base + j, L2Entry { value: 0 });
            assert forall|t: int|
                0 <= t < L2_SLOT_COUNT && !(base <= t < base + j + 1) implies #[trigger] self.slot(t)
                == old(self).slot(t) by {
                assert(prev.slot(t) == old(self).slot(t));
            }
            assert forall|t: int| base <= t < base + j + 1 implies #[trigger] self.slot(t) == 0 by {
                if t < base + j {
                    assert(prev.slot(t) == 0);
                }
            }
            j = j + 1;
        }
        assert forall|i: int| 0 <= i < L1_ENTRY_COUNT implies {
            let v = #[trigger] self.entry(i);
            is_unmapped_value(v) || is_table_value(v) || is_section_value(v)
        } by {
            if i != l1_index {
                assert(self.entry(i) == old(self).entry(i));
            }
        }
        assert forall|t: int| 0 <= t < L2_SLOT_COUNT && t / 256 == l1_index implies #[trigger] self.slot(t) == 0 by {
            assert(base <= t < base + 256);
        }
        assert forall|t: int| 0 <= t < L2_SLOT_COUNT && t / 256 != l1_index implies #[trigger] self.slot(t) == old(self).slot(t) by {
            if base <= t < base + 256 {
                assert(t / 256 == l1_index);
            }
        }
        Ok(())
    }

    /// The table is `old` with second-level slot `t` set to `val` and, when first-level
    /// entry `i` mapped nothing in `old`, that entry made to point at a new table whose
    /// other slots map nothing.
    pub open spec fn slot_set(&self, old: Self, i: int, t: int, val: usize) -> bool {
        &&& self.space() == old.space()
        &&& self.slot(t) == val
        &&& is_table_value(self.entry(i))
        &&& self.entry(i) == old.entry(i) || is_unmapped_value(old.entry(i))
        &&& forall|k: int| 0 <= k < L1_ENTRY_COUNT && k != i ==> #[trigger] self.entry(k) == old.entry(k)
        &&& forall|u: int|
            0 <= u < L2_SLOT_COUNT && u != t ==> if is_unmapped_value(old.entry(i)) && u / 256 == i {
                #[trigger] self.slot(u) == 0
            } else {
                self.slot(u) == old.slot(u)
            }
    }

    /// Maps the page at the offset of `addr` to `phys` with `perm`, creating its
    /// second-level table when its first-level entry maps nothing. `Remap` when the page
    /// is in a section or already mapped; `OutOfMem` when a needed table could not be
    /// allocated. The entry keeps no cache attributes: `cachable` and `bufferable` do
    /// not change it.
    pub fn map_once(
        &mut self,
        addr: &AddrParts,
        phys: usize,
        perm: PagePerm,
        cachable: bool,
        bufferable: bool,
        heap: &mut KernAlloctor,
    ) -> (r: Result<(), Error>)
        requires
            old(self).wf(),
            addr.addr_spec() < ADDRESS_SPACE_SIZE,
            old(heap).wf(),
            old(heap).available_above(PHYS_TO_VIRT as int),
        ensures
            final(self).wf(),
            final(heap).wf(),
            final(heap).available_above(PHYS_TO_VIRT as int),
            forall|x: int| #[trigger] final(heap).available(x) ==> old(heap).available(x),
            is_section_value(old(self).entry(l1_index_of(addr.addr_spec() as int))) ==> r == Err::<
                (),
                Error,
            >(Error::Remap),
            is_table_value(old(self).entry(l1_index_of(addr.addr_spec() as int))) && l2_type_of(
                old(self).slot(slot_of(addr.addr_spec() as int)),
            ) != L2EntryType::Unmapped ==> r == Err::<(), Error>(Error::Remap),
            is_table_value(old(self).entry(l1_index_of(addr.addr_spec() as int))) && l2_type_of(
                old(self).slot(slot_of(addr.addr_spec() as int)),
            ) == L2EntryType::Unmapped ==> r is Ok,
            is_unmapped_value(old(self).entry(l1_index_of(addr.addr_spec() as int))) ==> r is Ok
                || r == Err::<(), Error>(Error::OutOfMem),
            is_unmapped_value(old(self).entry(l1_index_of(addr.addr_spec() as int))) ==> (r is Ok
                <==> old(heap).can_allocate(l2_table_layout())),
            is_unmapped_value(old(self).entry(l1_index_of(addr.addr_spec() as int))) ==> (final(heap).curr_addr(), final(heap).free_blocks()) == old(heap).state_after(l2_table_layout()),
            !is_unmapped_value(old(self).entry(l1_index_of(addr.addr_spec() as int))) ==> final(heap).curr_addr() == old(heap).curr_addr() && final(heap).free_blocks() == old(heap).free_blocks(),
            final(heap).end_addr() == old(heap).end_addr(),
            r is Err ==> final(self).table_unchanged(*old(self)),
            r is Ok ==> final(self).slot_set(
                *old(self),
                l1_index_of(addr.addr_spec() as int),
                slot_of(addr.addr_spec() as int),
                l2_mapped_value(phys, perm),
            ),
    {
        let l1 = addr.l1_index();
        let l2i = addr.l2_index();
        let ghost a = addr.addr_spec() as int;
        proof {
            lemma_slot_of(a);
        }
        let entry = self.table.entries[l1];
        assert(entry.value == self.entry(l1 as int));
        match entry.get_type() {
            EntryKind::SeconLevelTable(_) => {},
            EntryKind::Unmapped => {
                match self.create_l2table(l1, heap) {
                    Ok(()) => {},
                    Err(e) => return Err(e),
                }
            },
            _ => return Err(Error::Remap),
        }
        let t = l1 * L2_ENTRY_COUNT + l2i;
        let mut l2_entry = self.table.l2[t];
        assert(l2_entry.value == self.slot(t as int));
        assert(0usize & 3 == 0) by (bit_vector);
        if l2_entry.get_type() != L2EntryType::Unmapped {
            return Err(Error::Remap);
        }
        l2_entry.set_phys(phys, L2EntryType::Small);
        l2_entry.set_perm(perm);
        let ghost before = *self;
        self.table.l2.set(t, l2_entry);
        assert forall|u: int| 0 <= u < L2_SLOT_COUNT && u != t implies #[trigger] self.slot(u) == before.slot(u) by {}
        assert forall|k: int| 0 <= k < L1_ENTRY_COUNT implies #[trigger] self.entry(k) == before.entry(k) by {}
        assert(self.slot(t as int) == l2_mapped_value(phys, perm));
        assert(is_table_value(self.entry(l1 as int)));
        assert forall|k: int| 0 <= k < L1_ENTRY_COUNT && k != l1 implies #[trigger] self.entry(k) == old(self).entry(k) by {
            assert(before.entry(k) == old(self).entry(k));
        }
        assert forall|u: int|
            0 <= u < L2_SLOT_COUNT && u != t implies if is_unmapped_value(old(self).entry(l1 as int)) && u / 256 == l1 {
                #[trigger] self.slot(u) == 0
            } else {
                self.slot(u) == old(self).slot(u)
            } by {
            assert(self.slot(u) == before.slot(u));
        }
        assert forall|i: int| 0 <= i < L1_ENTRY_COUNT implies {
            let v = #[trigger] self.entry(i);
            is_unmapped_value(v) || is_table_value(v) || is_section_value(v)
        } by {
            assert(self.entry(i) == before.entry(i));
        }
        Ok(())
    }

    /// Offset in this table of the `j`-th page of a range that starts at virtual `virt`.
    pub open spec fn map_offset(&self, virt: int, j: int) -> int {
        virt + j * 4096 - space_start(self.space())
    }

    /// The page at offset `a` is mapped to `phys` with `perm` through a second-level table.
    pub open spec fn page_mapped_to(&self, a: int, phys: int, perm: PagePerm) -> bool {
        &&& is_table_value(self.entry(l1_index_of(a)))
        &&& self.slot(slot_of(a)) == l2_mapped_value(phys as usize, perm)
    }

    /// The table differs from `old` only in second-level slots `lo..hi` and in
    /// first-level entries that mapped nothing and now point at new tables, whose
    /// slots outside `lo..hi` map nothing.
    pub open spec fn changed_only(&self, old: Self, lo: int, hi: int) -> bool {
        &&& self.space() == old.space()
        &&& forall|i: int|
            0 <= i < L1_ENTRY_COUNT ==> #[trigger] self.entry(i) == old.entry(i) || (
            is_unmapped_value(old.entry(i)) && is_table_value(self.entry(i)))
        &&& forall|u: int|
            0 <= u < L2_SLOT_COUNT && !(lo <= u < hi) ==> if is_unmapped_value(old.entry(u / 256))
                && is_table_value(self.entry(u / 256)) {
                #[trigger] self.slot(u) == 0
            } else {
                self.slot(u) == old.slot(u)
            }
    }

    /// Every page of the `len` bytes at virtual `virt` lies in this table's address
    /// space and is a hole.
    pub open spec fn range_mappable(&self, virt: int, len: int) -> bool {
        forall|j: int|
            0 <= j < page_count(len) ==> #[trigger] self.page_mappable(virt, j)
    }

    /// The `j`-th page of a range that starts at virtual `virt` has an offset inside the
    /// address space, lies in this table's address space and is a hole.
    pub open spec fn page_fresh(&self, virt: int, j: int) -> bool {
        &&& 0 <= self.map_offset(virt, j) < ADDRESS_SPACE_SIZE
        &&& self.page_mappable(virt, j)
    }

    /// The `j`-th page of a range that starts at virtual `virt` lies in this table's
    /// address space and is a hole.
    pub open spec fn page_mappable(&self, virt: int, j: int) -> bool {
        &&& space_start(self.space()) <= virt + j * 4096 < space_end(self.space())
        &&& self.is_hole(self.map_offset(virt, j))
    }

    /// The `j`-th page of a range at virtual `virt` is the first of the range under a
    /// first-level entry that maps nothing: mapping it takes a new second-level table.
    pub open spec fn needs_table(&self, virt: int, j: int) -> bool {
        &&& is_unmapped_value(self.entry(l1_index_of(self.map_offset(virt, j))))
        &&& (j == 0 || l1_index_of(self.map_offset(virt, j)) != l1_index_of(self.map_offset(virt, j - 1)))
    }

    /// How many new second-level tables mapping the first `k` pages of a range at
    /// virtual `virt` takes.
    pub open spec fn tables_needed(&self, virt: int, k: int) -> nat
        decreases k,
    {
        if k <= 0 {
            0
        } else {
            self.tables_needed(virt, k - 1) + if self.needs_table(virt, k - 1) {
                1nat
            } else {
                0nat
            }
        }
    }

    /// Once the first page of a range at virtual `virt` is mapped in `old`, giving this
    /// table, with no first-level entry past that page's changed, mapping the `k` pages
    /// after it takes as many new tables as mapping all `k + 1` pages in `old`, less
    /// those the first page took.
    pub proof fn lemma_tables_needed_after_first(&self, old: Self, virt: int, k: int)
        requires
            self.space() == old.space(),
            0 <= k,
            0 <= old.map_offset(virt, 0),
            old.map_offset(virt, k) < ADDRESS_SPACE_SIZE,
            is_table_value(self.entry(l1_index_of(old.map_offset(virt, 0)))),
            forall|i: int|
                0 <= i < L1_ENTRY_COUNT && i > l1_index_of(old.map_offset(virt, 0)) ==> #[trigger] self.entry(i)
                    == old.entry(i),
        ensures
            self.tables_needed(virt + 0x1000, k) + old.tables_needed(virt, 1) == old.tables_needed(virt, k + 1),
        decreases k,
    {
        let b = old.map_offset(virt, 0);
        if k == 0 {
        } else {
            self.lemma_tables_needed_after_first(old, virt, k - 1);
            let p = old.map_offset(virt, k);
            let prev = old.map_offset(virt, k - 1);
            assert(self.map_offset(virt + 0x1000, k - 1) == p);
            assert(p == prev + 4096);
            vstd::arithmetic::div_mod::lemma_div_is_ordered(b, prev, 0x100000);
            vstd::arithmetic::div_mod::lemma_div_is_ordered(prev, p, 0x100000);
            assert(l1_index_of(p) < L1_ENTRY_COUNT) by {
                vstd::arithmetic::div_mod::lemma_div_is_ordered(p, ADDRESS_SPACE_SIZE as int, 0x100000);
            }
            let w = self.entry(l1_index_of(b));
            assert(w & 3 == 1 ==> w & 3 != 0) by (bit_vector);
            if k >= 2 {
                assert(self.map_offset(virt + 0x1000, k - 2) == prev);
            }
            assert(self.needs_table(virt + 0x1000, k - 1) == old.needs_table(virt, k));
            assert(self.tables_needed(virt + 0x1000, k) == self.tables_needed(virt + 0x1000, k - 1) + if self.needs_table(
                virt + 0x1000,
                k - 1,
            ) {
                1nat
            } else {
                0nat
            });
        }
    }

    /// Page `i` is the first of the `len` bytes at virtual `virt` that cannot be mapped.
    pub open spec fn first_unmappable(&self, virt: int, len: int, i: int) -> bool {
        &&& 0 <= i < page_count(len)
        &&& !self.page_mappable(virt, i)
        &&& forall|j: int| 0 <= j < i ==> self.page_mappable(virt, j)
    }

    /// A range has at most one first page that cannot be mapped.
    pub proof fn lemma_first_unmappable_unique(&self, virt: int, len: int, i: int, k: int)
        requires
            self.first_unmappable(virt, len, i),
            self.first_unmappable(virt, len, k),
        ensures
            i == k,
    {
    }

    /// When the first `k` pages of a range at virtual `virt` are fresh and page `k` can be
    /// mapped, but the tables these pages take cannot all be allocated, the first page
    /// that cannot be mapped comes after page `k`, and the tables the pages before it
    /// take cannot all be allocated either.
    pub proof fn lemma_fail_for_table(&self, virt: int, len: int, k: int, i: int, c: usize, f: Seq<crate::heap::block::Block>, e: usize)
        requires
            0 <= k,
            forall|j: int| 0 <= j < k ==> #[trigger] self.page_fresh(virt, j),
            self.page_mappable(virt, k),
            !can_allocate_seq(c, f, e, l2_table_layout(), self.tables_needed(virt, k + 1)),
            self.first_unmappable(virt, len, i),
        ensures
            i > k,
            !can_allocate_seq(c, f, e, l2_table_layout(), self.tables_needed(virt, i)),
    {
        if i > k {
            self.lemma_tables_needed_grows(virt, k + 1, i);
            if can_allocate_seq(c, f, e, l2_table_layout(), self.tables_needed(virt, i)) {
                lemma_can_allocate_seq_prefix(c, f, e, l2_table_layout(), self.tables_needed(virt, k + 1), self.tables_needed(virt, i));
            }
        } else if i == k {
        } else {
            assert(self.page_fresh(virt, i));
        }
    }

    /// Fresh pages can be mapped.
    pub proof fn lemma_fresh_prefix(&self, virt: int, len: int, k: int)
        requires
            forall|j: int| 0 <= j < k ==> #[trigger] self.page_fresh(virt, j),
        ensures
            forall|j: int| 0 <= j < k ==> #[trigger] self.page_mappable(virt, j),
    {
        assert forall|j: int| 0 <= j < k implies #[trigger] self.page_mappable(virt, j) by {
            assert(self.page_fresh(virt, j));
        }
    }

    /// While a range at virtual `virt` is mapped page by page into `old`, giving this
    /// table after the first `k` pages, the first-level entry of page `k` maps nothing
    /// exactly when page `k` needs a new second-level table.
    pub proof fn lemma_needs_table_now(&self, old: Self, virt: int, k: int, phys: int, perm: PagePerm)
        requires
            0 <= k,
            0 <= old.map_offset(virt, 0),
            old.map_offset(virt, k) < ADDRESS_SPACE_SIZE,
            forall|i: int|
                0 <= i < L1_ENTRY_COUNT ==> #[trigger] self.entry(i) == old.entry(i) || (is_unmapped_value(
                    old.entry(i),
                ) && is_table_value(self.entry(i))),
            forall|i: int|
                0 <= i < L1_ENTRY_COUNT && (k == 0 || i > l1_index_of(old.map_offset(virt, k - 1)))
                    ==> #[trigger] self.entry(i) == old.entry(i),
            k > 0 ==> self.page_mapped_to(old.map_offset(virt, k - 1), phys, perm),
        ensures
            is_unmapped_value(self.entry(l1_index_of(old.map_offset(virt, k)))) == old.needs_table(virt, k),
    {
        let a = old.map_offset(virt, k);
        let ia = l1_index_of(a);
        assert(ia < L1_ENTRY_COUNT) by {
            vstd::arithmetic::div_mod::lemma_div_is_ordered(a, ADDRESS_SPACE_SIZE as int, 0x100000);
        }
        assert(0 <= ia) by {
            vstd::arithmetic::div_mod::lemma_div_is_ordered(0, a, 0x100000);
        }
        let w = self.entry(ia);
        assert(w & 3 == 1 ==> w & 3 != 0) by (bit_vector);
        if k > 0 {
            let prev = old.map_offset(virt, k - 1);
            assert(a == prev + 4096);
            lemma_l1_next_page(prev);
            if ia == l1_index_of(prev) {
                assert(is_table_value(self.entry(ia)));
            } else {
                assert(self.entry(ia) == old.entry(ia));
            }
        } else {
            assert(self.entry(ia) == old.entry(ia));
        }
    }

    /// Mapping more pages never takes fewer tables.
    pub proof fn lemma_tables_needed_grows(&self, virt: int, k: int, k2: int)
        requires
            0 <= k <= k2,
        ensures
            self.tables_needed(virt, k) <= self.tables_needed(virt, k2),
        decreases k2,
    {
        if k < k2 {
            self.lemma_tables_needed_grows(virt, k, k2 - 1);
        }
    }

    /// Maps the `len` bytes at virtual `virt` to the bytes at `phys`, page by page, with
    /// `perm`. Stops at the first page that is outside the address space (`OutOfRange`),
    /// already mapped or in a section (`Remap`), or needs a table that could not be
    /// allocated (`OutOfMem`); the pages before it stay mapped. The entries keep no cache
    /// attributes.
    #[verifier::spinoff_prover]
    #[verifier::rlimit(80)]
    pub fn map(
        &mut self,
        virt: usize,
        phys: usize,
        len: usize,
        perm: PagePerm,
        cachable: bool,
        bufferable: bool,
        heap: &mut KernAlloctor,
    ) -> (r: Result<(), Error>)
        requires
            old(self).wf(),
            virt + len <= usize::MAX,
            phys + len <= usize::MAX,
            old(heap).wf(),
            old(heap).available_above(PHYS_TO_VIRT as int),
        ensures
            final(self).wf(),
            final(self).space() == old(self).space(),
            final(heap).wf(),
            final(heap).available_above(PHYS_TO_VIRT as int),
            forall|x: int| #[trigger] final(heap).available(x) ==> old(heap).available(x),
            r is Ok ==> forall|j: int|
                0 <= j < page_count(len as int) ==> #[trigger] final(self).page_mapped_to(
                    old(self).map_offset(virt as int, j),
                    phys + j * 4096,
                    perm,
                ),
            r is Ok ==> final(self).changed_only(
                *old(self),
                slot_of(old(self).map_offset(virt as int, 0)),
                slot_of(old(self).map_offset(virt as int, 0)) + page_count(len as int),
            ),
            r is Err ==> exists|k: int|
                0 <= k <= page_count(len as int) && #[trigger] final(self).changed_only(
                    *old(self),
                    slot_of(old(self).map_offset(virt as int, 0)),
                    slot_of(old(self).map_offset(virt as int, 0)) + k,
                ),
            r is Err ==> r == Err::<(), Error>(Error::OutOfRange) || r == Err::<(), Error>(
                Error::Remap,
            ) || r == Err::<(), Error>(Error::OutOfMem),
            old(self).range_mappable(virt as int, len as int) ==> r is Ok || r == Err::<(), Error>(
                Error::OutOfMem,
            ),
            final(self).keeps_mappings(*old(self)),
            r is Ok ==> old(self).range_mappable(virt as int, len as int),
            old(self).range_mappable(virt as int, len as int) ==> (r is Ok <==> can_allocate_seq(
                old(heap).curr_addr(),
                old(heap).free_blocks(),
                old(heap).end_addr(),
                l2_table_layout(),
                old(self).tables_needed(virt as int, page_count(len as int)),
            )),
            len > 0 && !(space_start(old(self).space()) <= virt < space_end(old(self).space())) ==> r
                == Err::<(), Error>(Error::OutOfRange),
            final(heap).end_addr() == old(heap).end_addr(),
            forall|i: int|
                #[trigger] old(self).first_unmappable(virt as int, len as int, i) ==> r == (if !can_allocate_seq(
                    old(heap).curr_addr(),
                    old(heap).free_blocks(),
                    old(heap).end_addr(),
                    l2_table_layout(),
                    old(self).tables_needed(virt as int, i),
                ) {
                    Err::<(), Error>(Error::OutOfMem)
                } else if space_start(old(self).space()) <= virt + i * 4096 < space_end(old(self).space()) {
                    Err::<(), Error>(Error::Remap)
                } else {
                    Err::<(), Error>(Error::OutOfRange)
                }),
            r == Err::<(), Error>(Error::Remap) ==> exists|i: int|
                #[trigger] old(self).first_unmappable(virt as int, len as int, i) && space_start(old(self).space())
                    <= virt + i * 4096 < space_end(old(self).space()),
            r == Err::<(), Error>(Error::OutOfRange) ==> exists|i: int|
                #[trigger] old(self).first_unmappable(virt as int, len as int, i) && !(space_start(
                    old(self).space(),
                ) <= virt + i * 4096 < space_end(old(self).space())),
            r is Ok ==> (final(heap).curr_addr(), final(heap).free_blocks()) == state_after_seq(
                old(heap).curr_addr(),
                old(heap).free_blocks(),
                old(heap).end_addr(),
                l2_table_layout(),
                old(self).tables_needed(virt as int, page_count(len as int)),
            ),
            r is Ok && len > 0 ==> forall|i: int|
                0 <= i < L1_ENTRY_COUNT && i > l1_index_of(old(self).map_offset(virt as int, page_count(len as int) - 1))
                    ==> #[trigger] final(self).entry(i) == old(self).entry(i),
            page_count(len as int) == 1 && old(self).range_mappable(virt as int, len as int) ==> (r is Ok
                <==> (is_table_value(old(self).entry(l1_index_of(old(self).map_offset(virt as int, 0))))
                || old(heap).can_allocate(l2_table_layout()))),
    {
        let mut virt_range = StepRange::new(virt, virt + len, PAGE_SIZE);
        let mut phys_range = StepRange::new(phys, phys + len, PAGE_SIZE);
        let ghost n = page_count(len as int);
        let ghost start = space_start(self.space());
        let ghost lo = slot_of(virt - start);
        let ghost mut k: int = 0;
        let ghost mp = old(self).range_mappable(virt as int, len as int);
        let ghost c0 = heap.curr_addr();
        let ghost f0 = heap.free_blocks();
        let ghost e0 = heap.end_addr();
        proof {
            if old(self).range_mappable(virt as int, len as int) {
                assert forall|j: int| 0 <= j < n implies #[trigger] self.is_hole(old(self).map_offset(virt as int, j)) by {
                    assert(old(self).page_mappable(virt as int, j));
                }
            }
        }
        assert(virt_range.steps_left() == n);
        assert(phys_range.steps_left() == n);
        loop
            invariant
                self.wf(),
                self.space() == old(self).space(),
                start == space_start(self.space()),
                n == page_count(len as int),
                lo == slot_of(virt - start),
                0 <= k <= n,
                k == 0 ==> *self == *old(self) && heap.curr_addr() == old(heap).curr_addr()
                    && heap.free_blocks() == old(heap).free_blocks() && heap.end_addr() == old(
                    heap,
                ).end_addr(),
                k >= 1 && n == 1 && old(self).range_mappable(virt as int, len as int) ==> (is_table_value(
                    old(self).entry(l1_index_of(old(self).map_offset(virt as int, 0))),
                ) || old(heap).can_allocate(l2_table_layout())),
                virt + len <= usize::MAX,
                phys + len <= usize::MAX,
                heap.wf(),
                heap.available_above(PHYS_TO_VIRT as int),
                forall|x: int| #[trigger] heap.available(x) ==> old(heap).available(x),
                virt_range.end == virt + len,
                virt_range.step == PAGE_SIZE,
                virt_range.steps_left() == n - k,
                n - k > 0 ==> virt_range.start == Some((virt + k * 4096) as usize),
                phys_range.end == phys + len,
                phys_range.step == PAGE_SIZE,
                phys_range.steps_left() == n - k,
                n - k > 0 ==> phys_range.start == Some((phys + k * 4096) as usize),
                k > 0 ==> virt >= start,
                forall|j: int|
                    0 <= j < k ==> #[trigger] self.page_mapped_to(
                        old(self).map_offset(virt as int, j),
                        phys + j * 4096,
                        perm,
                    ),
                forall|j: int| 0 <= j < k ==> slot_of(#[trigger] old(self).map_offset(virt as int, j)) == lo + j,
                forall|j: int| 0 <= j < k ==> #[trigger] old(self).page_fresh(virt as int, j),
                mp == old(self).range_mappable(virt as int, len as int),
                heap.end_addr() == e0,
                c0 == old(heap).curr_addr(),
                f0 == old(heap).free_blocks(),
                e0 == old(heap).end_addr(),
                (heap.curr_addr(), heap.free_blocks()) == state_after_seq(
                    c0,
                    f0,
                    e0,
                    l2_table_layout(),
                    old(self).tables_needed(virt as int, k),
                ),
                can_allocate_seq(c0, f0, e0, l2_table_layout(), old(self).tables_needed(virt as int, k)),
                forall|i: int|
                    0 <= i < L1_ENTRY_COUNT && (k == 0 || i > l1_index_of(old(self).map_offset(virt as int, k - 1)))
                        ==> #[trigger] self.entry(i) == old(self).entry(i),
                self.changed_only(*old(self), lo, lo + k),
                old(self).range_mappable(virt as int, len as int) ==> forall|j: int|
                    k <= j < n ==> #[trigger] self.is_hole(old(self).map_offset(virt as int, j)),
            ensures
                k == n,
            decreases n - k,
        {
            let v = match virt_range.next() {
                Some(v) => v,
                None => {
                    assert(k == n);
                    break;
                },
            };
            let p = match phys_range.next() {
                Some(p) => p,
                None => {
                    assert(k == n);
                    break;
                },
            };
            let off = match self.get_offset(v) {
                Ok(o) => o,
                Err(e) => {
                    assert(lo == slot_of(old(self).map_offset(virt as int, 0)));
                    assert(self.changed_only(*old(self), slot_of(old(self).map_offset(virt as int, 0)), slot_of(old(self).map_offset(virt as int, 0)) + k));
                    proof {
                        if old(self).range_mappable(virt as int, len as int) {
                            assert(old(self).page_mappable(virt as int, k));
                        }
                        self.lemma_keeps_when_holes_filled(*old(self), virt as int, lo, k);
                        old(self).lemma_fresh_prefix(virt as int, len as int, k);
                        assert(old(self).first_unmappable(virt as int, len as int, k));
                        assert forall|i: int| #[trigger] old(self).first_unmappable(virt as int, len as int, i) implies i == k by {
                            old(self).lemma_first_unmappable_unique(virt as int, len as int, i, k);
                        }
                    }
                    return Err(e);
                },
            };
            let addr = AddrParts::from(off);
            let ghost before = *self;
            let ghost a = off.0 as int;
            proof {
                assert(a == old(self).map_offset(virt as int, k));
                if k == 0 {
                    assert(virt >= start);
                }
                lemma_slot_shift(virt - start, k);
                lemma_slot_of(a);
            }
            proof {
                if old(self).range_mappable(virt as int, len as int) {
                    assert(self.is_hole(old(self).map_offset(virt as int, k)));
                }
            }
            let ghost cur_unmapped = is_unmapped_value(self.entry(l1_index_of(a)));
            let ghost heap_before = *heap;
            proof {
                if k > 0 {
                    assert(old(self).page_fresh(virt as int, k - 1));
                    let prev = old(self).map_offset(virt as int, k - 1);
                    assert(a == prev + 4096);
                    lemma_l1_next_page(prev);
                }
                if k > 0 {
                    assert(self.page_mapped_to(old(self).map_offset(virt as int, k - 1), phys + (k - 1) * 4096, perm));
                }
                self.lemma_needs_table_now(*old(self), virt as int, k, phys + (k - 1) * 4096, perm);
                assert(cur_unmapped == old(self).needs_table(virt as int, k));
            }
            let ghost first_table = is_table_value(self.entry(l1_index_of(a)));
            let ghost first_alloc = heap.can_allocate(l2_table_layout());
            proof {
                if k == 0 {
                    assert(first_alloc == old(heap).can_allocate(l2_table_layout()));
                    assert(first_table == is_table_value(old(self).entry(l1_index_of(old(self).map_offset(virt as int, 0)))));
                    if n == 1 && old(self).range_mappable(virt as int, len as int) {
                        assert(old(self).page_mappable(virt as int, 0));
                    }
                }
            }
            match self.map_once(&addr, p, perm, cachable, bufferable, heap) {
                Ok(()) => {
                    assert(first_table || first_alloc);
                },
                Err(e) => {
                    proof {
                        if cur_unmapped {
                            let m = old(self).tables_needed(virt as int, k);
                            assert(!heap_before.can_allocate(l2_table_layout()));
                            assert(old(self).tables_needed(virt as int, k + 1) == m + 1);
                            assert(!can_allocate_seq(c0, f0, e0, l2_table_layout(), m + 1));
                            lemma_slot_of(a);
                            assert(before.is_hole(a));
                            before.lemma_changed_only_hole_before(*old(self), lo, lo + k, a);
                            assert(old(self).page_mappable(virt as int, k));
                            assert forall|i: int| #[trigger] old(self).first_unmappable(virt as int, len as int, i) implies i > k
                                && !can_allocate_seq(c0, f0, e0, l2_table_layout(), old(self).tables_needed(virt as int, i)) by {
                                old(self).lemma_fail_for_table(virt as int, len as int, k, i, c0, f0, e0);
                            }
                            old(self).lemma_tables_needed_grows(virt as int, k + 1, n);
                            if can_allocate_seq(c0, f0, e0, l2_table_layout(), old(self).tables_needed(virt as int, n)) {
                                lemma_can_allocate_seq_prefix(c0, f0, e0, l2_table_layout(), m + 1, old(self).tables_needed(virt as int, n));
                            }
                        }
                        if k == 0 && n == 1 && old(self).range_mappable(virt as int, len as int) {
                            assert(old(self).page_mappable(virt as int, 0));
                            assert(!(first_table || first_alloc));
                        }
                    }
                    assert(self.changed_only(*old(self), lo, lo + k)) by {
                        assert forall|i: int| 0 <= i < L1_ENTRY_COUNT implies #[trigger] self.entry(i) == old(self).entry(i) || (
                            is_unmapped_value(old(self).entry(i)) && is_table_value(self.entry(i))) by {
                            assert(self.entry(i) == before.entry(i));
                        }
                        assert forall|u: int| 0 <= u < L2_SLOT_COUNT && !(lo <= u < lo + k) implies if is_unmapped_value(old(self).entry(u / 256))
                            && is_table_value(self.entry(u / 256)) {
                            #[trigger] self.slot(u) == 0
                        } else {
                            self.slot(u) == old(self).slot(u)
                        } by {
                            assert(self.slot(u) == before.slot(u));
                            assert(self.entry(u / 256) == before.entry(u / 256));
                        }
                    }
                    assert(lo == slot_of(old(self).map_offset(virt as int, 0)));
                    assert(self.changed_only(*old(self), slot_of(old(self).map_offset(virt as int, 0)), slot_of(old(self).map_offset(virt as int, 0)) + k));
                    proof {
                        self.lemma_keeps_when_holes_filled(*old(self), virt as int, lo, k);
                        if e == Error::Remap {
                            lemma_slot_of(a);
                            assert(!before.is_hole(a));
                            if old(self).is_hole(a) {
                                before.lemma_changed_only_keeps_hole(*old(self), lo, lo + k, a);
                            }
                            old(self).lemma_fresh_prefix(virt as int, len as int, k);
                            assert(old(self).first_unmappable(virt as int, len as int, k));
                            assert forall|i: int| #[trigger] old(self).first_unmappable(virt as int, len as int, i) implies i == k by {
                                old(self).lemma_first_unmappable_unique(virt as int, len as int, i, k);
                            }
                        }
                    }
                    return Err(e);
                },
            }
            proof {
                assert(before.is_hole(a));
                lemma_slot_of(a);
                before.lemma_changed_only_hole_before(*old(self), lo, lo + k, a);
            }
            proof {
                let t = lo + k;
                assert(slot_of(a) == t);
                let i = l1_index_of(a);
                assert(i == t / 256);
                assert forall|j: int|
                    0 <= j < k + 1 implies #[trigger] self.page_mapped_to(
                    old(self).map_offset(virt as int, j),
                    phys + j * 4096,
                    perm,
                ) by {
                    if j < k {
                        let aj = old(self).map_offset(virt as int, j);
                        assert(before.page_mapped_to(aj, phys + j * 4096, perm));
                        lemma_slot_shift(virt - start, j);
                        lemma_slot_of(aj);
                        assert(slot_of(aj) == lo + j);
                        assert(self.slot(slot_of(aj)) == before.slot(slot_of(aj)));
                        assert(self.entry(l1_index_of(aj)) == before.entry(l1_index_of(aj)));
                    }
                }
                assert forall|i2: int| 0 <= i2 < L1_ENTRY_COUNT implies #[trigger] self.entry(i2) == old(self).entry(i2) || (
                    is_unmapped_value(old(self).entry(i2)) && is_table_value(self.entry(i2))) by {
                    assert(before.entry(i2) == old(self).entry(i2) || (is_unmapped_value(old(self).entry(i2)) && is_table_value(before.entry(i2))));
                }
                assert forall|u: int| 0 <= u < L2_SLOT_COUNT && !(lo <= u < lo + k + 1) implies if is_unmapped_value(old(self).entry(u / 256))
                    && is_table_value(self.entry(u / 256)) {
                    #[trigger] self.slot(u) == 0
                } else {
                    self.slot(u) == old(self).slot(u)
                } by {
                    let row = u / 256;
                    assert(0 <= row < L1_ENTRY_COUNT);
                    assert(before.slot(u) == old(self).slot(u) || (is_unmapped_value(old(self).entry(row)) && is_table_value(before.entry(row)) && before.slot(u) == 0));
                    assert(before.entry(row) == old(self).entry(row) || (is_unmapped_value(old(self).entry(row)) && is_table_value(before.entry(row))));
                    assert(self.entry(row) == before.entry(row) || row == i);
                    if is_unmapped_value(before.entry(i)) && row == i {
                        assert(self.slot(u) == 0);
                    } else {
                        assert(self.slot(u) == before.slot(u));
                    }
                }
                if old(self).range_mappable(virt as int, len as int) {
                    assert forall|j: int| k + 1 <= j < n implies #[trigger] self.is_hole(old(self).map_offset(virt as int, j)) by {
                        let aj = old(self).map_offset(virt as int, j);
                        assert(old(self).page_mappable(virt as int, j));
                        assert(before.is_hole(aj));
                        assert(old(self).is_hole(aj));
                        lemma_slot_shift(virt - start, j);
                        lemma_slot_of(aj);
                        assert(slot_of(aj) == lo + j);
                        let ij = l1_index_of(aj);
                        assert(slot_of(aj) / 256 == ij);
                        assert(self.entry(ij) == before.entry(ij) || ij == i);
                        assert(0usize & 3 == 0) by (bit_vector);
                        if is_unmapped_value(before.entry(i)) && ij == i {
                            assert(self.slot(slot_of(aj)) == 0);
                        } else {
                            assert(self.slot(slot_of(aj)) == before.slot(slot_of(aj)));
                        }
                    }
                }
                assert forall|j: int| 0 <= j < k + 1 implies slot_of(#[trigger] old(self).map_offset(virt as int, j)) == lo + j by {
                    lemma_slot_shift(virt - start, j);
                }
            }
            proof {
                assert(old(self).map_offset(virt as int, k) == a);
                assert(old(self).page_fresh(virt as int, k));
                {
                    let m = old(self).tables_needed(virt as int, k);
                    if cur_unmapped {
                        assert(old(self).tables_needed(virt as int, k + 1) == m + 1);
                        assert(heap_before.can_allocate(l2_table_layout()));
                    } else {
                        assert(old(self).tables_needed(virt as int, k + 1) == m);
                    }
                }
                assert forall|i2: int|
                    0 <= i2 < L1_ENTRY_COUNT && i2 > l1_index_of(a) implies #[trigger] self.entry(i2) == old(self).entry(i2) by {
                    assert(self.entry(i2) == before.entry(i2));
                }
                assert forall|j: int| 0 <= j < k + 1 implies #[trigger] old(self).page_fresh(virt as int, j) by {
                    if j == k {
                        assert(old(self).page_fresh(virt as int, k));
                    }
                }
                k = k + 1;
            }
        }
        assert(lo == slot_of(old(self).map_offset(virt as int, 0)));
        proof {
            self.lemma_keeps_when_holes_filled(*old(self), virt as int, lo, k);
            assert(k == page_count(len as int));
            assert forall|j: int| 0 <= j < page_count(len as int) implies #[trigger] old(self).page_mappable(virt as int, j) by {
                assert(old(self).page_fresh(virt as int, j));
            }
            if len > 0 {
                assert(page_count(len as int) >= 1);
                assert(old(self).page_fresh(virt as int, 0));
                assert(old(self).page_mappable(virt as int, 0));
            }
        }
        Ok(())
    }

    /// The table differs from `old` only in first-level entries `lo..hi`.
    pub open spec fn entries_changed_only(&self, old: Self, lo: int, hi: int) -> bool {
        &&& self.space() == old.space()
        &&& forall|i: int| 0 <= i < L1_ENTRY_COUNT && !(lo <= i < hi) ==> #[trigger] self.entry(i) == old.entry(i)
        &&& forall|u: int| 0 <= u < L2_SLOT_COUNT ==> #[trigger] self.slot(u) == old.slot(u)
    }

    /// Offset in this table of the `j`-th section of a range that starts at virtual `virt`.
    pub open spec fn section_offset_at(&self, virt: int, j: int) -> int {
        virt + j * 0x100000 - space_start(self.space())
    }

    /// Every one of `count` sections at virtual `virt` lies in this table's address space
    /// and its first-level entry maps nothing.
    pub open spec fn sections_free(&self, virt: int, count: int) -> bool {
        forall|j: int| 0 <= j < count ==> #[trigger] self.section_free(virt, j)
    }

    /// The `j`-th section at virtual `virt` lies in this table's address space and its
    /// first-level entry maps nothing.
    pub open spec fn section_free(&self, virt: int, j: int) -> bool {
        &&& space_start(self.space()) <= virt + j * 0x100000 < space_end(self.space())
        &&& is_unmapped_value(self.entry(l1_index_of(self.section_offset_at(virt, j))))
    }

    /// Maps `section_count` sections at virtual `virt` to the sections at `phys`, with
    /// `perm`. Stops at the first section outside the address space (`OutOfRange`) or
    /// whose entry already maps something (`Remap`); the sections before it stay mapped.
    pub fn map_sections(&mut self, virt: usize, phys: usize, section_count: usize, perm: PagePerm) -> (r: Result<(), Error>)
        requires
            old(self).wf(),
            virt + section_count * 0x100000 <= usize::MAX,
            phys + section_count * 0x100000 <= usize::MAX,
        ensures
            final(self).wf(),
            final(self).space() == old(self).space(),
            r is Ok ==> forall|j: int|
                0 <= j < section_count ==> #[trigger] final(self).entry(
                    l1_index_of(old(self).section_offset_at(virt as int, j)),
                ) == section_value((phys + j * 0x100000) as usize, perm, 0),
            r is Ok ==> final(self).entries_changed_only(
                *old(self),
                l1_index_of(old(self).section_offset_at(virt as int, 0)),
                l1_index_of(old(self).section_offset_at(virt as int, 0)) + section_count,
            ),
            r is Err ==> exists|k: int|
                0 <= k <= section_count && #[trigger] final(self).entries_changed_only(
                    *old(self),
                    l1_index_of(old(self).section_offset_at(virt as int, 0)),
                    l1_index_of(old(self).section_offset_at(virt as int, 0)) + k,
                ),
            r is Err ==> r == Err::<(), Error>(Error::OutOfRange) || r == Err::<(), Error>(Error::Remap),
            old(self).sections_free(virt as int, section_count as int) ==> r is Ok,
            final(self).keeps_mappings(*old(self)),
            r is Ok ==> old(self).sections_free(virt as int, section_count as int),
            r is Ok && (virt - space_start(old(self).space())) % 0x100000 == 0 ==> forall|j: int, y: int|
                0 <= j < section_count && 0 <= y < 0x100000 ==> #[trigger] final(self).translate(
                    old(self).section_offset_at(virt as int, j) + y,
                ) == Some((((phys + j * 0x100000) as usize) & SECTION_MASK) + y),
            forall|i: int|
                0 <= i < section_count && !#[trigger] old(self).section_free(virt as int, i) && (forall|j: int|
                    0 <= j < i ==> old(self).section_free(virt as int, j)) ==> {
                    &&& r == (if space_start(old(self).space()) <= virt + i * 0x100000 < space_end(
                        old(self).space(),
                    ) {
                        Err::<(), Error>(Error::Remap)
                    } else {
                        Err::<(), Error>(Error::OutOfRange)
                    })
                    &&& final(self).entries_changed_only(
                        *old(self),
                        l1_index_of(old(self).section_offset_at(virt as int, 0)),
                        l1_index_of(old(self).section_offset_at(virt as int, 0)) + i,
                    )
                    &&& forall|j: int|
                        0 <= j < i ==> #[trigger] final(self).entry(
                            l1_index_of(old(self).section_offset_at(virt as int, j)),
                        ) == section_value((phys + j * 0x100000) as usize, perm, 0)
                },
    {
        let len = section_count * SECTION_SIZE;
        let mut virt_range = StepRange::new(virt, virt + len, SECTION_SIZE);
        let mut phys_range = StepRange::new(phys, phys + len, SECTION_SIZE);
        let ghost n = section_count as int;
        let ghost start = space_start(self.space());
        let ghost lo = l1_index_of(virt - start);
        let ghost mut k: int = 0;
        proof {
            if old(self).sections_free(virt as int, section_count as int) {
                assert forall|j: int| 0 <= j < n implies #[trigger] is_unmapped_value(self.entry(l1_index_of(old(self).section_offset_at(virt as int, j)))) by {
                    assert(old(self).section_free(virt as int, j));
                }
            }
        }
        proof {
            if n > 0 {
                assert((len + 0x100000 - 1) / 0x100000 == n);
            }
        }
        assert(virt_range.steps_left() == n);
        assert(phys_range.steps_left() == n);
        loop
            invariant
                self.wf(),
                self.space() == old(self).space(),
                start == space_start(self.space()),
                n == section_count,
                len == section_count * 0x100000,
                lo == l1_index_of(virt - start),
                0 <= k <= n,
                virt + len <= usize::MAX,
                phys + len <= usize::MAX,
                virt_range.end == virt + len,
                virt_range.step == SECTION_SIZE,
                virt_range.steps_left() == n - k,
                n - k > 0 ==> virt_range.start == Some((virt + k * 0x100000) as usize),
                phys_range.end == phys + len,
                phys_range.step == SECTION_SIZE,
                phys_range.steps_left() == n - k,
                n - k > 0 ==> phys_range.start == Some((phys + k * 0x100000) as usize),
                k > 0 ==> virt >= start,
                forall|j: int|
                    0 <= j < k ==> #[trigger] self.entry(
                        l1_index_of(old(self).section_offset_at(virt as int, j)),
                    ) == section_value((phys + j * 0x100000) as usize, perm, 0),
                forall|j: int| 0 <= j < k ==> l1_index_of(#[trigger] old(self).section_offset_at(virt as int, j)) == lo + j,
                self.entries_changed_only(*old(self), lo, lo + k),
                forall|i: int| lo <= i < lo + k ==> is_unmapped_value(#[trigger] old(self).entry(i)),
                forall|j: int| 0 <= j < k ==> #[trigger] old(self).section_free(virt as int, j),
                old(self).sections_free(virt as int, section_count as int) ==> forall|j: int| k <= j < n ==> #[trigger] is_unmapped_value(self.entry(l1_index_of(old(self).section_offset_at(virt as int, j)))),
            ensures
                k == n,
            decreases n - k,
        {
            let v = match virt_range.next() {
                Some(v) => v,
                None => break,
            };
            let p = match phys_range.next() {
                Some(p) => p,
                None => break,
            };
            let ghost free_ahead = old(self).sections_free(virt as int, section_count as int);
            let off = match self.get_offset(v) {
                Ok(o) => o,
                Err(e) => {
                    assert(lo == l1_index_of(old(self).section_offset_at(virt as int, 0)));
                    assert(self.entries_changed_only(*old(self), l1_index_of(old(self).section_offset_at(virt as int, 0)), l1_index_of(old(self).section_offset_at(virt as int, 0)) + k));
                    proof {
                        if free_ahead {
                            assert(old(self).section_free(virt as int, k));
                            assert(is_unmapped_value(old(self).entry(l1_index_of(old(self).section_offset_at(virt as int, k)))));

                        }
                        self.lemma_entries_keep(*old(self), lo, lo + k);
                        assert(!old(self).section_free(virt as int, k));
                        assert forall|i: int|
                            0 <= i < section_count && !#[trigger] old(self).section_free(virt as int, i) && (forall|j: int|
                                0 <= j < i ==> old(self).section_free(virt as int, j)) implies i == k by {
                            if i < k {
                                assert(old(self).section_free(virt as int, i));
                            }
                        }
                    }
                    return Err(e);
                },
            };
            let parts = AddrParts::from(off);
            let l1 = parts.l1_index();
            let ghost a = off.0 as int;
            proof {
                assert(a == old(self).section_offset_at(virt as int, k));
                lemma_l1_shift(virt - start, k);
                lemma_slot_of(a);
            }
            let entry = self.table.entries[l1];
            assert(entry.value == self.entry(l1 as int));
            match entry.get_type() {
                EntryKind::Unmapped => {},
                _ => {
                    assert(lo == l1_index_of(old(self).section_offset_at(virt as int, 0)));
                    assert(self.entries_changed_only(*old(self), l1_index_of(old(self).section_offset_at(virt as int, 0)), l1_index_of(old(self).section_offset_at(virt as int, 0)) + k));
                    proof {
                        if free_ahead {
                            assert(old(self).section_free(virt as int, k));
                            assert(is_unmapped_value(self.entry(l1_index_of(old(self).section_offset_at(virt as int, k)))));
                        }
                        self.lemma_entries_keep(*old(self), lo, lo + k);
                        assert(self.entry(l1 as int) == old(self).entry(l1 as int));
                        assert(!old(self).section_free(virt as int, k));
                        assert forall|i: int|
                            0 <= i < section_count && !#[trigger] old(self).section_free(virt as int, i) && (forall|j: int|
                                0 <= j < i ==> old(self).section_free(virt as int, j)) implies i == k by {
                            if i < k {
                                assert(old(self).section_free(virt as int, i));
                            }
                        }
                    }
                    return Err(Error::Remap);
                },
            }
            let mut entry = entry;
            entry.set_section(p, perm, 0);
            let ghost before = *self;
            self.table.entries.set(l1, entry);
            proof {
                assert forall|i: int| 0 <= i < L1_ENTRY_COUNT implies {
                    let v = #[trigger] self.entry(i);
                    is_unmapped_value(v) || is_table_value(v) || is_section_value(v)
                } by {
                    if i != l1 {
                        assert(self.entry(i) == before.entry(i));
                    }
                }
                assert forall|u: int| 0 <= u < L2_SLOT_COUNT implies #[trigger] self.slot(u) == old(self).slot(u) by {
                    assert(before.slot(u) == old(self).slot(u));
                }
                assert forall|i: int| 0 <= i < L1_ENTRY_COUNT && !(lo <= i < lo + k + 1) implies #[trigger] self.entry(i) == old(self).entry(i) by {
                    assert(before.entry(i) == old(self).entry(i));
                }
                assert forall|j: int|
                    0 <= j < k + 1 implies #[trigger] self.entry(
                        l1_index_of(old(self).section_offset_at(virt as int, j)),
                    ) == section_value((phys + j * 0x100000) as usize, perm, 0) by {
                    if j < k {
                        lemma_l1_shift(virt - start, j);
                        assert(before.entry(l1_index_of(old(self).section_offset_at(virt as int, j))) == section_value((phys + j * 0x100000) as usize, perm, 0));
                    }
                }
                assert forall|j: int| 0 <= j < k + 1 implies l1_index_of(#[trigger] old(self).section_offset_at(virt as int, j)) == lo + j by {
                    lemma_l1_shift(virt - start, j);
                }
                if free_ahead {
                    assert forall|j: int| k + 1 <= j < n implies #[trigger] is_unmapped_value(self.entry(l1_index_of(old(self).section_offset_at(virt as int, j)))) by {
                        assert(old(self).section_free(virt as int, j));
                        assert(is_unmapped_value(old(self).entry(l1_index_of(old(self).section_offset_at(virt as int, j)))));
                        lemma_l1_shift(virt - start, j);
                        assert(self.entry(l1_index_of(old(self).section_offset_at(virt as int, j))) == old(self).entry(l1_index_of(old(self).section_offset_at(virt as int, j))));
                    }
                }
                assert(before.entry(l1 as int) == old(self).entry(l1 as int));
                assert(old(self).section_free(virt as int, k));
                assert forall|j: int| 0 <= j < k + 1 implies #[trigger] old(self).section_free(virt as int, j) by {
                    if j < k {
                        assert(old(self).section_free(virt as int, j));
                    }
                }
                k = k + 1;
            }
        }
        assert(lo == l1_index_of(old(self).section_offset_at(virt as int, 0)));
        proof {
            self.lemma_entries_keep(*old(self), lo, lo + k);
            if (virt - start) % 0x100000 == 0 {
                assert forall|j: int, y: int| 0 <= j < section_count && 0 <= y < 0x100000 implies #[trigger] self.translate(
                    old(self).section_offset_at(virt as int, j) + y,
                ) == Some((((phys + j * 0x100000) as usize) & SECTION_MASK) + y) by {
                    let off = old(self).section_offset_at(virt as int, j);
                    assert(off == (virt - start) + j * 0x100000);
                    assert(off % 0x100000 == 0) by {
                        vstd::arithmetic::div_mod::lemma_mod_multiples_vanish(j, virt - start, 0x100000);
                        assert(off == 0x100000 * j + (virt - start));
                    }
                    self.law_section_bytes_translate(off, (phys + j * 0x100000) as usize, perm, y);
                }
            }
        }
        Ok(())
    }

    /// Every byte of a section translates to the same byte of the physical section its
    /// entry points at: offset `x` into the section at offset `off` goes to offset `x`
    /// into the physical section.
    pub proof fn law_section_bytes_translate(&self, off: int, phys: usize, perm: PagePerm, x: int)
        requires
            0 <= off,
            off % 0x100000 == 0,
            0 <= x < 0x100000,
            self.entry(l1_index_of(off)) == section_value(phys, perm, 0),
        ensures
            self.translate(off + x) == Some(((phys & SECTION_MASK) + x) as int),
    {
        crate::mmu::entry::lemma_section_value(phys, perm, 0);
        crate::mmu::entry::law_section_entry_fields(phys, perm, 0);
        vstd::arithmetic::div_mod::lemma_fundamental_div_mod(off, 0x100000);
        let q = off / 0x100000;
        assert(off == 0x100000 * q);
        vstd::arithmetic::div_mod::lemma_fundamental_div_mod_converse(off + x, 0x100000, q, x);
        assert(l1_index_of(off + x) == l1_index_of(off));
        assert((off + x) % 0x100000 == x);
    }

    /// Points the first-level entry of the section that holds virtual `virt` at the
    /// section at `phys`, for the kernel only, whatever the entry held before. Nothing
    /// else changes.
    pub fn replace_section(&mut self, virt: usize, phys: usize)
        requires
            old(self).wf(),
            space_start(old(self).space()) <= virt < space_end(old(self).space()),
        ensures
            final(self).wf(),
            final(self).entry(l1_index_of(virt - space_start(old(self).space()))) == section_value(
                phys,
                PagePerm::KernOnly,
                0,
            ),
            final(self).entries_changed_only(
                *old(self),
                l1_index_of(virt - space_start(old(self).space())),
                l1_index_of(virt - space_start(old(self).space())) + 1,
            ),
    {
        let off = match self.get_offset(virt) {
            Ok(o) => o,
            Err(_) => return,
        };
        let parts = AddrParts::from(off);
        proof {
            lemma_slot_of(off.0 as int);
        }
        let l1 = parts.l1_index();
        let mut entry = self.table.entries[l1];
        entry.unmap();
        entry.set_section(phys, PagePerm::KernOnly, 0);
        let ghost before = *self;
        self.table.entries.set(l1, entry);
        proof {
            assert forall|i: int| 0 <= i < L1_ENTRY_COUNT implies {
                let v = #[trigger] self.entry(i);
                is_unmapped_value(v) || is_table_value(v) || is_section_value(v)
            } by {
                if i != l1 {
                    assert(self.entry(i) == before.entry(i));
                }
            }
            assert forall|i: int| 0 <= i < L1_ENTRY_COUNT && !(l1 <= i < l1 + 1) implies #[trigger] self.entry(i)
                == old(self).entry(i) by {
                assert(self.entry(i) == before.entry(i));
            }
            assert forall|u: int| 0 <= u < L2_SLOT_COUNT implies #[trigger] self.slot(u) == old(self).slot(u) by {
                assert(self.slot(u) == before.slot(u));
            }
        }
    }

    /// Where a search for a hole that starts at offset `a` stops: it steps a page at a
    /// time through second-level tables and a section at a time over sections, and
    /// gives up at the end of the address space.
    pub open spec fn hole_scan(&self, a: int) -> Option<int>
        decreases ADDRESS_SPACE_SIZE - a,
    {
        if a < 0 || a >= ADDRESS_SPACE_SIZE {
            None
        } else {
            let v = self.entry(l1_index_of(a));
            if is_unmapped_value(v) {
                Some(a)
            } else if is_table_value(v) {
                if l2_type_of(self.slot(slot_of(a))) == L2EntryType::Unmapped {
                    Some(a)
                } else if a + 0x1000 >= ADDRESS_SPACE_SIZE {
                    None
                } else {
                    self.hole_scan(a + 0x1000)
                }
            } else if a + 0x100000 >= ADDRESS_SPACE_SIZE {
                None
            } else {
                self.hole_scan(a + 0x100000)
            }
        }
    }

    /// Where a search for mapped memory that starts at offset `start` and is now at `a`
    /// stops: at the first mapped page or section, at the first first-level boundary (or,
    /// over an empty first-level entry, the first page) more than `limit` bytes past
    /// `start`, or nowhere at the end of the address space.
    pub open spec fn mapped_scan(&self, start: int, a: int, limit: int) -> Option<int>
        decreases ADDRESS_SPACE_SIZE - a,
    {
        if a < 0 || a >= ADDRESS_SPACE_SIZE {
            None
        } else {
            let v = self.entry(l1_index_of(a));
            let n = a + 0x1000;
            if is_unmapped_value(v) {
                if n >= ADDRESS_SPACE_SIZE {
                    None
                } else if n - start > limit {
                    Some(n)
                } else {
                    self.mapped_scan(start, n, limit)
                }
            } else if is_table_value(v) {
                if l2_type_of(self.slot(slot_of(a))) != L2EntryType::Unmapped {
                    Some(a)
                } else if n >= ADDRESS_SPACE_SIZE {
                    None
                } else if l2_index_of(n) != 0 || n - start <= limit {
                    self.mapped_scan(start, n, limit)
                } else {
                    Some(n)
                }
            } else {
                Some(a)
            }
        }
    }

    /// Finds the first hole at or after offset `offset` rounded down to a page:
    /// `OutOfRange` when the search leaves the address space.
    pub fn seek_hole(&self, offset: Offset) -> (r: Result<Offset, Error>)
        requires
            self.wf(),
            offset.0 < ADDRESS_SPACE_SIZE,
        ensures
            r == match self.hole_scan(crate::num::align_down_usize(offset.0, PAGE_SIZE) as int) {
                Some(o) => Ok::<Offset, Error>(Offset(o as usize)),
                None => Err::<Offset, Error>(Error::OutOfRange),
            },
            r matches Ok(h) ==> {
                let start = crate::num::align_down_usize(offset.0, PAGE_SIZE) as int;
                &&& start <= h.0 < ADDRESS_SPACE_SIZE
                &&& (h.0 - start) % 0x1000 == 0
                &&& self.is_hole(h.0 as int)
            },
    {
        let aligned = crate::num::AlignDown::align_down(offset.0, PAGE_SIZE);
        assert(aligned == crate::num::align_down_usize(offset.0, PAGE_SIZE));
        proof {
            self.lemma_hole_scan(aligned as int);
        }
        let mut parts = AddrParts::from(Offset(aligned));
        let ghost target = self.hole_scan(aligned as int);
        loop
            invariant
                self.wf(),
                parts.addr_spec() < ADDRESS_SPACE_SIZE,
                self.hole_scan(parts.addr_spec() as int) == target,
                target == self.hole_scan(crate::num::align_down_usize(offset.0, PAGE_SIZE) as int),
                aligned == crate::num::align_down_usize(offset.0, PAGE_SIZE),
                target matches Some(h) ==> aligned <= h < ADDRESS_SPACE_SIZE && (h - aligned) % 0x1000 == 0
                    && self.is_hole(h),
            decreases ADDRESS_SPACE_SIZE - parts.addr_spec(),
        {
            let ghost a = parts.addr_spec() as int;
            proof {
                lemma_slot_of(a);
            }
            let l1 = parts.l1_index();
            let entry = self.table.entries[l1];
            assert(entry.value == self.entry(l1 as int));
            match entry.get_type() {
                EntryKind::Unmapped => {
                    return Ok(Offset(parts.addr()));
                },
                EntryKind::Section(_) => {
                    match parts.try_add(SECTION_SIZE) {
                        Ok(()) => {},
                        Err(e) => return Err(e),
                    }
                },
                EntryKind::SeconLevelTable(_) => {
                    let t = l1 * L2_ENTRY_COUNT + parts.l2_index();
                    let l2_entry = self.table.l2[t];
                    assert(l2_entry.value == self.slot(t as int));
                    if l2_entry.get_type() != L2EntryType::Unmapped {
                        match parts.try_add(PAGE_SIZE) {
                            Ok(()) => {},
                            Err(e) => return Err(e),
                        }
                    } else {
                        return Ok(Offset(parts.addr()));
                    }
                },
                EntryKind::SuperSection => {
                    return Err(Error::OutOfRange);
                },
            }
        }
    }

    /// Finds the end of the hole that starts at offset `offset`: the first mapped page or
    /// section, or the first position more than `limit` bytes on where the search checks
    /// its distance; `None` when the search leaves the address space.
    pub fn seek_mapped(&self, offset: Offset, limit: usize) -> (r: Option<Offset>)
        requires
            self.wf(),
            offset.0 < ADDRESS_SPACE_SIZE,
        ensures
            r == match self.mapped_scan(offset.0 as int, offset.0 as int, limit as int) {
                Some(o) => Some(Offset(o as usize)),
                None => None::<Offset>,
            },
            r matches Some(e) ==> {
                &&& offset.0 <= e.0 < ADDRESS_SPACE_SIZE
                &&& (e.0 - offset.0) % 0x1000 == 0
                &&& e.0 > offset.0 + limit || !self.is_hole(e.0 as int)
            },
            forall|p: int|
                offset.0 <= p && (p - offset.0) % 0x1000 == 0 && (match r {
                    Some(e) => p < e.0,
                    None => p < ADDRESS_SPACE_SIZE,
                }) ==> #[trigger] self.is_hole(p),
    {
        proof {
            self.lemma_mapped_scan(offset.0 as int, offset.0 as int, limit as int);
            self.lemma_mapped_scan_stop(offset.0 as int, offset.0 as int, limit as int);
        }
        let mut parts = AddrParts::from(offset);
        let ghost target = self.mapped_scan(offset.0 as int, offset.0 as int, limit as int);
        loop
            invariant
                self.wf(),
                offset.0 <= parts.addr_spec() < ADDRESS_SPACE_SIZE,
                self.mapped_scan(offset.0 as int, parts.addr_spec() as int, limit as int) == target,
                target == self.mapped_scan(offset.0 as int, offset.0 as int, limit as int),
                target matches Some(e) ==> offset.0 <= e < ADDRESS_SPACE_SIZE && (e - offset.0) % 0x1000 == 0
                    && (e > offset.0 + limit || !self.is_hole(e)),
                forall|p: int|
                    offset.0 <= p && (p - offset.0) % 0x1000 == 0 && (match target {
                        Some(e) => p < e,
                        None => p < ADDRESS_SPACE_SIZE,
                    }) ==> #[trigger] self.is_hole(p),
            decreases ADDRESS_SPACE_SIZE - parts.addr_spec(),
        {
            let ghost a = parts.addr_spec() as int;
            proof {
                lemma_slot_of(a);
                lemma_slot_of_next(a);
            }
            let l1 = parts.l1_index();
            let entry = self.table.entries[l1];
            assert(entry.value == self.entry(l1 as int));
            match entry.get_type() {
                EntryKind::Unmapped => {
                    if parts.try_add(PAGE_SIZE).is_err() {
                        return None;
                    }
                },
                EntryKind::SuperSection | EntryKind::Section(_) => {
                    return Some(Offset(parts.addr()));
                },
                EntryKind::SeconLevelTable(_) => {
                    let t = l1 * L2_ENTRY_COUNT + parts.l2_index();
                    let l2_entry = self.table.l2[t];
                    assert(l2_entry.value == self.slot(t as int));
                    if l2_entry.get_type() != L2EntryType::Unmapped {
                        return Some(Offset(parts.addr()));
                    }
                    if parts.try_add(PAGE_SIZE).is_err() {
                        return None;
                    }
                    if parts.l2_index() != 0 {
                        continue;
                    }
                },
            }
            if parts.addr() - offset.0 > limit {
                return Some(Offset(parts.addr()));
            }
        }
    }

    /// Where the search for a hole of at least `size` bytes plus a guard page, started at
    /// offset `s`, ends: the first hole found whose extent, up to the next mapped memory
    /// or the search's stopping point, exceeds `size` plus a page and that is not at
    /// offset zero; `OutOfRange` when no hole is left, `OutOfMem` when the memory after
    /// the last hole runs to the end of the address space.
    pub open spec fn find_scan(&self, s: int, size: int) -> Result<int, Error>
        decreases ADDRESS_SPACE_SIZE - s,
    {
        if s < 0 || s >= ADDRESS_SPACE_SIZE {
            Err(Error::OutOfRange)
        } else {
            match self.hole_scan(s - s % 0x1000) {
                None => Err(Error::OutOfRange),
                Some(h) => {
                    let end = self.mapped_scan(h, h, size + 0x1000);
                    let hole_size = match end {
                        Some(e) => e - h,
                        None => ADDRESS_SPACE_SIZE - h,
                    };
                    if hole_size > size + 0x1000 && h != 0 {
                        Ok(h)
                    } else {
                        match end {
                            None => Err(Error::OutOfMem),
                            Some(e) => if e <= s || e >= ADDRESS_SPACE_SIZE {
                                Err(Error::OutOfMem)
                            } else {
                                self.find_scan(e, size)
                            },
                        }
                    }
                },
            }
        }
    }

    /// A hole that the search finds lies inside the address space, past its first page;
    /// a failed search ends in `OutOfMem` or `OutOfRange`.
    pub proof fn lemma_find_scan_range(&self, s: int, size: int)
        ensures
            self.find_scan(s, size) matches Ok(h) ==> 0 < h < ADDRESS_SPACE_SIZE,
            self.find_scan(s, size) matches Err(e) ==> e == Error::OutOfMem || e == Error::OutOfRange,
        decreases ADDRESS_SPACE_SIZE - s,
    {
        if 0 <= s < ADDRESS_SPACE_SIZE {
            let a = s - s % 0x1000;
            self.lemma_hole_scan(a);
            if let Some(h) = self.hole_scan(a) {
                if let Some(e) = self.mapped_scan(h, h, size + 0x1000) {
                    if s < e < ADDRESS_SPACE_SIZE {
                        self.lemma_find_scan_range(e, size);
                    }
                }
            }
        }
    }

    /// Where a hole search stops is a hole, at or after the start, a whole number of
    /// pages on.
    pub proof fn lemma_hole_scan(&self, a: int)
        ensures
            self.hole_scan(a) matches Some(h) ==> a <= h < ADDRESS_SPACE_SIZE && (h - a) % 0x1000
                == 0 && self.is_hole(h),
        decreases ADDRESS_SPACE_SIZE - a,
    {
        if 0 <= a < ADDRESS_SPACE_SIZE {
            let v = self.entry(l1_index_of(a));
            if is_unmapped_value(v) {
            } else if is_table_value(v) {
                if l2_type_of(self.slot(slot_of(a))) != L2EntryType::Unmapped && a + 0x1000
                    < ADDRESS_SPACE_SIZE {
                    self.lemma_hole_scan(a + 0x1000);
                    if let Some(h) = self.hole_scan(a) {
                        vstd::arithmetic::div_mod::lemma_mod_sub_multiples_vanish(h - a, 0x1000);
                    }
                }
            } else if a + 0x100000 < ADDRESS_SPACE_SIZE {
                self.lemma_hole_scan(a + 0x100000);
                if let Some(h) = self.hole_scan(a) {
                    assert((h - a) == (h - (a + 0x100000)) + 0x1000 * 256);
                    vstd::arithmetic::div_mod::lemma_mod_multiples_vanish(256, h - (a + 0x100000), 0x1000);
                }
            }
        }
    }

    /// The pages a search for mapped memory walks over are holes; it moves on from a hole,
    /// and stops a whole number of pages on.
    pub proof fn lemma_mapped_scan(&self, st: int, a: int, limit: int)
        requires
            0 <= a < ADDRESS_SPACE_SIZE,
        ensures
            self.mapped_scan(st, a, limit) matches Some(e) ==> a <= e < ADDRESS_SPACE_SIZE && (e - a)
                % 0x1000 == 0 && (self.is_hole(a) ==> a < e),
            forall|p: int|
                a <= p && (p - a) % 0x1000 == 0 && (match self.mapped_scan(st, a, limit) {
                    Some(e) => p < e,
                    None => p < ADDRESS_SPACE_SIZE,
                }) ==> #[trigger] self.is_hole(p),
        decreases ADDRESS_SPACE_SIZE - a,
    {
        let v = self.entry(l1_index_of(a));
        let n = a + 0x1000;
        let recurse = if is_unmapped_value(v) {
            n < ADDRESS_SPACE_SIZE && n - st <= limit
        } else if is_table_value(v) {
            l2_type_of(self.slot(slot_of(a))) == L2EntryType::Unmapped && n < ADDRESS_SPACE_SIZE && (
            l2_index_of(n) != 0 || n - st <= limit)
        } else {
            false
        };
        if recurse {
            self.lemma_mapped_scan(st, n, limit);
            assert(self.mapped_scan(st, a, limit) == self.mapped_scan(st, n, limit));
            assert forall|p: int|
                a <= p && (p - a) % 0x1000 == 0 && (match self.mapped_scan(st, a, limit) {
                    Some(e) => p < e,
                    None => p < ADDRESS_SPACE_SIZE,
                }) implies #[trigger] self.is_hole(p) by {
                if p > a {
                    vstd::arithmetic::div_mod::lemma_mod_sub_multiples_vanish(p - a, 0x1000);
                    assert((p - n) % 0x1000 == 0);
                }
            }
            if let Some(e) = self.mapped_scan(st, a, limit) {
                vstd::arithmetic::div_mod::lemma_mod_sub_multiples_vanish(e - a, 0x1000);
            }
        } else {
            assert forall|p: int|
                a <= p && (p - a) % 0x1000 == 0 && (match self.mapped_scan(st, a, limit) {
                    Some(e) => p < e,
                    None => p < ADDRESS_SPACE_SIZE,
                }) implies #[trigger] self.is_hole(p) by {
                if p > a {
                    vstd::arithmetic::div_mod::lemma_mod_sub_multiples_vanish(p - a, 0x1000);
                    assert(p >= n);
                }
            }
            vstd::arithmetic::div_mod::lemma_mod_self_0(0x1000);
        }
    }

    /// Finds a hole of more than `size` bytes plus a guard page that is not at offset
    /// zero. `OutOfRange` when the search for a hole leaves the address space, `OutOfMem`
    /// when the last hole runs to the end of the address space without being big enough.
    pub fn find_hole(&self, size: usize) -> (r: Result<Offset, Error>)
        requires
            self.wf(),
            size + 0x1000 <= usize::MAX,
        ensures
            r == match self.find_scan(0, size as int) {
                Ok(h) => Ok::<Offset, Error>(Offset(h as usize)),
                Err(e) => Err::<Offset, Error>(e),
            },
            r matches Ok(h) ==> self.hole_fits(h.0 as int, size as int),
            r matches Ok(h) ==> self.find_scan(0, size as int) == Ok::<int, Error>(h.0 as int),
    {
        let mut start = Offset(0);
        let ghost target = self.find_scan(0, size as int);
        assert(0usize % 0x1000 == 0);
        loop
            invariant
                self.wf(),
                size + 0x1000 <= usize::MAX,
                start.0 < ADDRESS_SPACE_SIZE,
                start.0 % 0x1000 == 0,
                self.find_scan(start.0 as int, size as int) == target,
                target == self.find_scan(0, size as int),
            decreases ADDRESS_SPACE_SIZE - start.0,
        {
            let ghost s = start.0 as int;
            proof {
                vstd::arithmetic::div_mod::lemma_small_mod(0, 0x1000);
                assert(crate::num::align_down_usize(start.0, PAGE_SIZE) == start.0);
                self.lemma_hole_scan(s);
            }
            start = match self.seek_hole(start) {
                Ok(h) => h,
                Err(e) => return Err(e),
            };
            let ghost h = start.0 as int;
            proof {
                self.lemma_mapped_scan(h, h, size + 0x1000);
                vstd::arithmetic::div_mod::lemma_mod_adds(h - s, s, 0x1000);
            }
            let end = self.seek_mapped(start, size + PAGE_SIZE);
            let hole_size = match end {
                Some(end) => end.sub(start),
                None => ADDRESS_SPACE_SIZE - start.0,
            };
            if hole_size > size + PAGE_SIZE && start.0 != 0 {
                proof {
                    self.lemma_find_fits(h, size as int);
                }
                return Ok(start);
            } else {
                match end {
                    Some(e) => {
                        proof {
                            vstd::arithmetic::div_mod::lemma_mod_adds(e.0 - h, h, 0x1000);
                        }
                        start = e;
                    },
                    None => return Err(Error::OutOfMem),
                }
            }
        }
    }

    /// The hole at offset `h` is followed by holes for more than `size` bytes plus a page:
    /// every page from `h` up to and including `h + size + PAGE_SIZE` is a hole.
    pub open spec fn hole_fits(&self, h: int, size: int) -> bool {
        &&& 0 < h < ADDRESS_SPACE_SIZE
        &&& h % 0x1000 == 0
        &&& h + size + 0x1000 < ADDRESS_SPACE_SIZE
        &&& forall|p: int|
            h <= p <= h + size + 0x1000 && (p - h) % 0x1000 == 0 ==> #[trigger] self.is_hole(p)
    }

    /// A search for mapped memory stops at a page that is no hole, or more than `limit`
    /// bytes past its start.
    pub proof fn lemma_mapped_scan_stop(&self, start: int, a: int, limit: int)
        requires
            0 <= a,
        ensures
            self.mapped_scan(start, a, limit) matches Some(e) ==> e - start > limit || !self.is_hole(e),
        decreases ADDRESS_SPACE_SIZE - a,
    {
        if a < ADDRESS_SPACE_SIZE && a + 0x1000 < ADDRESS_SPACE_SIZE {
            self.lemma_mapped_scan_stop(start, a + 0x1000, limit);
        }
    }

    /// A search for mapped memory that starts over holes, page after page up to `limit`
    /// bytes past its start, stops only beyond that.
    pub proof fn lemma_mapped_scan_past(&self, start: int, a: int, limit: int)
        requires
            0 <= a,
            forall|p: int| a <= p <= start + limit && (p - a) % 0x1000 == 0 ==> #[trigger] self.is_hole(p),
        ensures
            self.mapped_scan(start, a, limit) matches Some(e) ==> e > start + limit,
        decreases ADDRESS_SPACE_SIZE - a,
    {
        if a < ADDRESS_SPACE_SIZE {
            let v = self.entry(l1_index_of(a));
            let n = a + 0x1000;
            if a <= start + limit {
                assert(self.is_hole(a));
            }
            assert forall|p: int| n <= p <= start + limit && (p - n) % 0x1000 == 0 implies #[trigger] self.is_hole(p) by {
                vstd::arithmetic::div_mod::lemma_mod_add_multiples_vanish(p - n, 0x1000);
                assert(p - a == (p - n) + 0x1000);
            }
            if n < ADDRESS_SPACE_SIZE {
                self.lemma_mapped_scan_past(start, n, limit);
            }
        }
    }

    /// In a table that maps nothing, a search for room for one page and its guard page
    /// finds the hole at offset `0x3000`: the first page is never handed out.
    pub proof fn lemma_find_scan_empty(&self)
        requires
            forall|i: int| 0 <= i < L1_ENTRY_COUNT ==> #[trigger] self.entry(i) == 0,
        ensures
            self.find_scan(0, 0x1000) == Ok::<int, Error>(0x3000),
    {
        assert(0usize & 3 == 0) by (bit_vector);
        assert(self.entry(0) == 0);
        assert(self.hole_scan(0) == Some(0int));
        assert(self.mapped_scan(0, 0x2000, 0x2000) == Some(0x3000int));
        assert(self.mapped_scan(0, 0x1000, 0x2000) == Some(0x3000int));
        assert(self.mapped_scan(0, 0, 0x2000) == Some(0x3000int));
        assert(self.hole_scan(0x3000) == Some(0x3000int));
        assert(self.mapped_scan(0x3000, 0x5000, 0x2000) == Some(0x6000int));
        assert(self.mapped_scan(0x3000, 0x4000, 0x2000) == Some(0x6000int));
        assert(self.mapped_scan(0x3000, 0x3000, 0x2000) == Some(0x6000int));
        assert(0x3000int % 0x1000 == 0);
        assert(self.find_scan(0x3000, 0x1000) == Ok::<int, Error>(0x3000));
    }

    /// In a table whose first second-level table maps the page at `0x3000` and not the
    /// pages before it or the three after it, a search for room for one page and its
    /// guard page finds the hole at offset `0x4000`.
    pub proof fn lemma_find_scan_after_first(&self)
        requires
            is_table_value(self.entry(0)),
            l2_type_of(self.slot(3)) != L2EntryType::Unmapped,
            forall|u: int| 0 <= u < 7 && u != 3 ==> l2_type_of(#[trigger] self.slot(u)) == L2EntryType::Unmapped,
        ensures
            self.find_scan(0, 0x1000) == Ok::<int, Error>(0x4000),
    {
        assert(l2_type_of(self.slot(0)) == L2EntryType::Unmapped);
        assert(l2_type_of(self.slot(1)) == L2EntryType::Unmapped);
        assert(l2_type_of(self.slot(2)) == L2EntryType::Unmapped);
        assert(l2_type_of(self.slot(4)) == L2EntryType::Unmapped);
        assert(l2_type_of(self.slot(5)) == L2EntryType::Unmapped);
        assert(l2_type_of(self.slot(6)) == L2EntryType::Unmapped);
        assert(self.hole_scan(0) == Some(0int));
        assert(l2_index_of(0x3000) == 3);
        assert(self.mapped_scan(0, 0x3000, 0x2000) == Some(0x3000int));
        assert(self.mapped_scan(0, 0x2000, 0x2000) == Some(0x3000int));
        assert(self.mapped_scan(0, 0x1000, 0x2000) == Some(0x3000int));
        assert(self.mapped_scan(0, 0, 0x2000) == Some(0x3000int));
        assert(self.hole_scan(0x4000) == Some(0x4000int));
        assert(self.hole_scan(0x3000) == Some(0x4000int));
        assert forall|p: int| 0x4000 <= p <= 0x4000 + 0x2000 && (p - 0x4000) % 0x1000 == 0 implies #[trigger] self.is_hole(p) by {
            assert(p == 0x4000 || p == 0x5000 || p == 0x6000);
        }
        self.lemma_mapped_scan_past(0x4000, 0x4000, 0x2000);
        assert(0x3000int % 0x1000 == 0);
        assert(self.find_scan(0x3000, 0x1000) == Ok::<int, Error>(0x4000));
    }

    proof fn lemma_find_fits(&self, h: int, size: int)
        requires
            0 < h < ADDRESS_SPACE_SIZE,
            h % 0x1000 == 0,
            size >= 0,
            (match self.mapped_scan(h, h, size + 0x1000) {
                Some(e) => e - h,
                None => ADDRESS_SPACE_SIZE - h,
            }) > size + 0x1000,
        ensures
            self.hole_fits(h, size),
    {
        self.lemma_mapped_scan(h, h, size + 0x1000);
        assert forall|p: int|
            h <= p <= h + size + 0x1000 && (p - h) % 0x1000 == 0 implies #[trigger] self.is_hole(p) by {
            assert(match self.mapped_scan(h, h, size + 0x1000) {
                Some(e) => p < e,
                None => p < ADDRESS_SPACE_SIZE,
            });
        }
    }

    /// The physical address that offset `a` translates to, if any: through a section, or
    /// through a second-level entry at the address bits its type selects.
    pub open spec fn translate(&self, a: int) -> Option<int> {
        let v = self.entry(l1_index_of(a));
        if is_table_value(v) {
            match l2_phys_of(self.slot(slot_of(a))) {
                Some(p) => Some(p + page_offset_of(a)),
                None => None,
            }
        } else if is_section_value(v) {
            Some((v & SECTION_MASK) + a % 0x100000)
        } else {
            None
        }
    }

    /// The physical address that virtual address `virt` translates to in this table;
    /// `None` when the table does not accept the address or the address is not mapped.
    pub fn virt_to_phys(&self, virt: usize) -> (r: Option<usize>)
        requires
            self.wf(),
            space_end(self.space()) <= usize::MAX,
        ensures
            !(space_start(self.space()) <= virt < space_end(self.space())) ==> r.is_none(),
            space_start(self.space()) <= virt < space_end(self.space()) ==> r == match self.translate(
                virt - space_start(self.space()),
            ) {
                Some(p) => Some(p as usize),
                None => None::<usize>,
            },
    {
        let offset = match self.get_offset(virt) {
            Ok(o) => o,
            Err(_) => return None,
        };
        let parts = AddrParts::from(offset);
        let ghost a = offset.0 as int;
        proof {
            lemma_slot_of(a);
        }
        let l1 = parts.l1_index();
        let entry = self.table.entries[l1];
        assert(entry.value == self.entry(l1 as int));
        match entry.get_type() {
            EntryKind::Unmapped => None,
            EntryKind::Section(section) => {
                proof {
                    let v = entry.value;
                    assert(v & 0xfff00000 <= 0xfff00000) by (bit_vector);
                }
                Some(section.addr() + parts.section_offset())
            },
            EntryKind::SeconLevelTable(_) => {
                let t = l1 * L2_ENTRY_COUNT + parts.l2_index();
                let l2_entry = self.table.l2[t];
                assert(l2_entry.value == self.slot(t as int));
                match l2_entry.get_phys() {
                    Some(addr) => {
                        proof {
                            let v = l2_entry.value;
                            assert(v & 0xfffff000 <= 0xfffff000) by (bit_vector);
                            assert(v & 0xffff0000 <= 0xffff0000) by (bit_vector);
                        }
                        Some(addr + parts.page_offset())
                    },
                    None => None,
                }
            },
            EntryKind::SuperSection => None,
        }
    }

    /// Maps the pages holding a device's `size_of::<T>()` bytes at `device` into the first
    /// hole of the table, for the kernel only, and gives the virtual address of the
    /// device. Fails as `seek_hole` and `map` do.
    pub fn map_device<T>(&mut self, device: Phys<T>, heap: &mut KernAlloctor) -> (r: Result<
        usize,
        Error,
    >)
        requires
            old(self).wf(),
            device.addr + vstd::layout::size_of::<T>() + 0x2000 <= usize::MAX,
            old(self).hole_scan(0) matches Some(h) ==> space_start(old(self).space()) + h
                + device_span(device.addr as int, vstd::layout::size_of::<T>() as int) <= usize::MAX,
            old(self).hole_scan(0) matches Some(h) ==> space_start(old(self).space()) + h
                + device.addr % 0x1000 != 0,
            old(heap).wf(),
            old(heap).available_above(PHYS_TO_VIRT as int),
        ensures
            final(self).keeps_mappings(*old(self)),
            final(self).wf(),
            final(self).space() == old(self).space(),
            final(heap).wf(),
            final(heap).available_above(PHYS_TO_VIRT as int),
            forall|x: int| #[trigger] final(heap).available(x) ==> old(heap).available(x),
            old(self).hole_scan(0) is None ==> r == Err::<usize, Error>(Error::OutOfRange),
            r is Ok ==> old(self).hole_scan(0) is Some,
            old(self).hole_scan(0) matches Some(h) ==> {
                let virt = space_start(old(self).space()) + h;
                let size = device_span(device.addr as int, vstd::layout::size_of::<T>() as int);
                &&& r is Ok ==> r == Ok::<usize, Error>((virt + device.addr % 0x1000) as usize)
                &&& r is Ok ==> forall|j: int|
                    0 <= j < page_count(size) ==> #[trigger] final(self).page_mapped_to(
                        old(self).map_offset(virt, j),
                        device.addr + j * 4096,
                        PagePerm::KernOnly,
                    )
                &&& old(self).range_mappable(virt, size) ==> r is Ok || r == Err::<usize, Error>(
                    Error::OutOfMem,
                )
                &&& r is Ok <==> old(self).range_mappable(virt, size) && can_allocate_seq(
                    old(heap).curr_addr(),
                    old(heap).free_blocks(),
                    old(heap).end_addr(),
                    l2_table_layout(),
                    old(self).tables_needed(virt, page_count(size)),
                )
                &&& forall|i: int|
                    #[trigger] old(self).first_unmappable(virt, size, i) ==> r == (if !can_allocate_seq(
                        old(heap).curr_addr(),
                        old(heap).free_blocks(),
                        old(heap).end_addr(),
                        l2_table_layout(),
                        old(self).tables_needed(virt, i),
                    ) {
                        Err::<usize, Error>(Error::OutOfMem)
                    } else if space_start(old(self).space()) <= virt + i * 4096 < space_end(old(self).space()) {
                        Err::<usize, Error>(Error::Remap)
                    } else {
                        Err::<usize, Error>(Error::OutOfRange)
                    })
                &&& r == Err::<usize, Error>(Error::Remap) ==> exists|i: int|
                    #[trigger] old(self).first_unmappable(virt, size, i) && space_start(old(self).space())
                        <= virt + i * 4096 < space_end(old(self).space())
                &&& r is Err ==> exists|k: int|
                    0 <= k <= page_count(size) && #[trigger] final(self).changed_only(
                        *old(self),
                        slot_of(h),
                        slot_of(h) + k,
                    )
            },
            r is Err ==> r == Err::<usize, Error>(Error::OutOfRange) || r == Err::<usize, Error>(
                Error::Remap,
            ) || r == Err::<usize, Error>(Error::OutOfMem),
    {
        let start = crate::num::AlignDown::align_down(device.addr(), PAGE_SIZE);
        let offset = device.addr() - start;
        let size_of_t = core::mem::size_of::<T>();
        let end = crate::num::AlignUp::align_up(device.addr() + size_of_t, PAGE_SIZE);
        proof {
            crate::num::lemma_align_up_bounds((device.addr + size_of_t) as usize, PAGE_SIZE);
            assert(device.addr % 4096 <= device.addr) by (nonlinear_arith);
        }
        let size = end - start;
        assert(size == device_span(device.addr as int, size_of_t as int));
        let hole = match self.seek_hole(Offset(0)) {
            Ok(h) => h,
            Err(e) => return Err(e),
        };
        proof {
            vstd::arithmetic::div_mod::lemma_small_mod(0, 4096);
            self.lemma_hole_scan(0);
        }
        let candidate = self.offset_to_virt(hole);
        match self.map(candidate, device.addr(), size, PagePerm::KernOnly, false, true, heap) {
            Ok(()) => {},
            Err(e) => return Err(e),
        }
        Ok(candidate + offset)
    }

    /// The page at offset `a` has the same first-level entry and second-level slot in
    /// this table as in `old`.
    pub open spec fn page_kept(&self, old: Self, a: int) -> bool {
        &&& self.entry(l1_index_of(a)) == old.entry(l1_index_of(a))
        &&& self.slot(slot_of(a)) == old.slot(slot_of(a))
    }

    /// Every page that `old` maps (that is no hole there) is mapped here the same way.
    pub open spec fn keeps_mappings(&self, old: Self) -> bool {
        forall|a: int| 0 <= a < ADDRESS_SPACE_SIZE && !old.is_hole(a) ==> #[trigger] self.page_kept(old, a)
    }

    /// A hole whose slot lies outside the changed slots was a hole before the change.
    pub proof fn lemma_changed_only_hole_before(&self, old: Self, lo: int, hi: int, a: int)
        requires
            self.changed_only(old, lo, hi),
            self.is_hole(a),
            0 <= a < ADDRESS_SPACE_SIZE,
            !(lo <= slot_of(a) < hi),
        ensures
            old.is_hole(a),
    {
        lemma_slot_of(a);
        let i = l1_index_of(a);
        assert(self.entry(i) == old.entry(i) || (is_unmapped_value(old.entry(i)) && is_table_value(
            self.entry(i),
        )));
        if !is_unmapped_value(old.entry(i)) {
            assert(self.slot(slot_of(a)) == old.slot(slot_of(a)));
        }
    }

    /// When only the slots of the first `k` pages of a range starting at virtual `virt`
    /// changed, and those pages were holes, every page mapped before is kept.
    pub proof fn lemma_keeps_when_holes_filled(&self, old: Self, virt: int, lo: int, k: int)
        requires
            self.changed_only(old, lo, lo + k),
            forall|j: int| 0 <= j < k ==> slot_of(#[trigger] old.map_offset(virt, j)) == lo + j,
            forall|j: int| 0 <= j < k ==> #[trigger] old.page_fresh(virt, j),
        ensures
            self.keeps_mappings(old),
    {
        assert forall|a: int| 0 <= a < ADDRESS_SPACE_SIZE && !old.is_hole(a) implies #[trigger] self.page_kept(old, a) by {
            if lo <= slot_of(a) < lo + k {
                let j = slot_of(a) - lo;
                let b = old.map_offset(virt, j);
                assert(old.page_fresh(virt, j));
                assert(slot_of(b) == lo + j);
                lemma_slot_of(a);
                lemma_slot_of(b);
                assert(old.is_hole(b));
                assert(l1_index_of(a) == l1_index_of(b));
                assert(false);
            }
            self.lemma_changed_only_keeps_mapped(old, lo, lo + k, a);
        }
    }

    /// Keeping the mappings carries over a chain of changes.
    pub proof fn lemma_keeps_trans(&self, mid: Self, old: Self)
        requires
            self.keeps_mappings(mid),
            mid.keeps_mappings(old),
        ensures
            self.keeps_mappings(old),
    {
        assert forall|a: int| 0 <= a < ADDRESS_SPACE_SIZE && !old.is_hole(a) implies #[trigger] self.page_kept(old, a) by {
            assert(mid.page_kept(old, a));
            assert(!mid.is_hole(a));
            assert(self.page_kept(mid, a));
        }
    }

    /// When only first-level entries that mapped nothing changed, every page mapped
    /// before is kept.
    pub proof fn lemma_entries_keep(&self, old: Self, lo: int, hi: int)
        requires
            self.entries_changed_only(old, lo, hi),
            forall|i: int| lo <= i < hi ==> is_unmapped_value(#[trigger] old.entry(i)),
        ensures
            self.keeps_mappings(old),
    {
        assert forall|a: int| 0 <= a < ADDRESS_SPACE_SIZE && !old.is_hole(a) implies #[trigger] self.page_kept(old, a) by {
            lemma_slot_of(a);
            let i = l1_index_of(a);
            if lo <= i < hi {
                assert(is_unmapped_value(old.entry(i)));
            }
        }
    }

    /// A page that was no hole and whose slot lies outside the changed slots is kept.
    pub proof fn lemma_changed_only_keeps_mapped(&self, old: Self, lo: int, hi: int, a: int)
        requires
            self.changed_only(old, lo, hi),
            !old.is_hole(a),
            0 <= a < ADDRESS_SPACE_SIZE,
            !(lo <= slot_of(a) < hi),
        ensures
            self.page_kept(old, a),
    {
        lemma_slot_of(a);
        let i = l1_index_of(a);
        assert(self.entry(i) == old.entry(i) || (is_unmapped_value(old.entry(i)) && is_table_value(
            self.entry(i),
        )));
        assert(self.slot(slot_of(a)) == old.slot(slot_of(a)));
    }

    /// A hole whose slot lies outside the changed slots stays a hole.
    pub proof fn lemma_changed_only_keeps_hole(&self, old: Self, lo: int, hi: int, p: int)
        requires
            self.changed_only(old, lo, hi),
            old.is_hole(p),
            0 <= p < ADDRESS_SPACE_SIZE,
            !(lo <= slot_of(p) < hi),
        ensures
            self.is_hole(p),
    {
        lemma_slot_of(p);
        let i = l1_index_of(p);
        assert(self.entry(i) == old.entry(i) || (is_unmapped_value(old.entry(i)) && is_table_value(
            self.entry(i),
        )));
        assert(0usize & 3 == 0) by (bit_vector);
        if is_unmapped_value(old.entry(i)) && is_table_value(self.entry(i)) {
            assert(self.slot(slot_of(p)) == 0);
        } else {
            assert(self.slot(slot_of(p)) == old.slot(slot_of(p)));
        }
    }

    /// Maps a stack at the first hole big enough for it and a guard page: the guard page
    /// is mapped for no one, the stack's pages after it to `phys` with `perm`. Gives the
    /// virtual address where the stack starts. Fails as `find_hole` and `map` do; once a
    /// hole is found, only running out of memory for tables can make it fail.
    pub fn map_stack(&mut self, phys: Phys<[u8]>, perm: PagePerm, heap: &mut KernAlloctor) -> (r: Result<
        usize,
        Error,
    >)
        requires
            old(self).wf(),
            phys.len + 0x2000 <= usize::MAX,
            phys.addr + phys.len <= usize::MAX,
            old(self).find_scan(0, phys.len as int) matches Ok(h) ==> space_start(old(self).space()) + h + 0x1000
                + phys.len <= usize::MAX,
            old(heap).wf(),
            old(heap).available_above(PHYS_TO_VIRT as int),
        ensures
            final(self).keeps_mappings(*old(self)),
            final(self).wf(),
            final(self).space() == old(self).space(),
            final(heap).wf(),
            final(heap).available_above(PHYS_TO_VIRT as int),
            forall|x: int| #[trigger] final(heap).available(x) ==> old(heap).available(x),
            final(heap).end_addr() == old(heap).end_addr(),
            old(self).find_scan(0, phys.len as int) matches Err(e) ==> r == Err::<usize, Error>(e),
            old(self).find_scan(0, phys.len as int) matches Ok(h) ==> {
                let bottom = space_start(old(self).space()) + h;
                &&& r is Ok || r == Err::<usize, Error>(Error::OutOfMem)
                &&& r is Ok <==> can_allocate_seq(
                    old(heap).curr_addr(),
                    old(heap).free_blocks(),
                    old(heap).end_addr(),
                    l2_table_layout(),
                    old(self).tables_needed(bottom, page_count(phys.len as int) + 1),
                )
                &&& r is Ok ==> r == Ok::<usize, Error>((bottom + 0x1000) as usize)
                &&& r is Ok ==> final(self).is_hole(h)
                &&& r is Ok ==> forall|j: int|
                    0 <= j < page_count(phys.len as int) ==> #[trigger] final(self).page_mapped_to(
                        old(self).map_offset(bottom + 0x1000, j),
                        phys.addr + j * 4096,
                        perm,
                    )
            },
    {
        let start = match self.find_hole(phys.len()) {
            Ok(s) => s,
            Err(e) => return Err(e),
        };
        let ghost h = start.0 as int;
        assert(self.find_scan(0, phys.len as int) == Ok::<int, Error>(h));
        let stack_bottom = self.get_virt(start);
        let ghost before = *self;
        proof {
            assert(self.hole_fits(h, phys.len as int));
            assert(page_count(0x1000) == 1);
            assert forall|j: int| 0 <= j < page_count(0x1000) implies {
                &&& space_start(self.space()) <= stack_bottom + j * 4096 < space_end(self.space())
                &&& #[trigger] self.is_hole(self.map_offset(stack_bottom as int, j))
            } by {
                assert(j == 0);
                assert(self.is_hole(h));
                assert(h <= 0x7fff_f000) by {
                    assert(h % 0x1000 == 0);
                }
            }
        }
        let ghost c0 = heap.curr_addr();
        let ghost f0 = heap.free_blocks();
        let ghost e0 = heap.end_addr();
        let ghost n = page_count(phys.len as int);
        let ghost m1 = before.tables_needed(stack_bottom as int, 1);
        proof {
            before.lemma_tables_needed_grows(stack_bottom as int, 1, n + 1);
        }
        match self.map(stack_bottom, 0, PAGE_SIZE, PagePerm::NoOne, false, false, heap) {
            Ok(()) => {},
            Err(e) => {
                proof {
                    if can_allocate_seq(c0, f0, e0, l2_table_layout(), before.tables_needed(stack_bottom as int, n + 1)) {
                        lemma_can_allocate_seq_prefix(c0, f0, e0, l2_table_layout(), m1, before.tables_needed(stack_bottom as int, n + 1));
                    }
                }
                return Err(e);
            },
        }
        let ghost guard_done = *self;
        proof {
            lemma_slot_of(h);
            assert(page_count(0x1000) == 1);
            assert(self.page_mapped_to(before.map_offset(stack_bottom as int, 0), 0int + 0int * 4096, PagePerm::NoOne));
            assert(before.map_offset(stack_bottom as int, 0) == h);
            lemma_l2_mapped_value(0, PagePerm::NoOne);
            assert(self.is_hole(h));
            assert forall|j: int| 0 <= j < page_count(phys.len as int) implies {
                &&& space_start(self.space()) <= stack_bottom + 0x1000 + j * 4096 < space_end(self.space())
                &&& #[trigger] self.is_hole(self.map_offset(stack_bottom + 0x1000, j))
            } by {
                let p = h + 0x1000 + j * 4096;
                assert(self.map_offset(stack_bottom + 0x1000, j) == p);
                assert(p % 0x1000 == 0) by {
                    vstd::arithmetic::div_mod::lemma_mod_multiples_vanish(j + 1, h, 0x1000);
                    assert(p == 0x1000 * (j + 1) + h);
                }
                assert(p <= h + phys.len + 0x1000) by (nonlinear_arith)
                    requires
                        0 <= j < (phys.len + 4095) / 4096,
                        p == h + 0x1000 + j * 4096,
                ;
                assert((p - h) % 0x1000 == 0) by {
                    vstd::arithmetic::div_mod::lemma_mod_multiples_vanish(j + 1, 0, 0x1000);
                    assert(p - h == 0x1000 * (j + 1));
                }
                assert(before.is_hole(p));
                lemma_slot_shift(h, 1);
                lemma_slot_shift(h, j + 1);
                assert(p == h + 4096 * (j + 1));
                assert(slot_of(p) == slot_of(h) + j + 1);
                assert(page_count(0x1000) == 1);
                self.lemma_changed_only_keeps_hole(before, slot_of(h), slot_of(h) + 1, p);
            }
        }
        proof {
            assert(guard_done.keeps_mappings(before));
        }
        let ghost second_before = *self;
        let ghost s1 = state_after_seq(c0, f0, e0, l2_table_layout(), m1);
        proof {
            assert(n * 4096 <= phys.len + 4095) by (nonlinear_arith)
                requires
                    n == (phys.len + 4095) / 4096,
            ;
            assert(before.map_offset(stack_bottom as int, 0) == h);
            assert(is_table_value(self.entry(l1_index_of(h))));
            self.lemma_tables_needed_after_first(before, stack_bottom as int, n);
            lemma_seq_split(c0, f0, e0, l2_table_layout(), m1, self.tables_needed(stack_bottom + 0x1000, n));
        }
        match self.map(stack_bottom + PAGE_SIZE, phys.addr(), phys.len(), perm, true, false, heap) {
            Ok(()) => {},
            Err(e) => {
                proof {
                    self.lemma_keeps_trans(second_before, before);
                }
                return Err(e);
            },
        }
        proof {
            self.lemma_keeps_trans(second_before, before);
        }
        proof {
            assert(guard_done.map_offset((stack_bottom + PAGE_SIZE) as int, 0) == h + 0x1000);
            lemma_slot_shift(h, 1);
            assert(slot_of(h + 0x1000) == slot_of(h) + 1);
            self.lemma_changed_only_keeps_hole(
                guard_done,
                slot_of(guard_done.map_offset((stack_bottom + PAGE_SIZE) as int, 0)),
                slot_of(guard_done.map_offset((stack_bottom + PAGE_SIZE) as int, 0)) + page_count(phys.len as int),
                h,
            );
            assert forall|j: int|
                0 <= j < page_count(phys.len as int) implies #[trigger] self.page_mapped_to(
                    old(self).map_offset(space_start(old(self).space()) + h + 0x1000, j),
                    phys.addr + j * 4096,
                    perm,
                ) by {
                assert(old(self).map_offset(space_start(old(self).space()) + h + 0x1000, j)
                    == guard_done.map_offset((stack_bottom + PAGE_SIZE) as int, j));
                assert(self.page_mapped_to(guard_done.map_offset((stack_bottom + PAGE_SIZE) as int, j), phys.addr + j * 4096, perm));
            }
        }
        Ok(stack_bottom + PAGE_SIZE)
    }

    /// Maps the pages holding the physical bytes `phys` at the first hole big enough for
    /// them and a guard page, with `perm`, and gives the virtual address and length of
    /// the bytes. Fails as `find_hole` and `map` do; once a hole is found, only running
    /// out of memory for tables can make it fail.
    pub fn map_memory(&mut self, phys: Phys<[u8]>, perm: PagePerm, heap: &mut KernAlloctor) -> (r: Result<
        (usize, usize),
        Error,
    >)
        requires
            old(self).wf(),
            phys.len + 0x3000 <= usize::MAX,
            phys.addr + phys.len + 0x1000 <= usize::MAX,
            old(self).find_scan(0, (phys.len + phys.addr % 0x1000) as int) matches Ok(h) ==> space_start(old(self).space()) + h + phys.len + 0x1000 <= usize::MAX,
            old(heap).wf(),
            old(heap).available_above(PHYS_TO_VIRT as int),
        ensures
            final(self).wf(),
            final(self).space() == old(self).space(),
            final(heap).wf(),
            final(heap).available_above(PHYS_TO_VIRT as int),
            forall|x: int| #[trigger] final(heap).available(x) ==> old(heap).available(x),
            final(heap).end_addr() == old(heap).end_addr(),
            old(self).find_scan(0, (phys.len + phys.addr % 0x1000) as int) matches Err(e) ==> r == Err::<(usize, usize), Error>(e),
            old(self).find_scan(0, (phys.len + phys.addr % 0x1000) as int) matches Ok(h) ==> {
                let virt = space_start(old(self).space()) + h;
                &&& r is Ok || r == Err::<(usize, usize), Error>(Error::OutOfMem)
                &&& r is Ok <==> can_allocate_seq(
                    old(heap).curr_addr(),
                    old(heap).free_blocks(),
                    old(heap).end_addr(),
                    l2_table_layout(),
                    old(self).tables_needed(virt, page_count(phys.len + phys.addr % 0x1000)),
                )
                &&& r is Ok ==> (final(heap).curr_addr(), final(heap).free_blocks()) == state_after_seq(
                    old(heap).curr_addr(),
                    old(heap).free_blocks(),
                    old(heap).end_addr(),
                    l2_table_layout(),
                    old(self).tables_needed(virt, page_count(phys.len + phys.addr % 0x1000)),
                )
                &&& r is Ok ==> final(self).changed_only(
                    *old(self),
                    slot_of(h),
                    slot_of(h) + page_count(phys.len + phys.addr % 0x1000),
                )
                &&& r is Ok ==> r == Ok::<(usize, usize), Error>(((virt + phys.addr % 0x1000) as usize, phys.len))
                &&& r is Ok ==> final(self).keeps_mappings(*old(self))
                &&& r is Ok ==> forall|j: int|
                    0 <= j < page_count(phys.len + phys.addr % 0x1000) ==> #[trigger] final(self).page_mapped_to(
                        old(self).map_offset(virt, j),
                        phys.addr + j * 4096,
                        perm,
                    )
            },
    {
        let page_offset = Self::page_offset(&phys);
        let size = phys.len() + page_offset;
        let table_offset = match self.find_hole(size) {
            Ok(o) => o,
            Err(e) => return Err(e),
        };
        let ghost h = table_offset.0 as int;
        assert(self.find_scan(0, size as int) == Ok::<int, Error>(h));
        let virt = self.get_virt(table_offset);
        proof {
            assert(self.hole_fits(h, size as int));
            assert forall|j: int| 0 <= j < page_count(size as int) implies {
                &&& space_start(self.space()) <= virt + j * 4096 < space_end(self.space())
                &&& #[trigger] self.is_hole(self.map_offset(virt as int, j))
            } by {
                let p = h + j * 4096;
                assert(self.map_offset(virt as int, j) == p);
                assert(p % 0x1000 == 0) by {
                    vstd::arithmetic::div_mod::lemma_mod_multiples_vanish(j, h, 0x1000);
                    assert(p == 0x1000 * j + h);
                }
                assert(p <= h + size + 0x1000) by (nonlinear_arith)
                    requires
                        0 <= j < (size + 4095) / 4096,
                        p == h + j * 4096,
                ;
                assert((p - h) % 0x1000 == 0) by {
                    vstd::arithmetic::div_mod::lemma_mod_multiples_vanish(j, 0, 0x1000);
                    assert(p - h == 0x1000 * j);
                }
                assert(self.is_hole(p));
            }
        }
        let ghost before = *self;
        match self.map(virt, phys.addr(), size, perm, true, true, heap) {
            Ok(()) => {},
            Err(e) => return Err(e),
        }
        proof {
            let lo = slot_of(h);
            let k = page_count(size as int);
            assert(before.map_offset(virt as int, 0) == h);
            assert forall|a: int| 0 <= a < ADDRESS_SPACE_SIZE && !before.is_hole(a) implies #[trigger] self.page_kept(before, a) by {
                if lo <= slot_of(a) < lo + k {
                    let j = slot_of(a) - lo;
                    let p = h + j * 4096;
                    lemma_slot_shift(h, j);
                    assert(before.map_offset(virt as int, j) == p);
                    assert(before.is_hole(p));
                    assert(p <= h + size + 0x1000) by (nonlinear_arith)
                        requires
                            0 <= j < (size + 4095) / 4096,
                            p == h + j * 4096,
                    ;
                    lemma_slot_of(a);
                    lemma_slot_of(p);
                    assert(false);
                }
                self.lemma_changed_only_keeps_mapped(before, lo, lo + k, a);
            }
        }
        Ok(phys.with_addr(virt + page_offset))
    }

    /// Reading back a mapping: when the pages of `len` bytes starting at physical `phys`
    /// are mapped for the kernel at the page-aligned offset `h`, page by page in order,
    /// every byte at offset `h + phys % PAGE_SIZE + x` translates back to `phys + x`.
    pub proof fn lemma_mapped_range_translates(&self, h: int, phys: int, len: int)
        requires
            0 <= h,
            h % 0x1000 == 0,
            0 <= phys,
            0 <= len,
            phys + len <= 0xffff_ffff,
            h + phys % 0x1000 + len <= ADDRESS_SPACE_SIZE,
            forall|j: int|
                0 <= j < page_count(len + phys % 0x1000) ==> #[trigger] self.page_mapped_to(
                    h + j * 4096,
                    phys + j * 4096,
                    PagePerm::KernOnly,
                ),
        ensures
            forall|x: int| 0 <= x < len ==> #[trigger] self.translate(h + phys % 0x1000 + x) == Some(phys + x),
    {
        assert forall|x: int| 0 <= x < len implies #[trigger] self.translate(h + phys % 0x1000 + x) == Some(phys + x) by {
            let po = phys % 0x1000;
            let y = po + x;
            let j = y / 4096;
            let r = y % 4096;
            vstd::arithmetic::div_mod::lemma_fundamental_div_mod(y, 4096);
            vstd::arithmetic::div_mod::lemma_mod_pos_bound(y, 4096);
            vstd::arithmetic::div_mod::lemma_mod_pos_bound(phys, 4096);
            assert(0 <= j < page_count(len + po)) by {
                vstd::arithmetic::div_mod::lemma_div_is_ordered(y, len + po + 4095, 4096);
                vstd::arithmetic::div_mod::lemma_div_pos_is_pos(y, 4096);
            }
            let a = h + j * 4096;
            let pj = phys + j * 4096;
            assert(self.page_mapped_to(a, pj, PagePerm::KernOnly));
            vstd::arithmetic::div_mod::lemma_fundamental_div_mod(phys, 4096);
            let m = phys / 4096 + j;
            assert(pj == 4096 * m + po);
            assert(4096 * m <= phys + x);
            assert(m <= 0xfffff);
            assert(pj <= 0xffff_ffff);
            lemma_l2_mapped_value(pj as usize, PagePerm::KernOnly);
            let pju = pj as usize;
            assert(pju & 0xfffff000 == pju - pju % 4096) by (bit_vector)
                requires
                    pju <= 0xffff_ffff,
            ;
            vstd::arithmetic::div_mod::lemma_mod_multiples_vanish(j, phys, 4096);
            assert(pj % 4096 == po);
            let b = h + y;
            assert(b == a + r);
            lemma_slot_shift(h, j);
            vstd::arithmetic::div_mod::lemma_fundamental_div_mod(h, 4096);
            assert(h == 4096 * (h / 4096));
            assert(a == 4096 * (h / 4096 + j));
            vstd::arithmetic::div_mod::lemma_div_multiples_vanish_fancy(h / 4096 + j, r, 4096);
            assert(slot_of(b) == slot_of(a));
            vstd::arithmetic::div_mod::lemma_mod_multiples_vanish(h / 4096 + j, r, 4096);
            vstd::arithmetic::div_mod::lemma_small_mod(r as nat, 4096);
            assert(page_offset_of(b) == r);
            lemma_slot_of(a);
            lemma_slot_of(b);
            assert(l1_index_of(b) == l1_index_of(a));
        }
    }

    /// Physical addresses of the small pages mapped by the first `n` entries of the
    /// second-level table of first-level entry `i`, in order.
    pub open spec fn row_pages(&self, i: int, n: int) -> Seq<usize>
        decreases n,
    {
        if n <= 0 {
            Seq::empty()
        } else {
            let v = self.slot(i * 256 + n - 1);
            let rest = self.row_pages(i, n - 1);
            if l2_type_of(v) == L2EntryType::Small {
                rest.push(v & SMALL_PAGE_MASK)
            } else {
                rest
            }
        }
    }

    /// What unmapping the first `n` first-level entries gives back, in order: for each
    /// entry that points at a second-level table, the small pages it maps and then the
    /// table itself.
    pub open spec fn released_upto(&self, n: int) -> Seq<usize>
        decreases n,
    {
        if n <= 0 {
            Seq::empty()
        } else {
            let v = self.entry(n - 1);
            let rest = self.released_upto(n - 1);
            if is_table_value(v) {
                rest + self.row_pages(n - 1, 256).push(v & L2_TABLE_MASK)
            } else {
                rest
            }
        }
    }

    /// No first-level entry is a section and no second-level entry under a table is a
    /// large page.
    pub open spec fn only_small_pages(&self) -> bool {
        &&& forall|i: int| 0 <= i < L1_ENTRY_COUNT ==> !is_section_value(#[trigger] self.entry(i))
        &&& forall|t: int|
            0 <= t < L2_SLOT_COUNT && is_table_value(self.entry(t / 256)) ==> l2_type_of(
                #[trigger] self.slot(t),
            ) != L2EntryType::Large
    }

    /// Unmaps every second-level entry of the table of first-level entry `l1_index`
    /// that maps a small page, adding the pages' physical addresses to `released` in
    /// order, then adds the table's own address.
    fn unmap_second_level(&mut self, l1_index: usize, table: PhysMut<SeconLevelTable>, released: &mut Vec<usize>)
        requires
            old(self).wf(),
            l1_index < L1_ENTRY_COUNT,
            is_table_value(old(self).entry(l1_index as int)),
            forall|j: int| 0 <= j < 256 ==> l2_type_of(#[trigger] old(self).slot(l1_index * 256 + j)) != L2EntryType::Large,
        ensures
            final(self).wf(),
            final(self).space() == old(self).space(),
            forall|i: int| 0 <= i < L1_ENTRY_COUNT ==> #[trigger] final(self).entry(i) == old(self).entry(i),
            forall|t: int|
                0 <= t < L2_SLOT_COUNT && t / 256 != l1_index ==> #[trigger] final(self).slot(t) == old(self).slot(t),
            forall|j: int|
                0 <= j < 256 ==> #[trigger] final(self).slot(l1_index * 256 + j) == if l2_type_of(
                    old(self).slot(l1_index * 256 + j),
                ) == L2EntryType::Small {
                    0
                } else {
                    old(self).slot(l1_index * 256 + j)
                },
            final(released)@ == old(released)@ + old(self).row_pages(l1_index as int, 256).push(table.addr),
    {
        let base = l1_index * L2_ENTRY_COUNT;
        let mut j: usize = 0;
        while j < L2_ENTRY_COUNT
            invariant
                self.wf(),
                self.space() == old(self).space(),
                base == l1_index * 256,
                l1_index < L1_ENTRY_COUNT,
                j <= 256,
                forall|i: int| 0 <= i < L1_ENTRY_COUNT ==> #[trigger] self.entry(i) == old(self).entry(i),
                forall|t: int|
                    0 <= t < L2_SLOT_COUNT && !(base <= t < base + j) ==> #[trigger] self.slot(t) == old(self).slot(t),
                forall|k: int|
                    0 <= k < j ==> #[trigger] self.slot(base + k) == if l2_type_of(
                        old(self).slot(base + k),
                    ) == L2EntryType::Small {
                        0
                    } else {
                        old(self).slot(base + k)
                    },
                released@ == old(released)@ + old(self).row_pages(l1_index as int, j as int),
            decreases 256 - j,
        {
            let t = base + j;
            let mut entry = self.table.l2[t];
            assert(entry.value == self.slot(t as int));
            assert(entry.value == old(self).slot(t as int));
            let phys = match entry.get_type() {
                L2EntryType::Unmapped => None,
                L2EntryType::Small => entry.get_phys(),
                L2EntryType::Large => None,
            };
            let ghost prev = *self;
            match phys {
                Some(phys) => {
                    released.push(phys);
                    entry.unmap();
                    self.table.l2.set(t, entry);
                },
                None => {},
            }
            proof {
                assert forall|i: int| 0 <= i < L1_ENTRY_COUNT implies {
                    let v = #[trigger] self.entry(i);
                    is_unmapped_value(v) || is_table_value(v) || is_section_value(v)
                } by {
                    assert(self.entry(i) == prev.entry(i));
                }
                assert forall|t2: int| 0 <= t2 < L2_SLOT_COUNT && t2 != t implies #[trigger] self.slot(t2) == prev.slot(t2) by {}
                assert forall|i: int| 0 <= i < L1_ENTRY_COUNT implies #[trigger] self.entry(i) == old(self).entry(i) by {
                    assert(prev.entry(i) == old(self).entry(i));
                }
                assert forall|k: int|
                    0 <= k < j + 1 implies #[trigger] self.slot(base + k) == if l2_type_of(
                        old(self).slot(base + k),
                    ) == L2EntryType::Small {
                        0
                    } else {
                        old(self).slot(base + k)
                    } by {
                    if k < j {
                        assert(prev.slot(base + k) == self.slot(base + k));
                    }
                }
                assert forall|t2: int|
                    0 <= t2 < L2_SLOT_COUNT && !(base <= t2 < base + j + 1) implies #[trigger] self.slot(t2) == old(self).slot(t2) by {
                    assert(prev.slot(t2) == self.slot(t2));
                }
                assert(old(self).row_pages(l1_index as int, j + 1) == if l2_type_of(old(self).slot(base + j)) == L2EntryType::Small {
                    old(self).row_pages(l1_index as int, j as int).push(old(self).slot(base + j) & SMALL_PAGE_MASK)
                } else {
                    old(self).row_pages(l1_index as int, j as int)
                });
                assert(released@ =~= old(released)@ + old(self).row_pages(l1_index as int, j + 1));
            }
            j = j + 1;
        }
        released.push(table.addr());
        assert(released@ =~= old(released)@ + old(self).row_pages(l1_index as int, 256).push(table.addr));
    }

    /// Unmaps the whole user table: the small pages of every second-level table are
    /// unmapped and every first-level entry is cleared. Gives the physical addresses to
    /// give back to the heap, in order: for each second-level table, its pages and then
    /// the table itself.
    pub fn unmap_all(&mut self) -> (released: Vec<usize>)
        requires
            old(self).wf(),
            old(self).space() == AddressSpace::User,
            old(self).only_small_pages(),
        ensures
            final(self).wf(),
            final(self).space() == old(self).space(),
            forall|i: int| 0 <= i < L1_ENTRY_COUNT ==> #[trigger] is_unmapped_value(final(self).entry(i)),
            released@ == old(self).released_upto(L1_ENTRY_COUNT as int),
    {
        let mut released: Vec<usize> = Vec::new();
        let mut i: usize = 0;
        while i < L1_ENTRY_COUNT
            invariant
                self.wf(),
                self.space() == old(self).space(),
                i <= L1_ENTRY_COUNT,
                forall|k: int| 0 <= k < i ==> #[trigger] is_unmapped_value(self.entry(k)),
                forall|k: int| i <= k < L1_ENTRY_COUNT ==> #[trigger] self.entry(k) == old(self).entry(k),
                forall|t: int| 0 <= t < L2_SLOT_COUNT && t / 256 >= i ==> #[trigger] self.slot(t) == old(self).slot(t),
                old(self).only_small_pages(),
                released@ == old(self).released_upto(i as int),
            decreases L1_ENTRY_COUNT - i,
        {
            let mut entry = self.table.entries[i];
            assert(entry.value == self.entry(i as int));
            assert(entry.value == old(self).entry(i as int));
            let ghost prev = *self;
            let ghost prev_released = released@;
            match entry.get_type() {
                EntryKind::Unmapped => {},
                EntryKind::SeconLevelTable(table) => {
                    proof {
                        assert forall|j: int| 0 <= j < 256 implies l2_type_of(#[trigger] self.slot(i * 256 + j)) != L2EntryType::Large by {
                            assert((i * 256 + j) / 256 == i);
                            assert(self.slot(i * 256 + j) == old(self).slot(i * 256 + j));
                        }
                    }
                    Self::unmap_second_level(self, i, PhysMut::from(table.addr()), &mut released);
                    proof {
                        assert forall|j: int| 0 <= j < 256 implies #[trigger] prev.slot(i * 256 + j) == old(self).slot(i * 256 + j) by {
                            assert((i * 256 + j) / 256 == i);
                        }
                        assert(prev.row_pages(i as int, 256) == old(self).row_pages(i as int, 256)) by {
                            self.lemma_row_pages_same(prev, *old(self), i as int, 256);
                        }
                    }
                    entry.unmap();
                    let ghost mid = *self;
                    self.table.entries.set(i, entry);
                    proof {
                        assert forall|k: int| 0 <= k < L1_ENTRY_COUNT && k != i implies #[trigger] self.entry(k) == mid.entry(k) by {}
                        assert forall|t: int| 0 <= t < L2_SLOT_COUNT implies #[trigger] self.slot(t) == mid.slot(t) by {}
                    }
                },
                EntryKind::Section(_) => {},
                EntryKind::SuperSection => {},
            }
            proof {
                assert forall|k: int| 0 <= k < L1_ENTRY_COUNT implies {
                    let v = #[trigger] self.entry(k);
                    is_unmapped_value(v) || is_table_value(v) || is_section_value(v)
                } by {
                    if k != i {
                        assert(self.entry(k) == prev.entry(k));
                    }
                }
                assert forall|k: int| 0 <= k < i + 1 implies #[trigger] is_unmapped_value(self.entry(k)) by {
                    if k < i {
                        assert(self.entry(k) == prev.entry(k));
                    }
                }
                assert forall|k: int| i + 1 <= k < L1_ENTRY_COUNT implies #[trigger] self.entry(k) == old(self).entry(k) by {
                    assert(self.entry(k) == prev.entry(k));
                }
                assert forall|t: int| 0 <= t < L2_SLOT_COUNT && t / 256 >= i + 1 implies #[trigger] self.slot(t) == old(self).slot(t) by {
                    assert(self.slot(t) == prev.slot(t));
                }
                assert(released@ =~= old(self).released_upto(i + 1));
            }
            i = i + 1;
        }
        released
    }

    proof fn lemma_row_pages_same(&self, a: Self, b: Self, i: int, n: int)
        requires
            0 <= n <= 256,
            forall|j: int| 0 <= j < 256 ==> #[trigger] a.slot(i * 256 + j) == b.slot(i * 256 + j),
        ensures
            a.row_pages(i, n) == b.row_pages(i, n),
        decreases n,
    {
        if n > 0 {
            self.lemma_row_pages_same(a, b, i, n - 1);
            assert(a.slot(i * 256 + (n - 1)) == b.slot(i * 256 + (n - 1)));
        }
    }

    /// The table is the same as `other`, entry for entry.
    pub open spec fn table_unchanged(&self, other: Self) -> bool {
        &&& self.space() == other.space()
        &&& forall|i: int| 0 <= i < L1_ENTRY_COUNT ==> #[trigger] self.entry(i) == other.entry(i)
        &&& forall|t: int| 0 <= t < L2_SLOT_COUNT ==> #[trigger] self.slot(t) == other.slot(t)
    }
}

} // verus!
