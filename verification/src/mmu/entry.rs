use vstd::prelude::*;

use crate::mmu::page_permission::{perm_bits, PagePerm};
use crate::phys::{Phys, PhysMut};

verus! {

/// Number of entries in a first-level table.
pub const L1_ENTRY_COUNT: usize = 2096;

/// Number of entries in a second-level table.
pub const L2_ENTRY_COUNT: usize = 256;

/// Size of a section, the memory one first-level entry maps.
pub const SECTION_SIZE: usize = 0x100000;

/// Bit that marks a section entry as a supersection.
pub const SUPERSECTION_BIT: usize = 0x40000;

/// Address bits of a section entry.
pub const SECTION_MASK: usize = 0xfff00000;

/// Address bits of an entry that points at a second-level table.
pub const L2_TABLE_MASK: usize = 0xfffffc00;

/// Low bits of an entry that maps nothing.
pub const IGNORED_ENTRY_MAGIC: usize = 0b00;

/// Low bits of an entry that points at a second-level table.
pub const SECOND_LEVEL_TABLE_MAGIC: usize = 0b01;

/// Low bits of a section entry.
pub const SECTION_MAGIC: usize = 0b10;

/// A second-level table: `L2_ENTRY_COUNT` entries, each mapping a page.
pub struct SeconLevelTable;

/// A section: the megabyte of memory that one first-level entry maps.
pub struct Section;

/// An entry of a first-level table.
#[derive(PartialEq, Eq, Structural, Clone, Copy, Debug)]
pub struct Entry {
    pub value: usize,
}

/// What a first-level entry maps.
pub enum EntryKind {
    Unmapped,
    SeconLevelTable(Phys<SeconLevelTable>),
    Section(Phys<Section>),
    SuperSection,
}

/// What a first-level entry maps, with addresses that may be written through.
pub enum EntryKindMut {
    Unmapped,
    SeconLevelTable(PhysMut<SeconLevelTable>),
    Section(PhysMut<Section>),
    SuperSection,
}

/// The entry maps nothing.
pub open spec fn is_unmapped_value(v: usize) -> bool {
    v & 3 == IGNORED_ENTRY_MAGIC
}

/// The entry points at a second-level table.
pub open spec fn is_table_value(v: usize) -> bool {
    v & 3 == SECOND_LEVEL_TABLE_MAGIC
}

/// The entry is a section that is not a supersection.
pub open spec fn is_section_value(v: usize) -> bool {
    v & 3 == SECTION_MAGIC && v & SUPERSECTION_BIT != SUPERSECTION_BIT
}

/// The entry is a supersection.
pub open spec fn is_supersection_value(v: usize) -> bool {
    v & 3 == SECTION_MAGIC && v & SUPERSECTION_BIT == SUPERSECTION_BIT
}

/// The raw value of an entry made a section of `phys` with `perm` in `domain`.
pub open spec fn section_value(phys: usize, perm: PagePerm, domain: u8) -> usize {
    (phys & SECTION_MASK) | (perm_bits(perm) << 10usize) | ((domain as usize) << 5usize) | SECTION_MAGIC
}

/// The raw value of an entry made to point at the second-level table at `phys`.
pub open spec fn table_value(phys: usize, domain: u8) -> usize {
    (phys & L2_TABLE_MASK) | ((domain as usize) << 5usize) | SECOND_LEVEL_TABLE_MAGIC
}

impl Entry {
    /// What the entry maps; the low bits `0b11` are a type this kernel does not handle.
    pub fn get_type(&self) -> (r: EntryKind)
        requires
            self.value & 3 != 3,
        ensures
            is_unmapped_value(self.value) <==> r is Unmapped,
            is_table_value(self.value) <==> r is SeconLevelTable,
            is_section_value(self.value) <==> r is Section,
            is_supersection_value(self.value) <==> r is SuperSection,
            r matches EntryKind::SeconLevelTable(t) ==> t.addr == self.value & L2_TABLE_MASK,
            r matches EntryKind::Section(s) ==> s.addr == self.value & SECTION_MASK,
    {
        let tag = self.value & 3;
        proof {
            let v = self.value;
            assert(v & 3 <= 3) by (bit_vector);
        }
        if tag == IGNORED_ENTRY_MAGIC {
            EntryKind::Unmapped
        } else if tag == SECOND_LEVEL_TABLE_MAGIC {
            EntryKind::SeconLevelTable(self.as_l2_table())
        } else if self.is_supersection() {
            EntryKind::SuperSection
        } else {
            EntryKind::Section(self.as_section())
        }
    }

    /// What the entry maps, with addresses that may be written through.
    pub fn get_type_mut(&mut self) -> (r: EntryKindMut)
        requires
            old(self).value & 3 != 3,
        ensures
            final(self).value == old(self).value,
            is_unmapped_value(old(self).value) <==> r is Unmapped,
            is_table_value(old(self).value) <==> r is SeconLevelTable,
            is_section_value(old(self).value) <==> r is Section,
            is_supersection_value(old(self).value) <==> r is SuperSection,
            r matches EntryKindMut::SeconLevelTable(t) ==> t.addr == old(self).value & L2_TABLE_MASK,
            r matches EntryKindMut::Section(s) ==> s.addr == old(self).value & SECTION_MASK,
    {
        let tag = self.value & 3;
        proof {
            let v = self.value;
            assert(v & 3 <= 3) by (bit_vector);
        }
        if tag == IGNORED_ENTRY_MAGIC {
            EntryKindMut::Unmapped
        } else if tag == SECOND_LEVEL_TABLE_MAGIC {
            EntryKindMut::SeconLevelTable(self.as_l2_table_mut())
        } else if self.is_supersection() {
            EntryKindMut::SuperSection
        } else {
            EntryKindMut::Section(self.as_section_mut())
        }
    }

    /// The address of the second-level table the entry points at.
    pub fn as_l2_table(&self) -> (r: Phys<SeconLevelTable>)
        ensures
            r.addr == self.value & L2_TABLE_MASK,
    {
        Phys::from(self.value & L2_TABLE_MASK)
    }

    /// The address of the second-level table the entry points at, to write through.
    pub fn as_l2_table_mut(&mut self) -> (r: PhysMut<SeconLevelTable>)
        ensures
            r.addr == old(self).value & L2_TABLE_MASK,
            final(self).value == old(self).value,
    {
        PhysMut::from(self.value & L2_TABLE_MASK)
    }

    /// The address of the section the entry maps.
    pub fn as_section(&self) -> (r: Phys<Section>)
        ensures
            r.addr == self.value & SECTION_MASK,
    {
        Phys::from(self.value & SECTION_MASK)
    }

    /// The address of the section the entry maps, to write through.
    pub fn as_section_mut(&self) -> (r: PhysMut<Section>)
        ensures
            r.addr == self.value & SECTION_MASK,
    {
        PhysMut::from(self.value & SECTION_MASK)
    }

    /// The entry maps something.
    pub fn is_mapped(&self) -> (r: bool)
        ensures
            r == !is_unmapped_value(self.value),
    {
        self.value & 3 != 0
    }

    /// Makes the entry a section mapping `phys` with `perm` in `domain`.
    pub fn set_section(&mut self, phys: usize, perm: PagePerm, domain: u8)
        ensures
            final(self).value == section_value(phys, perm, domain),
            is_section_value(final(self).value),
            final(self).value & SECTION_MASK == phys & SECTION_MASK,
            final(self).value & 3 == 2,
            domain < 32 ==> (final(self).value >> 10usize) & 3 == match perm {
                PagePerm::NoOne => 0usize,
                PagePerm::KernOnly => 1usize,
                PagePerm::UserRo => 2usize,
                PagePerm::UserRw => 3usize,
            },
            domain < 32 ==> (final(self).value >> 5usize) & 0x1f == domain as usize,
    {
        proof {
            law_section_entry_fields(phys, perm, domain);
        }
        self.value = (phys & SECTION_MASK) | (perm.translate() << 10) | ((domain as usize) << 5)
            | SECTION_MAGIC;
        proof {
            lemma_section_value(phys, perm, domain);
        }
    }

    /// Makes the entry point at the second-level table at `phys` in `domain`.
    pub fn set_l2_table(&mut self, phys: PhysMut<SeconLevelTable>, domain: u8)
        ensures
            final(self).value == table_value(phys.addr, domain),
            is_table_value(final(self).value),
            domain < 32 ==> final(self).value & L2_TABLE_MASK == phys.addr & L2_TABLE_MASK,
    {
        self.value = (phys.addr() & L2_TABLE_MASK) | ((domain as usize) << 5)
            | SECOND_LEVEL_TABLE_MAGIC;
        proof {
            lemma_table_value(phys.addr, domain);
        }
    }

    /// Clears the entry.
    pub fn unmap(&mut self)
        ensures
            final(self).value == 0,
            is_unmapped_value(final(self).value),
    {
        self.value = 0;
        assert(0usize & 3 == 0) by (bit_vector);
    }

    /// The entry has the supersection bit set.
    pub fn is_supersection(&self) -> (r: bool)
        ensures
            r == (self.value & SUPERSECTION_BIT == SUPERSECTION_BIT),
    {
        (self.value & SUPERSECTION_BIT) == SUPERSECTION_BIT
    }
}

/// A section entry is a section, not a supersection, and keeps the section address.
pub proof fn lemma_section_value(phys: usize, perm: PagePerm, domain: u8)
    ensures
        is_section_value(section_value(phys, perm, domain)),
        section_value(phys, perm, domain) & SECTION_MASK == phys & SECTION_MASK,
{
    let b = perm_bits(perm);
    let d = domain as usize;
    assert(b <= 3);
    assert(d <= 255);
    let v = (phys & 0xfff00000) | (b << 10usize) | (d << 5usize) | 2usize;
    assert(v & 3 == 2) by (bit_vector)
        requires
            v == (phys & 0xfff00000) | (b << 10usize) | (d << 5usize) | 2usize,
            b <= 3,
            d <= 255,
    ;
    assert(v & 0x40000 != 0x40000) by (bit_vector)
        requires
            v == (phys & 0xfff00000) | (b << 10usize) | (d << 5usize) | 2usize,
            b <= 3,
            d <= 255,
    ;
    assert(v & 0xfff00000 == phys & 0xfff00000) by (bit_vector)
        requires
            v == (phys & 0xfff00000) | (b << 10usize) | (d << 5usize) | 2usize,
            b <= 3,
            d <= 255,
    ;
}

/// A section entry made for `phys` with `perm` in `domain` carries each of them in its
/// own field: the section address in bits 20 and up, the access permission in bits 10
/// and 11 (none 0, kernel only 1, user read-only 2, user read-write 3), the domain in
/// bits 5 to 9, and the section type in bits 0 and 1.
pub proof fn law_section_entry_fields(phys: usize, perm: PagePerm, domain: u8)
    ensures
        section_value(phys, perm, domain) & 0xfff00000 == phys & 0xfff00000,
        section_value(phys, perm, domain) & 3 == 2,
        domain < 32 ==> (section_value(phys, perm, domain) >> 10usize) & 3 == match perm {
            PagePerm::NoOne => 0usize,
            PagePerm::KernOnly => 1usize,
            PagePerm::UserRo => 2usize,
            PagePerm::UserRw => 3usize,
        },
        domain < 32 ==> (section_value(phys, perm, domain) >> 5usize) & 0x1f == domain as usize,
{
    lemma_section_value(phys, perm, domain);
    let b = perm_bits(perm);
    let d = domain as usize;
    let v = section_value(phys, perm, domain);
    assert(b <= 3);
    assert(d <= 255);
    assert(v == (phys & 0xfff00000) | (b << 10usize) | (d << 5usize) | 2usize);
    if domain < 32 {
        assert((v >> 10usize) & 3 == b && (v >> 5usize) & 0x1f == d) by (bit_vector)
            requires
                v == (phys & 0xfff00000) | (b << 10usize) | (d << 5usize) | 2usize,
                b <= 3,
                d < 32,
        ;
    }
}

/// A table entry is a table entry and keeps the table address.
pub proof fn lemma_table_value(phys: usize, domain: u8)
    ensures
        is_table_value(table_value(phys, domain)),
        domain < 32 ==> table_value(phys, domain) & L2_TABLE_MASK == phys & L2_TABLE_MASK,
{
    let d = domain as usize;
    assert(d <= 255);
    let v = (phys & 0xfffffc00) | (d << 5usize) | 1usize;
    assert(v & 3 == 1) by (bit_vector)
        requires
            v == (phys & 0xfffffc00) | (d << 5usize) | 1usize,
            d <= 255,
    ;
    if domain < 32 {
        assert(v & 0xfffffc00 == phys & 0xfffffc00) by (bit_vector)
            requires
                v == (phys & 0xfffffc00) | (d << 5usize) | 1usize,
                d < 32,
        ;
    }
}

} // verus!
