use vstd::prelude::*;

use crate::mmu::page_permission::{perm_bits, PagePerm};

verus! {

/// What a second-level entry maps, read from its two low bits.
#[derive(PartialEq, Eq, Structural, Clone, Copy, Debug)]
pub enum L2EntryType {
    Unmapped,
    Small,
    Large,
}

/// Address bits of a small-page entry.
pub const SMALL_PAGE_MASK: usize = 0xfffff000;

/// Address bits of a large-page entry.
pub const LARGE_PAGE_MASK: usize = 0xffff0000;

/// An entry of a second-level table.
#[derive(PartialEq, Eq, Structural, Clone, Copy, Debug)]
pub struct L2Entry {
    pub value: usize,
}

/// The type of a second-level entry with raw value `v`.
pub open spec fn l2_type_of(v: usize) -> L2EntryType {
    if v & 3 == 0 {
        L2EntryType::Unmapped
    } else if v & 3 == 1 {
        L2EntryType::Small
    } else {
        L2EntryType::Large
    }
}

/// The physical address a second-level entry with raw value `v` points at, if any.
pub open spec fn l2_phys_of(v: usize) -> Option<usize> {
    match l2_type_of(v) {
        L2EntryType::Unmapped => None,
        L2EntryType::Small => Some(v & SMALL_PAGE_MASK),
        L2EntryType::Large => Some(v & LARGE_PAGE_MASK),
    }
}

/// The raw value of an entry set to `phys` as a small page and then given `perm`.
pub open spec fn l2_mapped_value(phys: usize, perm: PagePerm) -> usize {
    (phys & SMALL_PAGE_MASK) | perm_bits(perm)
}

impl L2Entry {
    /// Points the entry at `phys`, keeping the address bits that `entry_type` has;
    /// an `Unmapped` type leaves the entry as it is.
    pub fn set_phys(&mut self, phys: usize, entry_type: L2EntryType)
        ensures
            entry_type == L2EntryType::Unmapped ==> final(self).value == old(self).value,
            entry_type == L2EntryType::Small ==> final(self).value == phys & SMALL_PAGE_MASK,
            entry_type == L2EntryType::Large ==> final(self).value == phys & LARGE_PAGE_MASK,
    {
        let mask = match entry_type {
            L2EntryType::Unmapped => return,
            L2EntryType::Small => SMALL_PAGE_MASK,
            L2EntryType::Large => LARGE_PAGE_MASK,
        };
        self.value = phys & mask;
    }

    /// The physical address the entry points at, or `None` when it is unmapped.
    pub fn get_phys(&self) -> (r: Option<usize>)
        ensures
            r == l2_phys_of(self.value),
    {
        let mask = match self.get_type() {
            L2EntryType::Unmapped => return None,
            L2EntryType::Small => SMALL_PAGE_MASK,
            L2EntryType::Large => LARGE_PAGE_MASK,
        };
        Some(self.value & mask)
    }

    /// The type of the entry.
    pub fn get_type(&self) -> (r: L2EntryType)
        ensures
            r == l2_type_of(self.value),
    {
        let tag = self.value & 3;
        if tag == 0 {
            L2EntryType::Unmapped
        } else if tag == 1 {
            L2EntryType::Small
        } else {
            L2EntryType::Large
        }
    }

    /// Adds the access-permission bits of `perm` to the entry.
    pub fn set_perm(&mut self, perm: PagePerm)
        ensures
            final(self).value == old(self).value | perm_bits(perm),
    {
        self.value = self.value | perm.translate();
    }

    /// Clears the entry.
    pub fn unmap(&mut self)
        ensures
            final(self).value == 0,
    {
        self.value = 0;
    }
}

/// An entry mapped as a small page with a permission has the type and the address
/// that the permission's bits select.
pub proof fn lemma_l2_mapped_value(phys: usize, perm: PagePerm)
    ensures
        l2_mapped_value(phys, perm) & 3 == perm_bits(perm),
        l2_mapped_value(phys, perm) & SMALL_PAGE_MASK == phys & SMALL_PAGE_MASK,
        l2_mapped_value(phys, perm) & LARGE_PAGE_MASK == phys & LARGE_PAGE_MASK,
{
    let b = perm_bits(perm);
    assert(b <= 3);
    assert(((phys & 0xfffff000) | b) & 3 == b) by (bit_vector)
        requires
            b <= 3,
    ;
    assert(((phys & 0xfffff000) | b) & 0xfffff000 == phys & 0xfffff000) by (bit_vector)
        requires
            b <= 3,
    ;
    assert(((phys & 0xfffff000) | b) & 0xffff0000 == phys & 0xffff0000) by (bit_vector)
        requires
            b <= 3,
    ;
}

} // verus!
