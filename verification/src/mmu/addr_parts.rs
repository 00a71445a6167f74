use vstd::prelude::*;

use crate::error::Error;

verus! {

/// Size of the part of the address space that one table maps.
pub const ADDRESS_SPACE_SIZE: usize = 0x8000_0000;

/// An offset into the part of the address space a table maps.
#[derive(PartialEq, Eq, Structural, Clone, Copy, Debug)]
pub struct Offset(pub usize);

impl Offset {
    /// The distance from `rhs` to this offset.
    pub fn sub(self, rhs: Offset) -> (r: usize)
        requires
            rhs.0 <= self.0,
        ensures
            r == self.0 - rhs.0,
    {
        self.0 - rhs.0
    }
}

/// Index into the first-level table of the offset `a`.
pub open spec fn l1_index_of(a: int) -> int {
    a / 0x100000
}

/// Index into the second-level table of the offset `a`.
pub open spec fn l2_index_of(a: int) -> int {
    (a / 0x1000) % 256
}

/// Offset of `a` inside its page.
pub open spec fn page_offset_of(a: int) -> int {
    a % 0x1000
}

/// An offset split into its table indices and page offset.
pub struct AddrParts {
    addr: usize,
}

impl AddrParts {
    /// The offset.
    pub closed spec fn addr_spec(&self) -> usize {
        self.addr
    }

    /// The parts of `offset`.
    pub fn from(offset: Offset) -> (r: AddrParts)
        ensures
            r.addr_spec() == offset.0,
    {
        AddrParts { addr: offset.0 }
    }

    /// Offset of the address inside its section.
    pub fn section_offset(&self) -> (r: usize)
        ensures
            r == self.addr_spec() % 0x100000,
    {
        proof {
            lemma_parts(self.addr);
        }
        (self.l2_index() << 12) + self.page_offset()
    }

    /// Index into the first-level table.
    pub fn l1_index(&self) -> (r: usize)
        ensures
            r == l1_index_of(self.addr_spec() as int),
    {
        proof {
            lemma_parts(self.addr);
        }
        self.addr >> 20
    }

    /// Index into the second-level table.
    pub fn l2_index(&self) -> (r: usize)
        ensures
            r == l2_index_of(self.addr_spec() as int),
            r < 256,
    {
        proof {
            lemma_parts(self.addr);
        }
        (self.addr >> 12) & 0xff
    }

    /// Offset inside the page.
    pub fn page_offset(&self) -> (r: usize)
        ensures
            r == page_offset_of(self.addr_spec() as int),
            r < 0x1000,
    {
        proof {
            lemma_parts(self.addr);
        }
        self.addr & 0xfff
    }

    /// Moves the offset `bytes` further; fails once it leaves the mapped part of the
    /// address space, leaving the offset moved.
    pub fn try_add(&mut self, bytes: usize) -> (r: Result<(), Error>)
        requires
            old(self).addr_spec() + bytes <= usize::MAX,
        ensures
            final(self).addr_spec() == old(self).addr_spec() + bytes,
            r is Ok <==> final(self).addr_spec() < ADDRESS_SPACE_SIZE,
            r is Err ==> r == Err::<(), Error>(Error::OutOfRange),
    {
        self.addr = self.addr + bytes;
        if self.addr >= ADDRESS_SPACE_SIZE {
            Err(Error::OutOfRange)
        } else {
            Ok(())
        }
    }

    /// The offset.
    pub fn addr(&self) -> (r: usize)
        ensures
            r == self.addr_spec(),
    {
        self.addr
    }
}

/// An offset is its first-level index, second-level index and page offset put back
/// together, each in its own place.
pub proof fn law_parts_recompose(a: int)
    requires
        0 <= a,
    ensures
        l1_index_of(a) * 0x100000 + l2_index_of(a) * 0x1000 + page_offset_of(a) == a,
        0 <= l2_index_of(a) < 256,
        0 <= page_offset_of(a) < 0x1000,
{
    vstd::arithmetic::div_mod::lemma_fundamental_div_mod(a, 0x1000);
    let p = a / 0x1000;
    vstd::arithmetic::div_mod::lemma_fundamental_div_mod(p, 256);
    vstd::arithmetic::div_mod::lemma_div_denominator(a, 0x1000, 256);
    assert(p / 256 == a / 0x100000);
}

/// The shifts and masks of an address compute its table indices and page offset.
pub proof fn lemma_parts(a: usize)
    ensures
        (a >> 20usize) == a / 0x100000,
        ((a >> 12usize) & 0xff) == (a / 0x1000) % 256,
        (a & 0xfff) == a % 0x1000,
        ((a >> 12usize) & 0xff) < 256,
        (a & 0xfff) < 0x1000,
        (((a >> 12usize) & 0xff) << 12usize) <= 0xff000,
        (((a >> 12usize) & 0xff) << 12usize) + (a & 0xfff) == a % 0x100000,
{
    assert((((a >> 12usize) & 0xff) << 12usize) <= 0xff000) by (bit_vector);
    assert((((a >> 12usize) & 0xff) << 12usize) + (a & 0xfff) == a % 0x100000) by (bit_vector);
    assert((a >> 20usize) == a / 0x100000) by (bit_vector);
    assert(((a >> 12usize) & 0xff) == (a / 0x1000) % 256) by (bit_vector);
    assert((a & 0xfff) == a % 0x1000) by (bit_vector);
    assert(((a >> 12usize) & 0xff) < 256) by (bit_vector);
    assert((a & 0xfff) < 0x1000) by (bit_vector);
}

} // verus!
