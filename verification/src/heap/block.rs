use vstd::prelude::*;

use crate::num::{align_up_usize, lemma_align_up_bounds, AlignUp};

verus! {

/// Size in bytes of a free-list block header; every block size is a multiple of it.
pub const BLOCK_HEADER_SIZE: usize = 8;

/// Number of bytes to add to `addr` so that it becomes a multiple of `align`.
pub open spec fn align_offset_spec(addr: usize, align: usize) -> int {
    (align - addr % align) % (align as int)
}

/// Number of bytes to add to `addr` so that it becomes a multiple of `align`.
pub fn align_offset(addr: usize, align: usize) -> (r: usize)
    requires
        align > 0,
    ensures
        r == align_offset_spec(addr, align),
        r < align,
        (addr + r) % (align as int) == 0,
{
    let rem = addr % align;
    let r = (align - rem) % align;
    proof {
        lemma_align_offset(addr, align);
    }
    r
}

/// The offset is below the alignment and brings the address onto a multiple of it.
pub proof fn lemma_align_offset(addr: usize, align: usize)
    requires
        align > 0,
    ensures
        0 <= align_offset_spec(addr, align) < align,
        (addr + align_offset_spec(addr, align)) % (align as int) == 0,
        addr % align == 0 <==> align_offset_spec(addr, align) == 0,
{
    let a = align as int;
    let x = addr as int;
    let r = x % a;
    assert(0 <= r < a) by (nonlinear_arith)
        requires
            a > 0,
            r == x % a,
    ;
    if r == 0 {
        assert((a - r) % a == 0) by (nonlinear_arith)
            requires
                a > 0,
                r == 0,
        ;
        assert(x + 0 == x);
    } else {
        assert((a - r) % a == a - r) by (nonlinear_arith)
            requires
                0 < r < a,
        ;
        assert((x + (a - r)) % a == 0) by (nonlinear_arith)
            requires
                a > 0,
                r == x % a,
        {
            vstd::arithmetic::div_mod::lemma_fundamental_div_mod(x, a);
            vstd::arithmetic::div_mod::lemma_mod_multiples_basic(x / a + 1, a);
        }
    }
}

/// A non-zero byte count that is a multiple of the block header size.
#[derive(PartialEq, Eq, Structural, Clone, Copy, Debug)]
pub struct BlockSize {
    pub bytes: usize,
}

/// What `BlockSize::from` gives for a byte count: the count rounded up to a whole
/// number of block headers, or nothing when that is zero or no such multiple fits in a
/// `usize`.
pub open spec fn block_size_of(byte_size: usize) -> Option<BlockSize> {
    let rounded = align_up_usize(byte_size, BLOCK_HEADER_SIZE);
    if rounded == 0 || rounded % BLOCK_HEADER_SIZE != 0 {
        None
    } else {
        Some(BlockSize { bytes: rounded })
    }
}

impl BlockSize {
    /// A proper block size: non-zero and a whole number of block headers.
    pub open spec fn wf(self) -> bool {
        &&& self.bytes > 0
        &&& self.bytes % BLOCK_HEADER_SIZE == 0
    }

    /// Rounds `byte_size` up to a whole number of block headers; `None` for zero and
    /// where no whole number of block headers that large fits in a `usize`.
    pub fn from(byte_size: usize) -> (r: Option<BlockSize>)
        ensures
            r == block_size_of(byte_size),
            r.is_some() ==> r->0.wf(),
            r.is_some() ==> byte_size <= r->0.bytes,
    {
        let rounded = byte_size.align_up(BLOCK_HEADER_SIZE);
        proof {
            lemma_align_up_bounds(byte_size, BLOCK_HEADER_SIZE);
        }
        if rounded == 0 || rounded % BLOCK_HEADER_SIZE != 0 {
            None
        } else {
            Some(BlockSize { bytes: rounded })
        }
    }

    /// Number of block headers that fit in this size.
    pub fn block_count(&self) -> (r: usize)
        ensures
            r == self.bytes / BLOCK_HEADER_SIZE,
    {
        self.bytes / BLOCK_HEADER_SIZE
    }

    /// The size in bytes.
    pub fn byte_count(&self) -> (r: usize)
        ensures
            r == self.bytes,
    {
        self.bytes
    }

    /// The difference of two sizes; `None` when they are equal.
    pub fn sub(self, rhs: BlockSize) -> (r: Option<BlockSize>)
        requires
            rhs.bytes <= self.bytes,
        ensures
            self.bytes == rhs.bytes ==> r.is_none(),
            self.bytes != rhs.bytes ==> r == Some(BlockSize { bytes: (self.bytes - rhs.bytes) as usize }),
            self.wf() && rhs.wf() && r.is_some() ==> r->0.wf(),
    {
        let diff = self.bytes - rhs.bytes;
        if diff == 0 {
            None
        } else {
            Some(BlockSize { bytes: diff })
        }
    }

    /// The sum of two sizes.
    pub fn add(self, rhs: BlockSize) -> (r: BlockSize)
        requires
            self.wf(),
            rhs.wf(),
            self.bytes + rhs.bytes <= usize::MAX,
        ensures
            r.bytes == self.bytes + rhs.bytes,
            r.wf(),
    {
        let sum = self.bytes + rhs.bytes;
        let r = BlockSize::from(sum);
        proof {
            assert(sum % 8 == 0);
        }
        match r {
            Some(s) => s,
            None => BlockSize { bytes: sum },
        }
    }

    /// Grows this size by `rhs`.
    pub fn add_assign(&mut self, rhs: BlockSize)
        requires
            old(self).bytes + rhs.bytes <= usize::MAX,
            old(self).bytes > 0,
        ensures
            final(self).bytes == old(self).bytes + rhs.bytes,
    {
        self.bytes = self.bytes + rhs.bytes;
    }
}

/// The error of a layout whose alignment is not a power of two or whose size is too big.
#[derive(PartialEq, Eq, Structural, Clone, Copy, Debug)]
pub struct LayoutError;

/// Size and alignment of a requested allocation.
#[derive(PartialEq, Eq, Structural, Clone, Copy, Debug)]
pub struct Layout {
    pub size: usize,
    pub align: usize,
}

/// `n` is a power of two.
pub open spec fn is_power_of_two(n: usize) -> bool {
    n != 0 && n & ((n - 1) as usize) == 0
}

impl Layout {
    /// A valid layout: the alignment is a power of two and the size, rounded up to
    /// the alignment, does not exceed `isize::MAX`.
    pub open spec fn wf(self) -> bool {
        &&& is_power_of_two(self.align)
        &&& self.size <= isize::MAX - (self.align - 1)
    }

    /// Builds a layout, refusing an alignment that is not a power of two and a size
    /// that would exceed `isize::MAX` once rounded up to the alignment.
    pub fn from_size_align(size: usize, align: usize) -> (r: Result<Layout, LayoutError>)
        ensures
            r is Ok <==> (Layout { size, align }).wf(),
            r is Ok ==> r->Ok_0 == (Layout { size, align }),
    {
        if align == 0 {
            return Err(LayoutError);
        }
        if align & (align - 1) != 0 {
            return Err(LayoutError);
        }
        if align - 1 > isize::MAX as usize {
            return Err(LayoutError);
        }
        if size > isize::MAX as usize - (align - 1) {
            return Err(LayoutError);
        }
        Ok(Layout { size, align })
    }

    /// The requested size in bytes.
    pub fn size(&self) -> (r: usize)
        ensures
            r == self.size,
    {
        self.size
    }

    /// The requested alignment in bytes.
    pub fn align(&self) -> (r: usize)
        ensures
            r == self.align,
    {
        self.align
    }
}

/// A layout whose size and alignment are both block sizes.
#[derive(PartialEq, Eq, Structural, Clone, Copy, Debug)]
pub struct BlockLayout {
    pub size: BlockSize,
    pub align: BlockSize,
}

impl BlockLayout {
    /// Both the size and the alignment are proper block sizes.
    pub open spec fn wf(self) -> bool {
        &&& self.size.wf()
        &&& self.align.wf()
    }

    /// What `from` gives for a layout: size and alignment each rounded up to a block size.
    pub open spec fn of_layout(layout: Layout) -> BlockLayout {
        BlockLayout {
            size: BlockSize { bytes: align_up_usize(layout.size, BLOCK_HEADER_SIZE) },
            align: BlockSize { bytes: align_up_usize(layout.align, BLOCK_HEADER_SIZE) },
        }
    }

    /// Rounds the size and alignment of `layout` up to block sizes.
    pub fn from(layout: Layout) -> (r: BlockLayout)
        requires
            layout.wf(),
            layout.size > 0,
        ensures
            r == BlockLayout::of_layout(layout),
            r.wf(),
            layout.size <= r.size.bytes,
            layout.align <= r.align.bytes,
    {
        proof {
            lemma_align_up_bounds(layout.size, BLOCK_HEADER_SIZE);
            lemma_align_up_bounds(layout.align, BLOCK_HEADER_SIZE);
        }
        let size = BlockSize::from(layout.size);
        let align = BlockSize::from(layout.align);
        match (size, align) {
            (Some(size), Some(align)) => BlockLayout { size, align },
            _ => BlockLayout {
                size: BlockSize { bytes: BLOCK_HEADER_SIZE },
                align: BlockSize { bytes: BLOCK_HEADER_SIZE },
            },
        }
    }

    /// The size part.
    pub fn size(&self) -> (r: BlockSize)
        ensures
            r == self.size,
    {
        self.size
    }

    /// The alignment part.
    pub fn align(&self) -> (r: BlockSize)
        ensures
            r == self.align,
    {
        self.align
    }
}


/// A free block of memory: where it starts and how big it is.
#[derive(PartialEq, Eq, Structural, Clone, Copy, Debug)]
pub struct Block {
    pub addr: usize,
    pub size: BlockSize,
}

impl Block {
    /// First address past the block.
    pub open spec fn end(self) -> int {
        self.addr + self.size.bytes
    }

    /// A block that starts on a header boundary, has a proper size and fits the address space.
    pub open spec fn wf(self) -> bool {
        &&& self.size.wf()
        &&& self.addr % BLOCK_HEADER_SIZE == 0
        &&& self.end() <= usize::MAX
    }

    /// The header of a free block of `size` bytes at `addr`.
    pub fn init_at(addr: usize, size: BlockSize) -> (r: Block)
        ensures
            r == (Block { addr, size }),
    {
        Block { addr, size }
    }

    /// First address past the block.
    pub fn end_ptr(&self) -> (r: usize)
        requires
            self.end() <= usize::MAX,
        ensures
            r == self.end(),
    {
        self.addr + self.size.bytes
    }

    /// Takes in `next`, the block that follows: this block grows by its size.
    pub fn merge(&mut self, next: Block)
        requires
            old(self).size.wf(),
            next.size.wf(),
            old(self).size.bytes + next.size.bytes <= usize::MAX,
        ensures
            final(self).addr == old(self).addr,
            final(self).size.bytes == old(self).size.bytes + next.size.bytes,
            final(self).size.wf(),
    {
        self.size = self.size.add(next.size);
    }

    /// How an allocation of `layout` fits this block once its start is aligned: not at
    /// all, exactly (already aligned, same size), or with bytes to spare.
    pub fn check_fit(&self, layout: BlockLayout) -> (r: SizeFit)
        requires
            layout.align.bytes > 0,
            align_offset_spec(self.addr, layout.align.bytes) <= self.size.bytes,
        ensures
            r == fit_of(*self, layout),
    {
        let offset = align_offset(self.addr, layout.align.bytes);
        let size_after_align = self.size.bytes - offset;
        if size_after_align < layout.size.bytes {
            SizeFit::Misfit
        } else if size_after_align == layout.size.bytes && offset == 0 {
            SizeFit::Exact
        } else {
            SizeFit::Excess
        }
    }
}

/// How an allocation fits a block.
#[derive(PartialEq, Eq, Structural, Clone, Copy, Debug)]
pub enum SizeFit {
    Misfit,
    Exact,
    Excess,
}

/// How an allocation of `layout` fits block `b` once its start is aligned.
pub open spec fn fit_of(b: Block, layout: BlockLayout) -> SizeFit {
    let offset = align_offset_spec(b.addr, layout.align.bytes);
    let after = b.size.bytes - offset;
    if after < layout.size.bytes {
        SizeFit::Misfit
    } else if after == layout.size.bytes && offset == 0 {
        SizeFit::Exact
    } else {
        SizeFit::Excess
    }
}

/// How a block splits around an aligned sub-block: the bytes before it and after it.
#[derive(PartialEq, Eq, Structural, Clone, Copy, Debug)]
pub struct LogicalExtraction {
    pub prefix: Option<BlockSize>,
    pub suffix: Option<BlockSize>,
}

/// What `logical_extract` gives: `None` when the block cannot hold an aligned sub-block
/// of the layout's size, otherwise the sizes of what is left before and after it.
pub open spec fn logical_extract_spec(
    addr: usize,
    block_size: BlockSize,
    layout: BlockLayout,
) -> Option<LogicalExtraction> {
    let off = align_offset_spec(addr, layout.align.bytes);
    if off > block_size.bytes || block_size.bytes - off < layout.size.bytes {
        None
    } else {
        Some(
            LogicalExtraction {
                prefix: block_size_of(off as usize),
                suffix: block_size_of((block_size.bytes - off - layout.size.bytes) as usize),
            },
        )
    }
}

/// Address of the sub-block carved from `b` for `layout`: the first aligned address in it.
pub open spec fn extracted_addr(b: Block, layout: BlockLayout) -> int {
    b.addr + align_offset_spec(b.addr, layout.align.bytes)
}

/// The blocks that stay free once the sub-block for `layout` is carved from `b`:
/// the part before it and the part after it, each only when non-empty.
pub open spec fn remaining_blocks(b: Block, layout: BlockLayout) -> Seq<Block> {
    let off = align_offset_spec(b.addr, layout.align.bytes);
    let after = b.size.bytes - off - layout.size.bytes;
    let before_part = if off > 0 {
        seq![Block { addr: b.addr, size: BlockSize { bytes: off as usize } }]
    } else {
        Seq::empty()
    };
    let after_part = if after > 0 {
        seq![
            Block {
                addr: (b.addr + off + layout.size.bytes) as usize,
                size: BlockSize { bytes: after as usize },
            },
        ]
    } else {
        Seq::empty()
    };
    before_part + after_part
}

/// The result of carving a sub-block out of a free block.
pub struct ExtractionReult {
    /// Address of the carved sub-block.
    pub extracted: usize,
    /// The free blocks that take the place of the split block, in address order.
    pub remaining: Vec<Block>,
}

/// Splits a block of `block_size` bytes at `block` around the first address aligned
/// for `layout`; `None` when the aligned part is too small.
pub fn logical_extract(block: usize, block_size: BlockSize, layout: BlockLayout) -> (r: Option<
    LogicalExtraction,
>)
    requires
        layout.wf(),
    ensures
        r == logical_extract_spec(block, block_size, layout),
{
    let offset = align_offset(block, layout.align.bytes);
    let size_after_align = match block_size.bytes.checked_sub(offset) {
        Some(v) => v,
        None => return None,
    };
    let prefix = BlockSize::from(block_size.bytes - size_after_align);
    let rest = match size_after_align.checked_sub(layout.size.bytes) {
        Some(v) => v,
        None => return None,
    };
    let suffix = BlockSize::from(rest);
    Some(LogicalExtraction { prefix, suffix })
}

proof fn lemma_multiple_of_header_exact(x: usize)
    requires
        x % BLOCK_HEADER_SIZE == 0,
    ensures
        align_up_usize(x, BLOCK_HEADER_SIZE) == x,
{
}

/// The offset to an alignment that is a whole number of headers, from an address on a
/// header boundary, is itself a whole number of headers.
pub proof fn lemma_offset_whole_headers(addr: usize, align: usize)
    requires
        align > 0,
        align % BLOCK_HEADER_SIZE == 0,
        addr % BLOCK_HEADER_SIZE == 0,
    ensures
        align_offset_spec(addr, align) % (BLOCK_HEADER_SIZE as int) == 0,
{
    let a = align as int;
    let x = addr as int;
    let r = x % a;
    let q = x / a;
    let m = a / 8;
    vstd::arithmetic::div_mod::lemma_fundamental_div_mod(x, a);
    vstd::arithmetic::div_mod::lemma_fundamental_div_mod(a, 8);
    vstd::arithmetic::div_mod::lemma_mod_pos_bound(x, a);
    assert(x == a * q + r);
    assert(a == 8 * m);
    assert(a * q == 8 * (m * q)) by (nonlinear_arith)
        requires
            a == 8 * m,
    ;
    assert(r == x - 8 * (m * q));
    vstd::arithmetic::div_mod::lemma_mod_multiples_vanish(-(m * q), x, 8);
    assert(r % 8 == 0);
    if r == 0 {
        vstd::arithmetic::div_mod::lemma_mod_self_0(a);
        assert(align_offset_spec(addr, align) == 0);
    } else {
        vstd::arithmetic::div_mod::lemma_small_mod((a - r) as nat, a as nat);
        assert(align_offset_spec(addr, align) == a - r);
        vstd::arithmetic::div_mod::lemma_fundamental_div_mod(r, 8);
        assert(a - r == 8 * (m - r / 8));
        vstd::arithmetic::div_mod::lemma_mod_multiples_basic(m - r / 8, 8);
    }
}

/// Facts about the offset of an aligned sub-block of a well-formed block.
pub proof fn lemma_offset_is_whole_headers(b: Block, layout: BlockLayout)
    requires
        b.wf(),
        layout.wf(),
    ensures
        align_offset_spec(b.addr, layout.align.bytes) % (BLOCK_HEADER_SIZE as int) == 0,
        0 <= align_offset_spec(b.addr, layout.align.bytes) < layout.align.bytes,
        extracted_addr(b, layout) % (layout.align.bytes as int) == 0,
{
    lemma_align_offset(b.addr, layout.align.bytes);
    lemma_offset_whole_headers(b.addr, layout.align.bytes);
}

/// Carves the sub-block for `layout` out of the free block `block`, returning its address
/// and the blocks left free around it; `None` when it does not fit.
pub fn extract_block(block: &Block, layout: BlockLayout) -> (r: Option<ExtractionReult>)
    requires
        block.wf(),
        layout.wf(),
    ensures
        r.is_some() <==> logical_extract_spec(block.addr, block.size, layout).is_some(),
        r.is_some() ==> r->0.extracted == extracted_addr(*block, layout),
        r.is_some() ==> r->0.remaining@ == remaining_blocks(*block, layout),
{
    let le = logical_extract(block.addr, block.size, layout);
    let LogicalExtraction { prefix, suffix } = match le {
        Some(le) => le,
        None => return None,
    };
    proof {
        lemma_offset_is_whole_headers(*block, layout);
        lemma_align_offset(block.addr, layout.align.bytes);
    }
    let ghost off = align_offset_spec(block.addr, layout.align.bytes);
    let ghost after = block.size.bytes - off - layout.size.bytes;
    proof {
        assert(after % 8 == 0);
        lemma_multiple_of_header_exact(off as usize);
        lemma_multiple_of_header_exact(after as usize);
    }
    let mut remaining: Vec<Block> = Vec::new();
    let result = match (prefix, suffix) {
        (None, None) => ExtractionReult { extracted: block.addr, remaining },
        (Some(prefix_size), None) => {
            let extracted = block.addr + prefix_size.bytes;
            remaining.push(Block { addr: block.addr, size: prefix_size });
            ExtractionReult { extracted, remaining }
        },
        (None, Some(suffix_size)) => {
            let rest = block.addr + layout.size.bytes;
            remaining.push(Block { addr: rest, size: suffix_size });
            ExtractionReult { extracted: block.addr, remaining }
        },
        (Some(prefix_size), Some(suffix_size)) => {
            let extracted = block.addr + prefix_size.bytes;
            let suffix_addr = extracted + layout.size.bytes;
            remaining.push(Block { addr: block.addr, size: prefix_size });
            remaining.push(Block { addr: suffix_addr, size: suffix_size });
            ExtractionReult { extracted, remaining }
        },
    };
    assert(result.remaining@ =~= remaining_blocks(*block, layout));
    Some(result)
}

} // verus!
