use vstd::prelude::*;

use crate::heap::block::Layout;
use crate::num::{align_up_usize, AlignUp};

verus! {

/// Bytes of a free-list node of the page allocator: a link and a size, one word each.
pub open spec fn node_size() -> usize {
    (usize::BITS / 4) as usize
}

/// Bytes of a free-list node of the page allocator.
pub fn node_bytes() -> (r: usize)
    ensures
        r == node_size(),
        r == 8 || r == 16,
{
    (usize::BITS / 4) as usize
}

/// An allocation size of the page allocator, in bytes: a multiple of the node size.
#[derive(PartialEq, Eq, Structural, Clone, Copy, Debug)]
pub struct BlockSize {
    pub bytes: usize,
}

impl BlockSize {
    /// `byte_size` rounded up to a whole number of nodes (saturating at the largest
    /// value).
    pub fn from(byte_size: usize) -> (r: BlockSize)
        ensures
            r.bytes == align_up_usize(byte_size, node_size()),
    {
        let node = node_bytes();
        BlockSize { bytes: AlignUp::align_up(byte_size, node) }
    }

    /// A size of `byte_size` bytes, taken as it is.
    pub fn from_unchecked(byte_size: usize) -> (r: BlockSize)
        ensures
            r.bytes == byte_size,
    {
        BlockSize { bytes: byte_size }
    }

    /// The number of nodes this size spans.
    pub fn block_count(&self) -> (r: usize)
        ensures
            r == self.bytes / node_size(),
    {
        self.bytes / node_bytes()
    }

    /// The size in bytes.
    pub fn byte_count(&self) -> (r: usize)
        ensures
            r == self.bytes,
    {
        self.bytes
    }

    /// Shrinks this size by `rhs`.
    pub fn sub_assign(&mut self, rhs: BlockSize)
        requires
            old(self).bytes >= rhs.bytes,
        ensures
            final(self).bytes == old(self).bytes - rhs.bytes,
    {
        self.bytes = self.bytes - rhs.bytes;
    }
}

/// A free block of the page allocator: where it starts and how big it is.
#[derive(PartialEq, Eq, Structural, Clone, Copy, Debug)]
pub struct FreeBlock {
    pub addr: usize,
    pub size: BlockSize,
}

/// What a search of the free list found: a block of exactly the size (by its address),
/// the first bigger block (by its place in the list), or nothing.
#[derive(PartialEq, Eq, Structural, Clone, Copy, Debug)]
pub enum BlockMatch {
    Exact(usize),
    Bigger(usize),
    NotFound,
}

/// Index of the first block of at least `size` bytes, if any.
pub open spec fn first_at_least(s: Seq<FreeBlock>, size: usize) -> Option<int> {
    if exists|i: int| 0 <= i < s.len() && s[i].size.bytes >= size {
        Some(
            choose|i: int|
                0 <= i < s.len() && s[i].size.bytes >= size && forall|j: int|
                    0 <= j < i ==> s[j].size.bytes < size,
        )
    } else {
        None
    }
}

/// The size the page allocator reserves for `layout`: the larger of its size and its
/// alignment, rounded up to whole nodes.
pub open spec fn size_for(layout: Layout) -> usize {
    let m = if layout.size >= layout.align {
        layout.size
    } else {
        layout.align
    };
    align_up_usize(m, node_size())
}

/// What the page allocator reserves for a layout holds both its size and its alignment.
pub proof fn law_size_for_covers(layout: Layout)
    ensures
        size_for(layout) >= layout.size,
        size_for(layout) >= layout.align,
{
    let m = if layout.size >= layout.align {
        layout.size
    } else {
        layout.align
    };
    crate::num::lemma_align_up_bounds(m, node_size());
}

/// The page allocator: a bump region `[curr, end)` and a list of freed blocks.
pub struct AllocatorImpl {
    pub curr: usize,
    pub end: usize,
    pub free_list: Vec<FreeBlock>,
}

impl AllocatorImpl {
    /// Takes memory for `layout` from the freed blocks: a block of exactly the size, or
    /// the end of the first bigger one. The bump region is not used by this allocator,
    /// so some freed block must be big enough.
    pub fn allocate(&mut self, layout: Layout) -> (r: usize)
        requires
            first_at_least(old(self).free_list@, size_for(layout)) is Some,
            forall|j: int|
                0 <= j < old(self).free_list@.len() ==> #[trigger] old(self).free_list@[j].addr
                    + old(self).free_list@[j].size.bytes <= usize::MAX,
        ensures
            ({
                let i = first_at_least(old(self).free_list@, size_for(layout))->0;
                let b = old(self).free_list@[i];
                if b.size.bytes == size_for(layout) {
                    &&& r == b.addr
                    &&& final(self).free_list@ == old(self).free_list@.remove(i)
                } else {
                    &&& r == b.addr + b.size.bytes - size_for(layout)
                    &&& final(self).free_list@ == old(self).free_list@.update(
                        i,
                        FreeBlock {
                            addr: b.addr,
                            size: BlockSize { bytes: (b.size.bytes - size_for(layout)) as usize },
                        },
                    )
                }
            }),
            final(self).curr == old(self).curr,
            final(self).end == old(self).end,
            exists|i: int|
                0 <= i < old(self).free_list@.len() && #[trigger] old(self).free_list@[i].addr <= r
                    && r + layout.size <= old(self).free_list@[i].addr + old(self).free_list@[i].size.bytes
                    && r + layout.align <= old(self).free_list@[i].addr + old(self).free_list@[i].size.bytes,
    {
        proof {
            law_size_for_covers(layout);
            let i = first_at_least(old(self).free_list@, size_for(layout))->0;
            assert(old(self).free_list@[i].addr <= old(self).free_list@[i].addr);
        }
        let m = if layout.size >= layout.align {
            layout.size
        } else {
            layout.align
        };
        let size = BlockSize::from(m);
        match self.look_for_freed_block(size) {
            BlockMatch::Exact(block) => block,
            BlockMatch::Bigger(i) => self.extract_block(i, size),
            BlockMatch::NotFound => {
                proof {
                    assert(false);
                }
                0
            },
        }
    }

    /// Looks for the first freed block at least `size` big. A block of exactly the size
    /// is taken off the list.
    pub fn look_for_freed_block(&mut self, size: BlockSize) -> (r: BlockMatch)
        ensures
            final(self).curr == old(self).curr,
            final(self).end == old(self).end,
            match first_at_least(old(self).free_list@, size.bytes) {
                None => r == BlockMatch::NotFound && final(self).free_list@ == old(self).free_list@,
                Some(i) => 0 <= i < old(self).free_list@.len() && old(self).free_list@[i].size.bytes
                    >= size.bytes && if old(self).free_list@[i].size.bytes == size.bytes {
                    &&& r == BlockMatch::Exact(old(self).free_list@[i].addr)
                    &&& final(self).free_list@ == old(self).free_list@.remove(i)
                } else {
                    &&& r matches BlockMatch::Bigger(j) && j == i
                    &&& final(self).free_list@ == old(self).free_list@
                },
            },
    {
        let mut i: usize = 0;
        while i < self.free_list.len()
            invariant
                i <= self.free_list@.len(),
                self.free_list@ == old(self).free_list@,
                self.curr == old(self).curr,
                self.end == old(self).end,
                forall|j: int| 0 <= j < i ==> self.free_list@[j].size.bytes < size.bytes,
            decreases self.free_list@.len() - i,
        {
            let current = self.free_list[i];
            if current.size.bytes >= size.bytes {
                proof {
                    let s = self.free_list@;
                    let k = first_at_least(s, size.bytes)->0;
                    assert(k == i as int) by {
                        if k < i {
                            assert(s[k].size.bytes < size.bytes);
                        }
                        if k > i {
                            assert(s[i as int].size.bytes >= size.bytes);
                        }
                    }
                }
                if current.size.bytes > size.bytes {
                    return BlockMatch::Bigger(i);
                }
                self.free_list.remove(i);
                return BlockMatch::Exact(current.addr);
            }
            i = i + 1;
        }
        BlockMatch::NotFound
    }

    /// Cuts `size` bytes off the end of free block `i` and gives their address.
    pub fn extract_block(&mut self, i: usize, size: BlockSize) -> (r: usize)
        requires
            i < old(self).free_list@.len(),
            old(self).free_list@[i as int].size.bytes > size.bytes,
            old(self).free_list@[i as int].addr + old(self).free_list@[i as int].size.bytes
                <= usize::MAX,
        ensures
            r == old(self).free_list@[i as int].addr + old(self).free_list@[i as int].size.bytes
                - size.bytes,
            final(self).free_list@ == old(self).free_list@.update(
                i as int,
                FreeBlock {
                    addr: old(self).free_list@[i as int].addr,
                    size: BlockSize {
                        bytes: (old(self).free_list@[i as int].size.bytes - size.bytes) as usize,
                    },
                },
            ),
            final(self).curr == old(self).curr,
            final(self).end == old(self).end,
    {
        let block = self.free_list[i];
        let extracted = block.addr + block.size.bytes - size.bytes;
        let mut shrunk = block;
        shrunk.size.sub_assign(size);
        self.free_list.set(i, shrunk);
        extracted
    }

    /// Takes `size` bytes from the bump region, whose next address must already be
    /// aligned to the size.
    pub fn do_alloc(&mut self, size: BlockSize) -> (r: usize)
        requires
            size.bytes > 0,
            size.bytes <= isize::MAX,
            old(self).curr % size.bytes == 0,
            old(self).curr + size.bytes <= usize::MAX,
        ensures
            r == old(self).curr,
            final(self).curr == old(self).curr + size.bytes,
            final(self).end == old(self).end,
            final(self).free_list@ == old(self).free_list@,
    {
        let ptr = self.curr;
        self.bump_curr(size);
        ptr
    }

    /// Moves the bump pointer past `size` bytes.
    pub fn bump_curr(&mut self, size: BlockSize)
        requires
            size.bytes > 0,
            size.bytes <= isize::MAX,
            old(self).curr + size.bytes <= usize::MAX,
        ensures
            final(self).curr == old(self).curr + size.bytes,
            final(self).end == old(self).end,
            final(self).free_list@ == old(self).free_list@,
    {
        let new_curr = self.curr + size.bytes;
        self.curr = new_curr;
    }
}

/// A physical frame for page tables; this allocator has none to give and answers 0.
pub fn alloc_frame() -> (r: usize)
    ensures
        r == 0,
{
    0
}

/// Gives a frame back; this allocator keeps no frames, so nothing changes.
pub fn free_frame(frame: usize) {
}

} // verus!
