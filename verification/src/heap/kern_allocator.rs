use vstd::prelude::*;

use crate::error::Error;
use crate::heap::block::{
    align_offset, align_offset_spec, block_size_of, extract_block, extracted_addr,
    lemma_align_offset, logical_extract_spec, remaining_blocks, Block, BlockLayout, BlockSize,
    Layout, BLOCK_HEADER_SIZE,
};
use crate::heap::free_list::{
    blocks_below, free_list_wf, in_free, insertion_index, joined, lemma_in_free_concat,
    lemma_insertion_index, lemma_merge_into_below, lemma_merge_into_cover, lemma_merge_into_wf,
    lemma_splice_extract, lemma_splice_extract_cover, merge_into, no_overlap, splice,
};
use crate::num::align_up_usize;

verus! {

/// The block `b` can hold an aligned sub-block of `layout`.
pub open spec fn fits(b: Block, layout: BlockLayout) -> bool {
    logical_extract_spec(b.addr, b.size, layout).is_some()
}

/// Block `i` is the first block of the list that can hold `layout`.
pub open spec fn is_first_fit(s: Seq<Block>, layout: BlockLayout, i: int) -> bool {
    &&& 0 <= i < s.len()
    &&& fits(s[i], layout)
    &&& forall|j: int| 0 <= j < i ==> !fits(#[trigger] s[j], layout)
}

/// Some block of the list can hold `layout`.
pub open spec fn any_fit(s: Seq<Block>, layout: BlockLayout) -> bool {
    exists|i: int| 0 <= i < s.len() && fits(#[trigger] s[i], layout)
}

/// Index of the first block of the list that can hold `layout`.
pub open spec fn first_fit(s: Seq<Block>, layout: BlockLayout) -> int {
    choose|i: int| is_first_fit(s, layout, i)
}

proof fn lemma_first_fit_unique(s: Seq<Block>, layout: BlockLayout, i: int)
    requires
        is_first_fit(s, layout, i),
    ensures
        first_fit(s, layout) == i,
        any_fit(s, layout),
{
    let k = first_fit(s, layout);
    assert(is_first_fit(s, layout, k));
    if k < i {
        assert(!fits(s[k], layout));
    }
    if i < k {
        assert(!fits(s[i], layout));
    }
}

/// What is left of a carved sub-block after it is rounded for the alignment it needs.
#[derive(PartialEq, Eq, Structural, Clone, Copy, Debug)]
pub struct AlignmentReduction {
    /// How much the block shrinks.
    pub total: BlockSize,
    /// How much of that is more than the requested size.
    pub excess: Option<BlockSize>,
}

/// The difference of two byte counts as an optional block size.
pub open spec fn size_diff(a: int, b: int) -> Option<BlockSize> {
    if a == b {
        None
    } else {
        Some(BlockSize { bytes: (a - b) as usize })
    }
}

/// How much a block at `ptr` has to give up at its end so that an allocation of `size`
/// bytes carved from its end is aligned to `align`, and how much of that is excess.
pub open spec fn reduction_for_layout(
    ptr: usize,
    size: BlockSize,
    align: BlockSize,
) -> AlignmentReduction {
    let aligned = align_up_usize(size.bytes, align.bytes);
    let off = block_size_of(align_offset_spec(ptr, align.bytes) as usize);
    if off.is_none() || off->0.bytes == align.bytes {
        AlignmentReduction { total: BlockSize { bytes: aligned }, excess: size_diff(aligned as int, size.bytes as int) }
    } else {
        let r = align.bytes - off->0.bytes;
        if r < size.bytes {
            let total = if size.bytes <= align.bytes {
                align.bytes + r
            } else {
                aligned + r
            };
            AlignmentReduction { total: BlockSize { bytes: total as usize }, excess: size_diff(total, size.bytes as int) }
        } else if r == size.bytes {
            AlignmentReduction { total: BlockSize { bytes: r as usize }, excess: None }
        } else {
            AlignmentReduction { total: BlockSize { bytes: r as usize }, excess: size_diff(r, size.bytes as int) }
        }
    }
}

/// Allocating `layout` succeeds from an allocator with bump pointer `curr`, free
/// blocks `free` and end `end`: some free block can hold it, or it fits in the bump
/// region once the bump pointer is aligned.
pub open spec fn can_allocate_from(curr: usize, free: Seq<Block>, end: usize, layout: Layout) -> bool {
    let bl = BlockLayout::of_layout(layout);
    let aligned = curr + align_offset_spec(curr, bl.align.bytes);
    ||| any_fit(free, bl)
    ||| aligned <= usize::MAX && bl.size.bytes <= isize::MAX && aligned + bl.size.bytes <= end
}

/// The bump pointer and the free blocks after allocating `layout` from an allocator
/// with bump pointer `curr`, free blocks `free` and end `end`, whether or not the
/// allocation succeeds.
pub open spec fn state_after_from(curr: usize, free: Seq<Block>, end: usize, layout: Layout) -> (
    usize,
    Seq<Block>,
) {
    let bl = BlockLayout::of_layout(layout);
    if any_fit(free, bl) {
        let i = first_fit(free, bl);
        (curr, splice(free, i, remaining_blocks(free[i], bl)))
    } else {
        let off = align_offset_spec(curr, bl.align.bytes);
        let aligned = curr + off;
        let freed = if off > 0 {
            merge_into(free, Block { addr: curr, size: BlockSize { bytes: off as usize } })
        } else {
            free
        };
        if aligned > end {
            (curr, free)
        } else if bl.size.bytes > isize::MAX || aligned + bl.size.bytes > end {
            (aligned as usize, freed)
        } else {
            ((aligned + bl.size.bytes) as usize, freed)
        }
    }
}

/// The bump pointer and free blocks after `m` allocations of `layout` in a row.
pub open spec fn state_after_seq(curr: usize, free: Seq<Block>, end: usize, layout: Layout, m: nat) -> (
    usize,
    Seq<Block>,
)
    decreases m,
{
    if m == 0 {
        (curr, free)
    } else {
        let s = state_after_seq(curr, free, end, layout, (m - 1) as nat);
        state_after_from(s.0, s.1, end, layout)
    }
}

/// `m` allocations of `layout` in a row all succeed.
pub open spec fn can_allocate_seq(curr: usize, free: Seq<Block>, end: usize, layout: Layout, m: nat) -> bool
    decreases m,
{
    if m == 0 {
        true
    } else {
        let s = state_after_seq(curr, free, end, layout, (m - 1) as nat);
        can_allocate_seq(curr, free, end, layout, (m - 1) as nat) && can_allocate_from(s.0, s.1, end, layout)
    }
}

/// Fewer allocations in a row succeed whenever more do.
pub proof fn lemma_can_allocate_seq_prefix(
    curr: usize,
    free: Seq<Block>,
    end: usize,
    layout: Layout,
    m: nat,
    m2: nat,
)
    requires
        m <= m2,
        can_allocate_seq(curr, free, end, layout, m2),
    ensures
        can_allocate_seq(curr, free, end, layout, m),
    decreases m2,
{
    if m < m2 {
        lemma_can_allocate_seq_prefix(curr, free, end, layout, m, (m2 - 1) as nat);
    }
}

/// One allocation in a row is a single allocation.
pub proof fn lemma_seq_one(curr: usize, free: Seq<Block>, end: usize, layout: Layout)
    ensures
        state_after_seq(curr, free, end, layout, 0) == (curr, free),
        state_after_seq(curr, free, end, layout, 1) == state_after_from(curr, free, end, layout),
        can_allocate_seq(curr, free, end, layout, 0),
        can_allocate_seq(curr, free, end, layout, 1) == can_allocate_from(curr, free, end, layout),
{
    assert(state_after_seq(curr, free, end, layout, 0) == (curr, free));
}

/// `m1` allocations in a row followed by `m2` more are `m1 + m2` allocations in a row:
/// they end in the same state, and all succeed exactly when both runs do.
pub proof fn lemma_seq_split(curr: usize, free: Seq<Block>, end: usize, layout: Layout, m1: nat, m2: nat)
    ensures
        ({
            let s = state_after_seq(curr, free, end, layout, m1);
            &&& state_after_seq(s.0, s.1, end, layout, m2) == state_after_seq(curr, free, end, layout, m1 + m2)
            &&& (can_allocate_seq(curr, free, end, layout, m1) && can_allocate_seq(s.0, s.1, end, layout, m2))
                == can_allocate_seq(curr, free, end, layout, m1 + m2)
        }),
    decreases m2,
{
    let s = state_after_seq(curr, free, end, layout, m1);
    if m2 == 0 {
        assert(state_after_seq(s.0, s.1, end, layout, 0) == (s.0, s.1));
        assert(m1 + m2 == m1);
    } else {
        lemma_seq_split(curr, free, end, layout, m1, (m2 - 1) as nat);
        assert((m1 + m2 - 1) as nat == m1 + (m2 - 1) as nat);
    }
}

/// Bump allocator over `[curr, end)` with a free list of returned blocks.
pub struct KernAlloctor {
    curr: usize,
    end: usize,
    free_list: Vec<Block>,
}

impl KernAlloctor {
    /// The next address that has never been handed out.
    pub closed spec fn curr_addr(&self) -> usize {
        self.curr
    }

    /// The end of the memory this allocator manages.
    pub closed spec fn end_addr(&self) -> usize {
        self.end
    }

    /// The free blocks, in address order.
    pub closed spec fn free_blocks(&self) -> Seq<Block> {
        self.free_list@
    }

    /// The allocator's invariant: a well-formed free list below the bump pointer, which
    /// is non-zero, on a block boundary and not past the end.
    pub closed spec fn wf(&self) -> bool {
        &&& free_list_wf(self.free_list@)
        &&& blocks_below(self.free_list@, self.curr as int)
        &&& self.curr % BLOCK_HEADER_SIZE == 0
        &&& self.curr > 0
        &&& self.curr <= self.end
    }

    /// Address `x` may be handed out: it is in a free block or at or after the bump pointer.
    pub open spec fn available(&self, x: int) -> bool {
        in_free(self.free_blocks(), x) || self.curr_addr() <= x
    }

    /// Every address that may be handed out is at least `bound`.
    pub open spec fn available_above(&self, bound: int) -> bool {
        forall|x: int| #[trigger] self.available(x) ==> x >= bound
    }

    /// An allocator for the memory `[start, end)`, with nothing handed out yet.
    pub fn new(start: usize, end: usize) -> (r: Self)
        requires
            start != 0,
            start % BLOCK_HEADER_SIZE == 0,
            start <= end,
        ensures
            r.wf(),
            r.curr_addr() == start,
            r.end_addr() == end,
            r.free_blocks() == Seq::<Block>::empty(),
    {
        KernAlloctor { curr: start, end, free_list: Vec::new() }
    }

    /// The next address that has never been handed out.
    pub fn curr(&self) -> (r: usize)
        ensures
            r == self.curr_addr(),
    {
        self.curr
    }

    /// The end of the memory this allocator manages.
    pub fn end(&self) -> (r: usize)
        ensures
            r == self.end_addr(),
    {
        self.end
    }

    /// The free blocks, in address order.
    pub fn free_list(&self) -> (r: &Vec<Block>)
        ensures
            r@ == self.free_blocks(),
    {
        &self.free_list
    }

    /// Allocates memory for `layout`: from the first free block that can hold it, or
    /// else from the bump region. The returned address is aligned as asked, and exactly
    /// the bytes it covers stop being available.
    pub fn allocate(&mut self, layout: Layout) -> (r: Result<usize, Error>)
        requires
            old(self).wf(),
            layout.wf(),
            layout.size > 0,
        ensures
            final(self).wf(),
            final(self).end_addr() == old(self).end_addr(),
            r is Ok <==> old(self).can_allocate(layout),
            (final(self).curr_addr(), final(self).free_blocks()) == old(self).state_after(layout),
            any_fit(old(self).free_blocks(), BlockLayout::of_layout(layout)) ==> {
                let bl = BlockLayout::of_layout(layout);
                let i = first_fit(old(self).free_blocks(), bl);
                &&& r == Ok::<usize, Error>(extracted_addr(old(self).free_blocks()[i], bl) as usize)
                &&& final(self).free_blocks() == splice(
                    old(self).free_blocks(),
                    i,
                    remaining_blocks(old(self).free_blocks()[i], bl),
                )
                &&& final(self).curr_addr() == old(self).curr_addr()
            },
            !any_fit(old(self).free_blocks(), BlockLayout::of_layout(layout))
                ==> old(self).bump_result(BlockLayout::of_layout(layout), r, *final(self)),
            match r {
                Ok(p) => {
                    &&& p % layout.align == 0
                    &&& p + BlockLayout::of_layout(layout).size.bytes <= final(self).curr_addr()
                    &&& p + BlockLayout::of_layout(layout).size.bytes <= old(self).end_addr()
                    &&& forall|x: int|
                        p <= x < p + BlockLayout::of_layout(layout).size.bytes ==> #[trigger] old(
                            self,
                        ).available(x)
                    &&& forall|x: int|
                        #[trigger] final(self).available(x) <==> old(self).available(x) && !(p <= x
                            < p + BlockLayout::of_layout(layout).size.bytes)
                },
                Err(e) => {
                    &&& e == Error::OutOfMem
                    &&& forall|x: int| #[trigger]
                        final(self).available(x) <==> old(self).available(x)
                },
            },
    {
        let layout_blocks = BlockLayout::from(layout);
        proof {
            lemma_layout_align_divides(layout.align);
        }
        let ghost before = *self;
        let ptr = match self.look_for_freed_block(layout_blocks) {
            Some(block) => {
                assert forall|x: int|
                    #[trigger] self.available(x) <==> before.available(x) && !(block <= x < block
                        + layout_blocks.size.bytes) by {}
                assert forall|x: int| block <= x < block + layout_blocks.size.bytes implies #[trigger] before.available(x) by {
                    assert(in_free(before.free_list@, x));
                }
                block
            },
            None => self.do_alloc(layout_blocks)?,
        };
        proof {
            lemma_mod_of_multiple(ptr as int, layout_blocks.align.bytes as int, layout.align as int);
        }
        Ok(ptr)
    }

    /// Allocating `layout` succeeds: some free block can hold it, or it fits in the bump
    /// region once the bump pointer is aligned.
    pub open spec fn can_allocate(self, layout: Layout) -> bool {
        can_allocate_from(self.curr_addr(), self.free_blocks(), self.end_addr(), layout)
    }

    /// The bump pointer and the free blocks after allocating `layout`, whether or not
    /// the allocation succeeds.
    pub open spec fn state_after(self, layout: Layout) -> (usize, Seq<Block>) {
        state_after_from(self.curr_addr(), self.free_blocks(), self.end_addr(), layout)
    }

    /// The exact outcome of allocating `layout` from the bump region: the bump pointer is
    /// first moved up to the alignment, the skipped bytes are freed, and then the size is
    /// taken if it fits before the end; when the alignment alone passes the end, nothing
    /// changes.
    pub open spec fn bump_result(self, layout: BlockLayout, r: Result<usize, Error>, after: Self) -> bool {
        let curr = self.curr_addr();
        let off = align_offset_spec(curr, layout.align.bytes);
        let aligned = curr + off;
        let freed = if off > 0 {
            merge_into(self.free_blocks(), Block { addr: curr, size: BlockSize { bytes: off as usize } })
        } else {
            self.free_blocks()
        };
        if aligned > self.end_addr() {
            &&& r == Err::<usize, Error>(Error::OutOfMem)
            &&& after.curr_addr() == curr
            &&& after.free_blocks() == self.free_blocks()
        } else if layout.size.bytes > isize::MAX || aligned + layout.size.bytes > self.end_addr() {
            &&& r == Err::<usize, Error>(Error::OutOfMem)
            &&& after.curr_addr() == aligned
            &&& after.free_blocks() == freed
        } else {
            &&& r == Ok::<usize, Error>(aligned as usize)
            &&& after.curr_addr() == aligned + layout.size.bytes
            &&& after.free_blocks() == freed
        }
    }

    /// Looks for the first free block that can hold `layout`; carves the sub-block out
    /// of it, leaving the rest of it free, and returns its address.
    fn look_for_freed_block(&mut self, layout: BlockLayout) -> (r: Option<usize>)
        requires
            old(self).wf(),
            layout.wf(),
        ensures
            final(self).wf(),
            final(self).curr == old(self).curr,
            final(self).end == old(self).end,
            r.is_some() <==> any_fit(old(self).free_list@, layout),
            r.is_some() ==> {
                let i = first_fit(old(self).free_list@, layout);
                &&& r->0 == extracted_addr(old(self).free_list@[i], layout)
                &&& final(self).free_list@ == splice(
                    old(self).free_list@,
                    i,
                    remaining_blocks(old(self).free_list@[i], layout),
                )
                &&& forall|x: int|
                    #[trigger] in_free(final(self).free_list@, x) <==> in_free(old(self).free_list@, x)
                        && !(r->0 <= x < r->0 + layout.size.bytes)
                &&& forall|x: int|
                    r->0 <= x < r->0 + layout.size.bytes ==> #[trigger] in_free(old(self).free_list@, x)
                &&& r->0 % layout.align.bytes == 0
                &&& r->0 + layout.size.bytes <= old(self).curr
            },
            r.is_none() ==> final(self).free_list@ == old(self).free_list@,
    {
        let mut i: usize = 0;
        while i < self.free_list.len()
            invariant
                self.wf(),
                layout.wf(),
                self.curr == old(self).curr,
                self.end == old(self).end,
                self.free_list@ == old(self).free_list@,
                0 <= i <= self.free_list.len(),
                forall|j: int| 0 <= j < i ==> !fits(#[trigger] self.free_list@[j], layout),
            decreases self.free_list.len() - i,
        {
            assert(self.free_list@[i as int].wf());
            match extract_block(&self.free_list[i], layout) {
                Some(res) => {
                    let ghost s = self.free_list@;
                    proof {
                        lemma_first_fit_unique(s, layout, i as int);
                        lemma_splice_extract(s, i as int, layout);
                        crate::heap::block::lemma_offset_is_whole_headers(s[i as int], layout);
                    }
                    self.free_list.remove(i);
                    let mut k = res.remaining.len();
                    while k > 0
                        invariant
                            0 <= k <= res.remaining.len(),
                            i < s.len(),
                            res.remaining@ == remaining_blocks(s[i as int], layout),
                            self.curr == old(self).curr,
                            self.end == old(self).end,
                            self.free_list@ == s.take(i as int) + res.remaining@.skip(k as int) + s.skip(
                                i + 1,
                            ),
                        decreases k,
                    {
                        k = k - 1;
                        let blk = res.remaining[k];
                        self.free_list.insert(i, blk);
                        assert(self.free_list@ =~= s.take(i as int) + res.remaining@.skip(k as int)
                            + s.skip(i + 1));
                    }
                    assert(self.free_list@ =~= splice(s, i as int, remaining_blocks(s[i as int], layout)));
                    proof {
                        assert forall|x: int|
                            #[trigger] in_free(self.free_list@, x) <==> in_free(s, x) && !(res.extracted
                                <= x < res.extracted + layout.size.bytes) by {
                            lemma_splice_extract_cover(s, i as int, layout, x);
                        }
                    }
                    return Some(res.extracted);
                },
                None => {},
            }
            i += 1;
        }
        proof {
            if any_fit(self.free_list@, layout) {
                let k = choose|k: int| 0 <= k < self.free_list@.len() && fits(#[trigger] self.free_list@[k], layout);
                assert(!fits(self.free_list@[k], layout));
            }
        }
        None
    }

    /// Takes `layout` from the bump region, first moving the bump pointer up to the
    /// alignment and freeing the bytes it skips.
    fn do_alloc(&mut self, layout: BlockLayout) -> (r: Result<usize, Error>)
        requires
            old(self).wf(),
            layout.wf(),
        ensures
            final(self).wf(),
            final(self).end == old(self).end,
            old(self).bump_result(layout, r, *final(self)),
            match r {
                Ok(p) => {
                    &&& p % layout.align.bytes == 0
                    &&& p + layout.size.bytes == final(self).curr
                    &&& forall|x: int| p <= x < p + layout.size.bytes ==> #[trigger] old(self).available(x)
                    &&& forall|x: int|
                        #[trigger] final(self).available(x) <==> old(self).available(x) && !(p <= x
                            < p + layout.size.bytes)
                },
                Err(e) => {
                    &&& e == Error::OutOfMem
                    &&& forall|x: int| #[trigger]
                        final(self).available(x) <==> old(self).available(x)
                },
            },
    {
        let ghost before = *self;
        if !self.force_alignment(layout.align) {
            return Err(Error::OutOfMem);
        }
        let ghost aligned = *self;
        let ptr = self.curr;
        match self.bump_curr(layout.size) {
            Ok(()) => {},
            Err(e) => {
                assert(forall|x: int| #[trigger] self.available(x) <==> aligned.available(x));
                return Err(e);
            },
        }
        assert forall|x: int|
            #[trigger] self.available(x) <==> aligned.available(x) && !(ptr <= x < ptr
                + layout.size.bytes) by {}
        assert forall|x: int| ptr <= x < ptr + layout.size.bytes implies #[trigger] before.available(x) by {
            assert(aligned.available(x));
        }
        Ok(ptr)
    }

    /// Moves the bump pointer up to a multiple of `size`, freeing the bytes it skips.
    /// Returns `false`, changing nothing, when that would pass the end of the managed
    /// memory.
    fn force_alignment(&mut self, size: BlockSize) -> (moved: bool)
        requires
            old(self).wf(),
            size.wf(),
        ensures
            final(self).wf(),
            final(self).end == old(self).end,
            ({
                let off = align_offset_spec(old(self).curr, size.bytes);
                &&& moved <==> old(self).curr + off <= old(self).end
                &&& moved ==> final(self).curr == old(self).curr + off
                &&& moved ==> final(self).curr % size.bytes == 0
                &&& moved && off > 0 ==> final(self).free_list@ == merge_into(
                    old(self).free_list@,
                    Block { addr: old(self).curr, size: BlockSize { bytes: off as usize } },
                )
                &&& moved && off == 0 ==> final(self).free_list@ == old(self).free_list@
                &&& !moved ==> final(self).curr == old(self).curr && final(self).free_list@ == old(
                    self,
                ).free_list@
            }),
            forall|x: int| #[trigger] final(self).available(x) <==> old(self).available(x),
    {
        proof {
            lemma_align_offset(self.curr, size.bytes);
        }
        if self.curr % size.bytes != 0 {
            let bytes = align_offset(self.curr, size.bytes);
            if self.curr > self.end || self.end - self.curr < bytes {
                return false;
            }
            let skipped = Block { addr: self.curr, size: BlockSize { bytes } };
            proof {
                assert(bytes % 8 == 0) by {
                    crate::heap::block::lemma_offset_whole_headers(self.curr, size.bytes);
                }
                let s = self.free_list@;
                assert forall|i: int| 0 <= i < s.len() implies (#[trigger] s[i]).end() <= skipped.addr
                    || skipped.end() <= s[i].addr by {}
                assert(no_overlap(s, skipped));
                lemma_merge_into_wf(s, skipped);
                lemma_merge_into_below(s, skipped, skipped.end());
                assert forall|x: int| #[trigger]
                    in_free(merge_into(s, skipped), x) <==> in_free(s, x) || (skipped.addr <= x
                        < skipped.end()) by {
                    lemma_merge_into_cover(s, skipped, x);
                }
            }
            self.free(skipped);
            self.curr = self.curr + bytes;
        }
        true
    }

    /// Moves the bump pointer past `size` bytes; fails, changing nothing, when that
    /// passes the end of the managed memory or the size exceeds `isize::MAX`.
    fn bump_curr(&mut self, size: BlockSize) -> (r: Result<(), Error>)
        requires
            old(self).wf(),
            size.wf(),
        ensures
            final(self).wf(),
            final(self).end == old(self).end,
            final(self).free_list@ == old(self).free_list@,
            r is Ok <==> size.bytes <= isize::MAX && old(self).curr + size.bytes <= old(self).end,
            r is Ok ==> final(self).curr == old(self).curr + size.bytes,
            r is Err ==> final(self).curr == old(self).curr && r == Err::<(), Error>(Error::OutOfMem),
    {
        if size.bytes > isize::MAX as usize {
            return Err(Error::OutOfMem);
        }
        let new_curr = match self.curr.checked_add(size.bytes) {
            Some(c) => c,
            None => return Err(Error::OutOfMem),
        };
        if new_curr > self.end {
            return Err(Error::OutOfMem);
        }
        self.curr = new_curr;
        Ok(())
    }

    /// Puts `freed` back into the free list, in address order, merged with the free
    /// blocks it touches.
    fn free(&mut self, freed: Block)
        requires
            free_list_wf(old(self).free_list@),
            freed.wf(),
            no_overlap(old(self).free_list@, freed),
        ensures
            final(self).free_list@ == merge_into(old(self).free_list@, freed),
            final(self).curr == old(self).curr,
            final(self).end == old(self).end,
    {
        let mut i: usize = 0;
        while i < self.free_list.len() && self.free_list[i].addr <= freed.addr
            invariant
                0 <= i <= self.free_list.len(),
                forall|j: int| 0 <= j < i ==> (#[trigger] self.free_list@[j]).addr <= freed.addr,
            decreases self.free_list.len() - i,
        {
            i += 1;
        }
        proof {
            lemma_insertion_index(self.free_list@, freed.addr as int, i as int);
        }
        Self::merge_adjacent_blocks(&mut self.free_list, i, freed);
    }

    /// Puts `freed` at index `index` of the list, merging it with the block after it and
    /// the block before it when they touch.
    fn merge_adjacent_blocks(list: &mut Vec<Block>, index: usize, freed: Block)
        requires
            free_list_wf(old(list)@),
            freed.wf(),
            no_overlap(old(list)@, freed),
            index == insertion_index(old(list)@, freed.addr as int),
        ensures
            final(list)@ == merge_into(old(list)@, freed),
    {
        let ghost s = list@;
        proof {
            crate::heap::free_list::lemma_insertion_index_bounds(s, freed.addr as int);
            if index > 0 {
                assert(s[index - 1].wf());
                assert(s[index - 1].addr <= freed.addr);
            }
            if index < s.len() {
                assert(s[index as int].wf());
            }
        }
        let mut block = freed;
        if index < list.len() && freed.addr + freed.size.bytes == list[index].addr {
            let next = list.remove(index);
            assert(next.wf());
            block = Block { addr: freed.addr, size: freed.size.add(next.size) };
            assert(block == joined(freed, s[index as int]));
        }
        if index > 0 && list[index - 1].addr + list[index - 1].size.bytes == freed.addr {
            let prev = list[index - 1];
            assert(prev == s[index - 1]);
            assert(prev.wf());
            let merged = Block { addr: prev.addr, size: prev.size.add(block.size) };
            list.set(index - 1, merged);
            assert(list@ =~= merge_into(s, freed));
        } else {
            list.insert(index, block);
            assert(list@ =~= merge_into(s, freed));
        }
    }

    /// Gives back memory at `ptr` that was allocated for `layout`.
    pub fn dealloc(&mut self, ptr: usize, layout: Layout)
        requires
            old(self).wf(),
            layout.wf(),
            layout.size > 0,
            ptr != 0,
            ptr % BLOCK_HEADER_SIZE == 0,
            ptr + BlockLayout::of_layout(layout).size.bytes <= old(self).curr_addr(),
            forall|x: int|
                ptr <= x < ptr + BlockLayout::of_layout(layout).size.bytes ==> !(#[trigger] in_free(
                    old(self).free_blocks(),
                    x,
                )),
        ensures
            final(self).wf(),
            final(self).curr_addr() == old(self).curr_addr(),
            final(self).end_addr() == old(self).end_addr(),
            final(self).free_blocks() == merge_into(
                old(self).free_blocks(),
                Block { addr: ptr, size: BlockLayout::of_layout(layout).size },
            ),
            forall|x: int| #[trigger]
                in_free(final(self).free_blocks(), x) <==> in_free(old(self).free_blocks(), x) || (ptr
                    <= x < ptr + BlockLayout::of_layout(layout).size.bytes),
    {
        let size = BlockLayout::from(layout).size();
        let freed = Block { addr: ptr, size };
        proof {
            let s = self.free_list@;
            assert forall|i: int| 0 <= i < s.len() implies (#[trigger] s[i]).end() <= freed.addr
                || freed.end() <= s[i].addr by {
                assert(s[i].wf());
                if !(s[i].end() <= freed.addr || freed.end() <= s[i].addr) {
                    let x: int = if s[i].addr <= freed.addr {
                        freed.addr as int
                    } else {
                        s[i].addr as int
                    };
                    assert(s[i].addr <= x < s[i].end());
                    assert(in_free(old(self).free_blocks(), x));
                }
            }
            lemma_merge_into_wf(s, freed);
            lemma_merge_into_below(s, freed, self.curr as int);
            assert forall|x: int| #[trigger]
                in_free(merge_into(s, freed), x) <==> in_free(s, x) || (freed.addr <= x < freed.end()) by {
                lemma_merge_into_cover(s, freed, x);
            }
        }
        self.free(freed);
    }

    /// How much a block at `ptr` gives up at its end for an aligned allocation of `size`
    /// bytes, and how much of that is excess.
    pub fn calc_reduction_for_layout(ptr: usize, size: BlockSize, align: BlockSize) -> (r:
        AlignmentReduction)
        requires
            size.wf(),
            align.wf(),
            size.bytes + 2 * align.bytes <= usize::MAX,
        ensures
            r == reduction_for_layout(ptr, size, align),
            r.total.bytes >= size.bytes,
            r.excess == (if r.total.bytes == size.bytes {
                None
            } else {
                Some(BlockSize { bytes: (r.total.bytes - size.bytes) as usize })
            }),
    {
        let aligned = crate::num::AlignUp::align_up(size.bytes, align.bytes);
        proof {
            crate::num::lemma_align_up_bounds(size.bytes, align.bytes);
            lemma_align_offset(ptr, align.bytes);
            assert(aligned <= size.bytes + align.bytes) by {
                if size.bytes % align.bytes != 0 {
                    assert(size.bytes % align.bytes >= 0);
                }
            }
        }
        let aligned_size = BlockSize { bytes: aligned };
        let offset = BlockSize::from(align_offset(ptr, align.bytes));
        let reduce_for_alignment = match offset {
            None => None,
            Some(off) => {
                proof {
                    assert(off.bytes <= align.bytes) by {
                        crate::num::lemma_align_up_bounds(
                            align_offset_spec(ptr, align.bytes) as usize,
                            BLOCK_HEADER_SIZE,
                        );
                        assert(align.bytes % 8 == 0);
                    }
                }
                align.sub(off)
            },
        };
        match reduce_for_alignment {
            None => AlignmentReduction { total: aligned_size, excess: aligned_size.sub(size) },
            Some(r) => {
                if r.bytes < size.bytes {
                    let total = if size.bytes <= align.bytes {
                        BlockSize { bytes: align.bytes + r.bytes }
                    } else {
                        BlockSize { bytes: aligned + r.bytes }
                    };
                    AlignmentReduction { total, excess: total.sub(size) }
                } else if r.bytes == size.bytes {
                    AlignmentReduction { total: r, excess: None }
                } else {
                    AlignmentReduction { total: r, excess: r.sub(size) }
                }
            },
        }
    }
}

/// The free list of a well-formed allocator is in address order and fully coalesced:
/// no two free blocks touch.
pub proof fn lemma_free_list_coalesced(a: KernAlloctor)
    requires
        a.wf(),
    ensures
        free_list_wf(a.free_blocks()),
        forall|i: int, j: int|
            0 <= i < j < a.free_blocks().len() ==> #[trigger] a.free_blocks()[i].end() < #[trigger] a.free_blocks()[j].addr,
        blocks_below(a.free_blocks(), a.curr_addr() as int),
{
}

/// The ranges `live`, each an address and a byte count, are what an allocator that was
/// created at `start` has handed out and not taken back: none of their bytes is
/// available, no two of them overlap, they lie inside `[start, end)`, and everything
/// available lies at or above `start`.
pub open spec fn allocations_sound(a: KernAlloctor, live: Seq<(int, int)>, start: int) -> bool {
    &&& a.available_above(start)
    &&& forall|i: int| 0 <= i < live.len() ==> (#[trigger] live[i]).0 >= start && live[i].0 + live[i].1 <= a.end_addr()
    &&& forall|i: int, x: int|
        0 <= i < live.len() && live[i].0 <= x < live[i].0 + live[i].1 ==> #[trigger] in_range(live[i], x)
            && !#[trigger] a.available(x)
    &&& forall|i: int, j: int|
        0 <= i < j < live.len() ==> ranges_apart(#[trigger] live[i], #[trigger] live[j])
}

/// Address `x` lies in the range `r`, an address and a byte count.
pub open spec fn in_range(r: (int, int), x: int) -> bool {
    r.0 <= x < r.0 + r.1
}

/// Two ranges, each an address and a byte count, share no byte.
pub open spec fn ranges_apart(r1: (int, int), r2: (int, int)) -> bool {
    r1.1 <= 0 || r2.1 <= 0 || r1.0 + r1.1 <= r2.0 || r2.0 + r2.1 <= r1.0
}

/// A new allocator has handed out nothing.
pub proof fn lemma_new_allocations_sound(a: KernAlloctor, start: int)
    requires
        a.curr_addr() == start,
        a.free_blocks() == Seq::<Block>::empty(),
    ensures
        allocations_sound(a, Seq::<(int, int)>::empty(), start),
{
    assert forall|x: int| #[trigger] a.available(x) implies x >= start by {
        assert(!in_free(a.free_blocks(), x));
    }
}

/// An allocation that takes `size` bytes at `p` out of what was available keeps the
/// handed-out ranges sound once it is added to them: it lies inside `[start, end)`, shares
/// no byte with any range still handed out, and none of its bytes is in a free block.
pub proof fn lemma_allocate_keeps_sound(a0: KernAlloctor, a1: KernAlloctor, live: Seq<(int, int)>, start: int, p: int, size: int)
    requires
        allocations_sound(a0, live, start),
        size > 0,
        p + size <= a0.end_addr(),
        a1.end_addr() == a0.end_addr(),
        forall|x: int| p <= x < p + size ==> #[trigger] a0.available(x),
        forall|x: int| #[trigger] a1.available(x) <==> a0.available(x) && !(p <= x < p + size),
    ensures
        allocations_sound(a1, live.push((p, size)), start),
        p >= start,
        p + size <= a1.end_addr(),
        forall|i: int| 0 <= i < live.len() ==> ranges_apart(#[trigger] live[i], (p, size)),
        forall|x: int| p <= x < p + size ==> !in_free(a1.free_blocks(), x),
{
    assert(a0.available(p));
    let l2 = live.push((p, size));
    assert forall|i: int| 0 <= i < live.len() implies ranges_apart(#[trigger] live[i], (p, size)) by {
        let r = live[i];
        if !ranges_apart(r, (p, size)) {
            let x = if r.0 <= p { p } else { r.0 };
            assert(in_range(live[i], x));
            assert(a0.available(x));
            assert(false);
        }
    }
    assert forall|i: int, x: int|
        0 <= i < l2.len() && l2[i].0 <= x < l2[i].0 + l2[i].1 implies #[trigger] in_range(l2[i], x)
            && !#[trigger] a1.available(x) by {
        if i < live.len() {
            assert(l2[i] == live[i]);
            assert(in_range(live[i], x) && !a0.available(x));
        }
    }
    assert forall|i: int, j: int| 0 <= i < j < l2.len() implies ranges_apart(#[trigger] l2[i], #[trigger] l2[j]) by {
        if j < live.len() {
            assert(l2[i] == live[i] && l2[j] == live[j]);
        } else {
            assert(l2[i] == live[i]);
            assert(ranges_apart(live[i], (p, size)));
        }
    }
    assert forall|i: int| 0 <= i < l2.len() implies (#[trigger] l2[i]).0 >= start by {
        if i < live.len() {
            assert(l2[i] == live[i]);
        }
    }
    assert forall|x: int| p <= x < p + size implies !in_free(a1.free_blocks(), x) by {
        assert(!a1.available(x));
    }
}

/// Giving back the handed-out range `i` keeps the rest of the handed-out ranges sound.
pub proof fn lemma_dealloc_keeps_sound(a1: KernAlloctor, a2: KernAlloctor, live: Seq<(int, int)>, start: int, i: int)
    requires
        allocations_sound(a1, live, start),
        0 <= i < live.len(),
        a2.curr_addr() == a1.curr_addr(),
        a2.end_addr() == a1.end_addr(),
        forall|x: int| #[trigger]
            in_free(a2.free_blocks(), x) <==> in_free(a1.free_blocks(), x) || (live[i].0 <= x < live[i].0 + live[i].1),
    ensures
        allocations_sound(a2, live.remove(i), start),
{
    let l2 = live.remove(i);
    assert forall|x: int| #[trigger] a2.available(x) implies x >= start by {
        assert(in_free(a2.free_blocks(), x) <==> in_free(a1.free_blocks(), x) || (live[i].0 <= x < live[i].0 + live[i].1));
        if !(live[i].0 <= x < live[i].0 + live[i].1) {
            assert(a1.available(x));
        }
    }
    assert forall|k: int, x: int|
        0 <= k < l2.len() && l2[k].0 <= x < l2[k].0 + l2[k].1 implies #[trigger] in_range(l2[k], x)
            && !#[trigger] a2.available(x) by {
        let m = if k < i { k } else { k + 1 };
        assert(l2[k] == live[m]);
        assert(in_range(live[m], x) && !a1.available(x));
        assert(in_free(a2.free_blocks(), x) <==> in_free(a1.free_blocks(), x) || (live[i].0 <= x < live[i].0 + live[i].1));
        if m < i {
            assert(ranges_apart(live[m], live[i]));
        } else {
            assert(ranges_apart(live[i], live[m]));
        }
    }
    assert forall|k: int, j: int| 0 <= k < j < l2.len() implies ranges_apart(#[trigger] l2[k], #[trigger] l2[j]) by {
        let mk = if k < i { k } else { k + 1 };
        let mj = if j < i { j } else { j + 1 };
        assert(l2[k] == live[mk] && l2[j] == live[mj]);
        assert(ranges_apart(live[mk], live[mj]));
    }
    assert forall|k: int| 0 <= k < l2.len() implies (#[trigger] l2[k]).0 >= start by {
        let mk = if k < i { k } else { k + 1 };
        assert(l2[k] == live[mk]);
    }
}

/// Two allocations in a row never overlap: the second is carved from what was still
/// available after the first, and the first's bytes no longer are.
pub proof fn lemma_allocations_disjoint(
    a0: KernAlloctor,
    a1: KernAlloctor,
    p1: int,
    s1: int,
    p2: int,
    s2: int,
)
    requires
        forall|x: int| #[trigger] a1.available(x) <==> a0.available(x) && !(p1 <= x < p1 + s1),
        forall|x: int| p2 <= x < p2 + s2 ==> #[trigger] a1.available(x),
    ensures
        s1 <= 0 || s2 <= 0 || p1 + s1 <= p2 || p2 + s2 <= p1,
{
    if !(s1 <= 0 || s2 <= 0 || p1 + s1 <= p2 || p2 + s2 <= p1) {
        let x = if p1 <= p2 { p2 } else { p1 };
        assert(a1.available(x));
    }
}

/// Giving back what an allocation took makes exactly the memory available that was
/// available before the allocation.
pub proof fn lemma_dealloc_undoes_allocate(
    a0: KernAlloctor,
    a1: KernAlloctor,
    a2: KernAlloctor,
    p: int,
    size: int,
)
    requires
        forall|x: int| p <= x < p + size ==> #[trigger] a0.available(x),
        forall|x: int| #[trigger] a1.available(x) <==> a0.available(x) && !(p <= x < p + size),
        p + size <= a1.curr_addr(),
        a2.curr_addr() == a1.curr_addr(),
        forall|x: int| #[trigger]
            in_free(a2.free_blocks(), x) <==> in_free(a1.free_blocks(), x) || (p <= x < p + size),
    ensures
        forall|x: int| #[trigger] a2.available(x) <==> a0.available(x),
{
    assert forall|x: int| #[trigger] a2.available(x) <==> a0.available(x) by {
        assert(in_free(a2.free_blocks(), x) <==> in_free(a1.free_blocks(), x) || (p <= x < p + size));
        assert(a1.available(x) <==> a0.available(x) && !(p <= x < p + size));
    }
}

/// A power-of-two alignment divides its rounding up to a whole block size.
proof fn lemma_layout_align_divides(align: usize)
    requires
        crate::heap::block::is_power_of_two(align),
    ensures
        align_up_usize(align, BLOCK_HEADER_SIZE) % align == 0,
{
    if align >= 8 {
        assert(align % 8 == 0) by (bit_vector)
            requires
                align & ((align - 1) as usize) == 0,
                align >= 8,
        ;
        assert(align_up_usize(align, BLOCK_HEADER_SIZE) == align);
        vstd::arithmetic::div_mod::lemma_mod_self_0(align as int);
        assert(align % align == 0);
    } else {
        assert(align == 1 || align == 2 || align == 4) by (bit_vector)
            requires
                align != 0,
                align & ((align - 1) as usize) == 0,
                align < 8,
        ;
        assert(align_up_usize(align, BLOCK_HEADER_SIZE) == 8);
        let up = align_up_usize(align, BLOCK_HEADER_SIZE);
        if align == 1 {
            assert(up % align == 0);
        } else if align == 2 {
            assert(up % align == 0);
        } else {
            assert(align == 4);
            assert(up % align == 0) by (nonlinear_arith)
                requires
                    up == 8,
                    align == 4,
            ;
        }
    }
    vstd::arithmetic::div_mod::lemma_mod_self_0(align as int);
}

proof fn lemma_mod_of_multiple(p: int, big: int, small: int)
    requires
        big > 0,
        small > 0,
        p % big == 0,
        big % small == 0,
    ensures
        p % small == 0,
{
    assert(p % small == 0) by (nonlinear_arith)
        requires
            big > 0,
            small > 0,
            p % big == 0,
            big % small == 0,
    {
        vstd::arithmetic::div_mod::lemma_fundamental_div_mod(p, big);
        vstd::arithmetic::div_mod::lemma_fundamental_div_mod(big, small);
        vstd::arithmetic::div_mod::lemma_mod_multiples_basic((p / big) * (big / small), small);
        assert(p == (p / big) * (big / small) * small) by (nonlinear_arith)
            requires
                p == big * (p / big),
                big == small * (big / small),
        ;
    }
}

} // verus!
