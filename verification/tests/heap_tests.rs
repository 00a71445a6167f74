use lib::error::Error;
use lib::heap::block::{
    extract_block, logical_extract, Block, BlockLayout, BlockSize, Layout, LogicalExtraction, SizeFit,
};
use lib::heap::kern_allocator::KernAlloctor;
use lib::heap::kern_heap::{global_allocate, global_dealloc, size_scale};

/// Start of a 1024-byte, 1024-aligned region the allocator manages.
const BASE: usize = 0x1000_0400;

fn allocator() -> KernAlloctor {
    KernAlloctor::new(BASE, BASE + 1024)
}

fn block_at(index: usize) -> usize {
    BASE + 8 * index
}

fn size(bytes: usize) -> BlockSize {
    BlockSize::from(bytes).unwrap()
}

fn u32_layout() -> Layout {
    Layout::from_size_align(4, 4).unwrap()
}

#[test]
fn test_reduction_aligned_without_excess() {
    let reduction = KernAlloctor::calc_reduction_for_layout(0x1000, size(8), size(8));
    assert_eq!(reduction.total.byte_count(), 8);
    assert_eq!(reduction.excess, None);
}

#[test]
fn test_reduction_unaligned_without_excess() {
    let reduction = KernAlloctor::calc_reduction_for_layout(0x1008, size(8), size(16));
    assert_eq!(reduction.total.byte_count(), 8);
    assert_eq!(reduction.excess, None);
}

#[test]
fn test_reduction_unaligned_without_excess2() {
    let reduction = KernAlloctor::calc_reduction_for_layout(0x1008, size(16), size(8));
    assert_eq!(reduction.total.byte_count(), 16);
    assert_eq!(reduction.excess, None);
}

#[test]
fn test_reduction_aligned_with_excess() {
    let reduction = KernAlloctor::calc_reduction_for_layout(0x1008, size(16), size(32));
    assert_eq!(reduction.total.byte_count(), 40);
    assert_eq!(reduction.excess.unwrap().byte_count(), 24);
}

#[test]
fn test_reduction_unaligned_with_excess() {
    let reduction = KernAlloctor::calc_reduction_for_layout(0x1008, size(32), size(16));
    assert_eq!(reduction.total.byte_count(), 40);
    assert_eq!(reduction.excess.unwrap().byte_count(), 8);
}

#[test]
fn test_allocation() {
    let mut allocator = allocator();
    assert_eq!(allocator.allocate(u32_layout()).unwrap(), block_at(0));
}

#[test]
fn test_two_allocation() {
    let mut allocator = allocator();
    allocator.allocate(u32_layout()).unwrap();
    assert_eq!(allocator.allocate(u32_layout()).unwrap(), block_at(1));
}

#[test]
fn test_alloc_free() {
    let mut allocator = allocator();
    let layout = u32_layout();
    let ptr = allocator.allocate(layout).unwrap();
    allocator.dealloc(ptr, layout);
    let free = allocator.free_list();
    assert_eq!(free.len(), 1);
    assert_eq!(free[0].addr, block_at(0));
    assert_eq!(free[0].size, size(8));
}

#[test]
fn test_double_alloc_free_unordered() {
    let mut allocator = allocator();
    let layout = u32_layout();
    let ptr1 = allocator.allocate(layout).unwrap();
    let ptr2 = allocator.allocate(layout).unwrap();
    allocator.dealloc(ptr2, layout);
    allocator.dealloc(ptr1, layout);
    let free = allocator.free_list();
    assert_eq!(free.len(), 1);
    assert_eq!(free[0].addr, block_at(0));
    assert_eq!(free[0].size, size(16));
}

#[test]
fn test_double_alloc_free_ordered() {
    let mut allocator = allocator();
    let layout = u32_layout();
    let ptr1 = allocator.allocate(layout).unwrap();
    let ptr2 = allocator.allocate(layout).unwrap();
    allocator.dealloc(ptr1, layout);
    allocator.dealloc(ptr2, layout);
    let free = allocator.free_list();
    assert_eq!(free.len(), 1);
    assert_eq!(free[0].addr, block_at(0));
    assert_eq!(free[0].size, size(16));
}

#[test]
fn test_alloc_needs_frees_excess() {
    let mut allocator = allocator();
    allocator.allocate(u32_layout()).unwrap();
    let p2 = allocator.allocate(Layout::from_size_align(8, 16).unwrap()).unwrap();
    assert_eq!(p2, block_at(2));
    assert_eq!(allocator.free_list()[0].addr, block_at(1));
}

#[test]
fn test_free_before_head_with_gap() {
    let mut allocator = allocator();
    let l = u32_layout();
    let p1 = allocator.allocate(l).unwrap();
    allocator.allocate(l).unwrap();
    let p3 = allocator.allocate(l).unwrap();
    allocator.dealloc(p3, l);
    allocator.dealloc(p1, l);
    let free = allocator.free_list();
    assert_eq!(free[0].addr, block_at(0));
    assert_eq!(free[1].addr, block_at(2));
}

#[test]
fn test_alloc_all() {
    let mut allocator = allocator();
    let l = Layout::from_size_align(512, 1).unwrap();
    let p1 = allocator.allocate(l).unwrap();
    let p2 = allocator.allocate(l).unwrap();
    assert_eq!(p1, block_at(0));
    assert_eq!(p2, block_at(512 / 8));
}

#[test]
fn test_out_of_mem() {
    let mut allocator = allocator();
    let l = Layout::from_size_align(512, 1).unwrap();
    allocator.allocate(l).unwrap();
    allocator.allocate(l).unwrap();
    assert_eq!(
        allocator.allocate(Layout::from_size_align(1, 1).unwrap()).unwrap_err(),
        Error::OutOfMem
    );
}

#[test]
fn test_too_big_alloc() {
    let mut allocator = allocator();
    let l = Layout::from_size_align(1025, 1).unwrap();
    assert_eq!(allocator.allocate(l).unwrap_err(), Error::OutOfMem);
}

#[test]
fn test_alloc_removes_from_free_list() {
    let mut allocator = allocator();
    let l = Layout::from_size_align(8, 4).unwrap();
    let p1 = allocator.allocate(l).unwrap();
    allocator.dealloc(p1, l);
    let p2 = allocator.allocate(l).unwrap();
    let p3 = allocator.allocate(l).unwrap();
    assert_ne!(p2, p3);
}

#[test]
fn failed_allocation_changes_nothing() {
    let mut allocator = allocator();
    allocator.allocate(u32_layout()).unwrap();
    let before = allocator.curr();
    assert_eq!(
        allocator.allocate(Layout::from_size_align(2048, 1).unwrap()),
        Err(Error::OutOfMem)
    );
    assert_eq!(allocator.curr(), before);
    assert_eq!(allocator.free_list().len(), 0);
}

#[test]
fn freed_block_is_reused_first() {
    let mut allocator = allocator();
    let l = u32_layout();
    let p1 = allocator.allocate(l).unwrap();
    allocator.allocate(l).unwrap();
    allocator.dealloc(p1, l);
    assert_eq!(allocator.allocate(l).unwrap(), p1);
    assert_eq!(allocator.free_list().len(), 0);
}

#[test]
fn allocation_is_aligned() {
    let mut allocator = allocator();
    allocator.allocate(u32_layout()).unwrap();
    let p = allocator.allocate(Layout::from_size_align(8, 64).unwrap()).unwrap();
    assert_eq!(p % 64, 0);
    assert_eq!(p, BASE + 64);
}

#[test]
fn layout_refuses_bad_alignment() {
    assert!(Layout::from_size_align(8, 3).is_err());
    assert!(Layout::from_size_align(8, 0).is_err());
    assert!(Layout::from_size_align(usize::MAX, 8).is_err());
    assert_eq!(Layout::from_size_align(8, 4).unwrap().size(), 8);
    assert_eq!(Layout::from_size_align(8, 4).unwrap().align(), 4);
}

#[test]
fn block_size_rounds_to_headers() {
    assert_eq!(BlockSize::from(0), None);
    assert_eq!(BlockSize::from(1).unwrap().byte_count(), 8);
    assert_eq!(BlockSize::from(9).unwrap().byte_count(), 16);
    assert_eq!(BlockSize::from(24).unwrap().block_count(), 3);
    assert_eq!(size(16).sub(size(8)), Some(size(8)));
    assert_eq!(size(16).sub(size(16)), None);
    assert_eq!(size(16).add(size(8)), size(24));
    let mut s = size(8);
    s.add_assign(size(8));
    assert_eq!(s, size(16));
}

#[test]
fn block_layout_rounds_up() {
    let bl = BlockLayout::from(Layout::from_size_align(4, 2).unwrap());
    assert_eq!(bl.size(), size(8));
    assert_eq!(bl.align(), size(8));
    let bl = BlockLayout::from(Layout::from_size_align(20, 32).unwrap());
    assert_eq!(bl.size(), size(24));
    assert_eq!(bl.align(), size(32));
}

fn layout16() -> BlockLayout {
    BlockLayout { size: size(16), align: size(16) }
}

#[test]
fn extraction_without_suffix_and_prefix() {
    assert_eq!(
        logical_extract(0x1000, size(16), layout16()),
        Some(LogicalExtraction { prefix: None, suffix: None })
    );
}

#[test]
fn extraction_only_prefix() {
    assert_eq!(
        logical_extract(0x1008, size(24), layout16()),
        Some(LogicalExtraction { prefix: Some(size(8)), suffix: None })
    );
}

#[test]
fn extraction_only_suffix() {
    assert_eq!(
        logical_extract(0x1000, size(24), layout16()),
        Some(LogicalExtraction { prefix: None, suffix: Some(size(8)) })
    );
}

#[test]
fn extraction_with_prefix_and_suffix() {
    assert_eq!(
        logical_extract(0x1008, size(40), layout16()),
        Some(LogicalExtraction { prefix: Some(size(8)), suffix: Some(size(16)) })
    );
}

#[test]
fn cant_extract_bigger_block() {
    assert_eq!(
        logical_extract(0x1000, size(32), BlockLayout { size: size(64), align: size(8) }),
        None
    );
}

#[test]
fn cant_extract_block_after_alignement() {
    assert_eq!(
        logical_extract(0x1008, size(32), BlockLayout { size: size(32), align: size(16) }),
        None
    );
}

fn mock_block(bytes: usize, aligned_to: usize) -> Block {
    Block { addr: BASE + aligned_to, size: size(bytes) }
}

#[test]
fn extract_exact_match() {
    let block = mock_block(16, 8);
    let r = extract_block(&block, BlockLayout::from(Layout::from_size_align(16, 8).unwrap())).unwrap();
    assert_eq!(r.extracted, block.addr);
    assert!(r.remaining.is_empty());
}

#[test]
fn extract_with_only_suffix() {
    let block = mock_block(32, 8);
    let r = extract_block(&block, BlockLayout::from(Layout::from_size_align(16, 8).unwrap())).unwrap();
    assert_eq!(r.extracted, block.addr);
    assert_eq!(r.remaining, vec![Block { addr: block.addr + 16, size: size(16) }]);
}

#[test]
fn extract_with_only_prefix() {
    let block = mock_block(24, 8);
    let r = extract_block(&block, BlockLayout::from(Layout::from_size_align(16, 16).unwrap())).unwrap();
    assert_eq!(r.extracted, block.addr + 8);
    assert_eq!(r.remaining, vec![Block { addr: block.addr, size: size(8) }]);
}

#[test]
fn extract_with_prefix_and_suffix() {
    let block = mock_block(64, 8);
    let r = extract_block(&block, BlockLayout::from(Layout::from_size_align(32, 16).unwrap())).unwrap();
    assert_eq!(r.extracted, block.addr + 8);
    assert_eq!(
        r.remaining,
        vec![
            Block { addr: block.addr, size: size(8) },
            Block { addr: block.addr + 40, size: size(24) }
        ]
    );
}

#[test]
fn extract_too_small_block() {
    let block = mock_block(16, 8);
    assert!(extract_block(&block, BlockLayout::from(Layout::from_size_align(32, 8).unwrap())).is_none());
}

#[test]
fn block_end_merge_and_fit() {
    let mut b = Block { addr: 0x1000, size: size(16) };
    assert_eq!(b.end_ptr(), 0x1010);
    b.merge(Block { addr: 0x1010, size: size(8) });
    assert_eq!(b.size, size(24));
    assert_eq!(b.check_fit(BlockLayout { size: size(24), align: size(8) }), SizeFit::Exact);
    assert_eq!(b.check_fit(BlockLayout { size: size(16), align: size(8) }), SizeFit::Excess);
    assert_eq!(b.check_fit(BlockLayout { size: size(32), align: size(8) }), SizeFit::Misfit);
    let c = Block { addr: 0x1008, size: size(24) };
    assert_eq!(c.check_fit(BlockLayout { size: size(16), align: size(16) }), SizeFit::Excess);
    assert_eq!(c.check_fit(BlockLayout { size: size(24), align: size(16) }), SizeFit::Misfit);
}

#[test]
fn heap_size_scale_units() {
    assert_eq!(size_scale(512), (512, 0));
    assert_eq!(size_scale(4096), (4, 1));
    assert_eq!(size_scale(3 * 1024 * 1024), (3, 2));
}

#[test]
fn global_allocator_gives_null_when_full() {
    let mut heap = Some(KernAlloctor::new(0x4800_0000, 0x4800_0400));
    let l = Layout::from_size_align(512, 8).unwrap();
    let p1 = global_allocate(&mut heap, l);
    assert_eq!(p1, 0x4800_0000);
    let p2 = global_allocate(&mut heap, l);
    assert_eq!(p2, 0x4800_0200);
    assert_eq!(global_allocate(&mut heap, l), 0);
    global_dealloc(&mut heap, p1, l);
    assert_eq!(global_allocate(&mut heap, l), p1);
}

#[test]
fn live_allocations_stay_apart() {
    let mut allocator = allocator();
    let small = u32_layout();
    let big = Layout::from_size_align(24, 16).unwrap();
    let mut live: Vec<(usize, usize)> = Vec::new();
    for step in 0..12usize {
        let layout = if step % 3 == 0 { big } else { small };
        let p = allocator.allocate(layout).unwrap();
        let bytes = if step % 3 == 0 { 24 } else { 8 };
        assert!(p >= BASE);
        assert_eq!(p % layout.align(), 0);
        for &(q, n) in live.iter() {
            assert!(p + bytes <= q || q + n <= p);
        }
        for b in allocator.free_list().iter() {
            assert!(p + bytes <= b.addr || b.addr + b.size.byte_count() <= p);
        }
        live.push((p, bytes));
        if step % 4 == 3 {
            let (q, n) = live.remove(0);
            let l = if n == 24 { big } else { small };
            allocator.dealloc(q, l);
        }
    }
}

#[test]
fn alignment_past_end_changes_nothing() {
    let mut allocator = KernAlloctor::new(0x1008, 0x1018);
    let aligned = Layout::from_size_align(8, 0x100).unwrap();
    assert_eq!(allocator.allocate(aligned), Err(Error::OutOfMem));
    assert_eq!(allocator.curr(), 0x1008);
    assert_eq!(allocator.free_list().len(), 0);
    assert_eq!(allocator.allocate(Layout::from_size_align(0x80, 8).unwrap()), Err(Error::OutOfMem));
    let p = allocator.allocate(Layout::from_size_align(0x10, 8).unwrap()).unwrap();
    assert_eq!(p, 0x1008);
    assert!(p + 0x10 <= allocator.end());
}

#[test]
fn block_size_near_top_of_range() {
    assert_eq!(BlockSize::from(usize::MAX - 7).unwrap().byte_count(), usize::MAX - 7);
    assert_eq!(BlockSize::from(usize::MAX - 8).unwrap().byte_count(), usize::MAX - 7);
    assert_eq!(BlockSize::from(usize::MAX - 6), None);
    assert_eq!(BlockSize::from(usize::MAX), None);
}
