use lib::heap::block::Layout;
use lib::kalloc::{alloc_frame, free_frame, node_bytes, AllocatorImpl, BlockMatch, BlockSize, FreeBlock};
use lib::memory_model::{phys_to_virt, virt_to_phys, virt_to_phys_const, PHYS_TO_VIRT};
use lib::mmu::per_cpu::PerCpu;
use lib::num::{AlignDown, AlignUp, Integer, OverflowingAdd};
use lib::phys::{Phys, PhysMut};
use lib::spinlock::{SpinLock, SpinLockImpl};

#[test]
fn align_helpers() {
    assert_eq!(AlignUp::align_up(0x1001usize, 0x1000), 0x2000);
    assert_eq!(AlignUp::align_up(0x1000usize, 0x1000), 0x1000);
    assert_eq!(AlignUp::align_up(usize::MAX - 1, 0x1000), usize::MAX);
    assert_eq!(AlignDown::align_down(0x1fffusize, 0x1000), 0x1000);
    assert_eq!(OverflowingAdd::overflowing_add(usize::MAX, 2usize), (1, true));
    assert_eq!(OverflowingAdd::overflowing_add(3usize, 4usize), (7, false));
}

#[test]
fn phys_virt_round_trip() {
    let p: Phys<u32> = virt_to_phys(0x8000_1000);
    assert_eq!(p.addr(), 0x8000_1000 - PHYS_TO_VIRT);
    assert_eq!(phys_to_virt(&p), 0x8000_1000);
    let q: Phys<u32> = virt_to_phys_const(0x8000_2000);
    assert_eq!(q.into_virt(), 0x8000_2000);
    assert_eq!(Phys::<u8>::from_virt(0x8000_0000).addr(), 0x4000_0000);
    assert_eq!(Phys::<u8>::from(0x10).byte_add(8).addr(), 0x18);
    let m = PhysMut::<u8>::from_virt(0x9000_0000);
    assert_eq!(m.addr(), 0x5000_0000);
    assert_eq!(m.into_virt(), 0x9000_0000);
    let s = Phys::<[u8]>::from_virt(0x8000_3000, 16);
    assert_eq!((s.addr(), s.len()), (0x4000_3000, 16));
}

#[test]
fn per_cpu_value() {
    let mut v = PerCpu::new(5u32);
    assert_eq!(v.get(), 5);
    v.set(7);
    assert_eq!(v.replace(9), 7);
    assert_eq!(v.get(), 9);
    *v.as_ptr() += 1;
    assert_eq!(v.get(), 10);
}

#[test]
fn spin_lock_states() {
    let mut l = SpinLockImpl::new();
    assert!(l.try_lock());
    assert!(!l.try_lock());
    l.unlock();
    l.lock();
    assert!(!l.try_lock());
    let mut lock = SpinLock::new(3u32);
    *lock.lock() += 1;
    assert!(lock.try_lock().is_none());
    lock.unlock();
    assert_eq!(*lock.try_lock().unwrap(), 4);
}

#[test]
fn page_allocator_picks_first_fit() {
    let n = node_bytes();
    let mut a = AllocatorImpl {
        curr: 0,
        end: 0,
        free_list: vec![
            FreeBlock { addr: 0x1000, size: BlockSize::from_unchecked(n) },
            FreeBlock { addr: 0x2000, size: BlockSize::from_unchecked(4 * n) },
            FreeBlock { addr: 0x3000, size: BlockSize::from_unchecked(2 * n) },
        ],
    };
    let r = a.allocate(Layout::from_size_align(2 * n, 1).unwrap());
    assert_eq!(r, 0x2000 + 2 * n);
    assert_eq!(a.free_list[1].size.byte_count(), 2 * n);
    let exact = a.allocate(Layout::from_size_align(2 * n, 1).unwrap());
    assert_eq!(exact, 0x2000);
    assert_eq!(a.free_list.len(), 2);
}

#[test]
fn page_allocator_head_exact_is_popped() {
    let n = node_bytes();
    let mut a = AllocatorImpl {
        curr: 0,
        end: 0,
        free_list: vec![FreeBlock { addr: 0x1000, size: BlockSize::from_unchecked(n) }],
    };
    assert_eq!(a.look_for_freed_block(BlockSize::from(2 * n)), BlockMatch::NotFound);
    assert_eq!(a.look_for_freed_block(BlockSize::from(1)), BlockMatch::Exact(0x1000));
    assert_eq!(a.free_list.len(), 0);
}

#[test]
fn page_allocator_bump() {
    let mut a = AllocatorImpl { curr: 0x1000, end: 0x2000, free_list: vec![] };
    assert_eq!(a.do_alloc(BlockSize::from(0x100)), 0x1000);
    assert_eq!(a.curr, 0x1100);
    assert_eq!(BlockSize::from(1).byte_count(), node_bytes());
    assert_eq!(BlockSize::from(3 * node_bytes()).block_count(), 3);
    assert_eq!(alloc_frame(), 0);
    free_frame(0x1000);
}

#[test]
fn integer_bounds_and_guard() {
    assert_eq!(<usize as Integer>::zero(), 0);
    assert_eq!(<usize as Integer>::max(), usize::MAX);
    let mut lock = SpinLock::new(5u8);
    let guard = lock.lock_guard();
    assert_eq!(*guard.deref(), 5);
    guard.release();
    assert!(lock.try_lock().is_some());
    let p: Phys<u8> = Phys::from(0x1000);
    assert_eq!(lib::memory_model::phys_to_virt_mut(&p), 0x1000 + PHYS_TO_VIRT);
}
