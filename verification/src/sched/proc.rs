use vstd::prelude::*;

use crate::error::Error;
use crate::heap::block::Layout;
use crate::heap::kern_allocator::KernAlloctor;
use crate::heap::kern_heap;
use crate::memory_model::PHYS_TO_VIRT;
use crate::mmu::page::PAGE_SIZE;
use crate::mmu::page_table::PageTable;
use crate::spinlock::SpinLock;

use crate::heap::block::{align_offset, align_offset_spec};

verus! {

/// A value that lives in user memory and must not be trusted as kernel data.
pub struct User<T: ?Sized>(pub T);

/// An open file of a process.
pub trait File {
    /// Reads from the file into the user buffer `buf`.
    fn read(&mut self, buf: &mut User<[u8]>) -> Result<(), Error>;
}

/// The scheduling state of a process.
#[derive(PartialEq, Eq, Structural, Clone, Copy, Debug)]
pub enum State {
    Sleeping,
    Runnable,
    Running,
    Zombie,
}

/// The kernel stack of a process: one page, page aligned.
pub struct KernelStack;

/// The open files of a process, by descriptor.
pub type FdTable = SpinLock<Vec<Option<SpinLock<Box<dyn File>>>>>;

/// A process: its id, its address space (none until one is set up), kernel stack (by
/// its kernel virtual address), saved stack pointer, open files, the channel it sleeps
/// on and its scheduling state.
pub struct Process {
    pub pid: u32,
    pub page_table: Option<PageTable>,
    pub kern_stack: usize,
    pub sp: usize,
    pub fd: FdTable,
    pub chan: usize,
    pub state: State,
}

/// Bytes a frame of type `Frame` takes below a stack top at `base`: its size, and when
/// `base` is not aligned for it, its size less the misalignment on top.
pub open spec fn frame_need<Frame>(base: usize) -> int {
    let size = vstd::layout::size_of::<Frame>() as int;
    let off = align_offset_spec(base, vstd::layout::align_of::<Frame>() as usize);
    if off != 0 {
        size + size - off
    } else {
        size
    }
}

/// A downward-growing stack: the current top and the bytes left below it.
pub struct StackPointer {
    base: usize,
    size: usize,
}

impl StackPointer {
    /// The current top of the stack.
    pub closed spec fn base_addr(&self) -> usize {
        self.base
    }

    /// Bytes left below the top.
    pub closed spec fn room(&self) -> usize {
        self.size
    }

    /// The room lies in memory: the top is at least the room above address zero.
    pub closed spec fn wf(&self) -> bool {
        self.size <= self.base
    }

    /// An empty stack over the `len` bytes at `addr`: its top is the end of the bytes.
    pub fn from_slice(addr: usize, len: usize) -> (r: Self)
        requires
            addr + len <= usize::MAX,
        ensures
            r.wf(),
            r.base_addr() == addr + len,
            r.room() == len,
    {
        StackPointer { base: addr + len, size: len }
    }

    /// Pushes a frame of type `Frame` and gives its address, the new top. `OutOfMem`,
    /// with the stack unchanged, when the room left is smaller than the frame needs.
    pub fn alloc_frame<Frame>(&mut self) -> (r: Result<usize, Error>)
        requires
            old(self).wf(),
            vstd::layout::size_of::<Frame>() > 0 || vstd::layout::align_of::<Frame>() == 1,
        ensures
            final(self).wf(),
            frame_need::<Frame>(old(self).base_addr()) <= old(self).room() ==> {
                &&& r == Ok::<usize, Error>(
                    (old(self).base_addr() - frame_need::<Frame>(old(self).base_addr())) as usize,
                )
                &&& final(self).base_addr() == old(self).base_addr() - frame_need::<Frame>(
                    old(self).base_addr(),
                )
                &&& final(self).room() == old(self).room() - frame_need::<Frame>(
                    old(self).base_addr(),
                )
            },
            r matches Ok(f) ==> (f as int) % (vstd::layout::align_of::<Frame>() as int) == 0
                && f + vstd::layout::size_of::<Frame>() <= old(self).base_addr(),
            frame_need::<Frame>(old(self).base_addr()) > old(self).room() ==> r == Err::<
                usize,
                Error,
            >(Error::OutOfMem) && *final(self) == *old(self),
    {
        vstd::layout::layout_for_type_is_valid::<Frame>();
        let frame_size = core::mem::size_of::<Frame>();
        let mut size = frame_size;
        let add_to_align = align_offset(self.base, core::mem::align_of::<Frame>());
        proof {
            let a = vstd::layout::align_of::<Frame>() as int;
            let z = frame_size as int;
            let b = self.base as int;
            let off = add_to_align as int;
            vstd::arithmetic::div_mod::lemma_fundamental_div_mod(z, a);
            let k = z / a;
            assert(z == a * k);
            if off == 0 {
                vstd::arithmetic::div_mod::lemma_mod_multiples_vanish(-k, b, a);
                assert(b - z == a * (-k) + b) by (nonlinear_arith)
                    requires
                        z == a * k,
                ;
                assert((b - z) % a == 0);
            } else {
                vstd::arithmetic::div_mod::lemma_mod_multiples_vanish(-2 * k, b + off, a);
                assert(b - (z + z - off) == a * (-2 * k) + (b + off)) by (nonlinear_arith)
                    requires
                        z == a * k,
                ;
                assert((b - (z + z - off)) % a == 0);
            }
        }
        if add_to_align != 0 {
            proof {
                let a = vstd::layout::align_of::<Frame>() as int;
                let z = frame_size as int;
                if z < a {
                    vstd::arithmetic::div_mod::lemma_small_mod(z as nat, a as nat);
                }
            }
            size += frame_size - add_to_align;
        }
        match self.size.checked_sub(size) {
            Some(new_size) => {
                self.base = self.base - size;
                self.size = new_size;
                Ok(self.base)
            },
            None => Err(Error::OutOfMem),
        }
    }

    /// The stack pointer to load: the current top.
    pub fn into_sp(self) -> (r: usize)
        ensures
            r == self.base_addr(),
    {
        self.base
    }
}

impl Process {
    /// A runnable process with id `pid`: a page-aligned kernel stack page taken from
    /// `heap`, no address space yet, no saved stack pointer, no open files and no
    /// channel. `OutOfMem`, exactly when the heap cannot hold the stack page.
    pub fn with_pid(heap: &mut KernAlloctor, pid: u32) -> (r: Result<Self, Error>)
        requires
            old(heap).wf(),
            old(heap).available_above(PHYS_TO_VIRT as int),
        ensures
            final(heap).wf(),
            final(heap).available_above(PHYS_TO_VIRT as int),
            forall|x: int| #[trigger] final(heap).available(x) ==> old(heap).available(x),
            (final(heap).curr_addr(), final(heap).free_blocks()) == old(heap).state_after(
                Layout { size: PAGE_SIZE, align: PAGE_SIZE },
            ),
            final(heap).end_addr() == old(heap).end_addr(),
            r is Err ==> r == Err::<Self, Error>(Error::OutOfMem),
            r is Ok <==> old(heap).can_allocate(Layout { size: PAGE_SIZE, align: PAGE_SIZE }),
            r matches Ok(p) ==> {
                &&& p.pid == pid
                &&& p.state == State::Runnable
                &&& p.sp == 0
                &&& p.chan == 0
                &&& p.page_table is None
                &&& p.fd.value()@.len() == 0
                &&& !p.fd.is_locked()
                &&& p.kern_stack % PAGE_SIZE == 0
                &&& p.kern_stack + PAGE_SIZE <= usize::MAX
                &&& forall|x: int| p.kern_stack <= x < p.kern_stack + PAGE_SIZE ==> #[trigger] old(heap).available(x)
                    && !final(heap).available(x)
            },
    {
        assert(4096usize & 4095usize == 0) by (bit_vector);
        let stack = match kern_heap::allocate::<KernelStack>(heap, Layout { size: PAGE_SIZE, align: PAGE_SIZE }) {
            Ok(s) => s,
            Err(e) => return Err(e),
        };
        proof {
            assert(crate::heap::block::BlockLayout::of_layout(Layout { size: PAGE_SIZE, align: PAGE_SIZE }).size.bytes == PAGE_SIZE);
        }
        let kern_stack = stack.into_virt();
        let files: Vec<Option<SpinLock<Box<dyn File>>>> = Vec::new();
        Ok(Process {
            pid,
            page_table: None,
            kern_stack,
            sp: 0,
            fd: SpinLock::new(files),
            chan: 0,
            state: State::Runnable,
        })
    }
}

} // verus!
