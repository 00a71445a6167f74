use vstd::prelude::*;

use crate::error::Error;
use crate::heap::block::{Block, Layout};
use crate::heap::kern_allocator::{
    can_allocate_from, can_allocate_seq, lemma_seq_one, state_after_from, KernAlloctor,
};
use crate::heap::kern_heap;
use crate::memory_model::PHYS_TO_VIRT;
use crate::mmu::page::{Page, PAGE_SIZE};
use crate::mmu::l2entry::{l2_mapped_value, l2_type_of, L2EntryType, SMALL_PAGE_MASK};
use crate::mmu::addr_parts::l1_index_of;
use crate::mmu::entry::{is_table_value, is_unmapped_value, L1_ENTRY_COUNT};
use crate::mmu::page_permission::PagePerm;
use crate::mmu::per_cpu::PerCpu;
use crate::mmu::page_table::{PageTable, L1_TABLE_ALIGN, L1_TABLE_SIZE};
use crate::mmu::translation_table::{l2_table_layout, slot_of, AddressSpace, TranslationTable};
use crate::phys::Phys;
use crate::sched::proc::{frame_need, Process, StackPointer, State};

verus! {

/// The processor-mode bits of user mode in the program status register.
pub const USER_MODE: usize = 0x10;

/// What a return from exception loads: the user stack pointer, the program counter and
/// the program status.
#[derive(PartialEq, Eq, Structural, Clone, Copy, Debug)]
pub struct ReturnFromExceptionStack {
    pub sp: usize,
    pub pc: usize,
    pub cspr: usize,
}

/// What a stack switch loads: the callee-saved registers, the program counter and the
/// program status.
#[derive(Clone, Copy, Debug)]
pub struct SwitchFrame {
    pub regs: [usize; 11],
    pub pc: usize,
    pub cspr: usize,
}

/// The frames a new process starts from, with the kernel virtual addresses they are to
/// be written at, and the physical page of its user stack.
#[derive(Clone, Copy, Debug)]
pub struct ProcStack {
    pub user_stack: usize,
    pub rfe_addr: usize,
    pub rfe: ReturnFromExceptionStack,
    pub switch_addr: usize,
    pub switch: SwitchFrame,
}

/// Index of the first runnable process, if any.
pub open spec fn first_runnable(procs: Seq<Process>) -> Option<int> {
    if exists|i: int| 0 <= i < procs.len() && procs[i].state == State::Runnable {
        Some(
            choose|i: int|
                0 <= i < procs.len() && procs[i].state == State::Runnable && forall|j: int|
                    0 <= j < i ==> procs[j].state != State::Runnable,
        )
    } else {
        None
    }
}

/// `after` is `before` with the state of process `i` replaced by `state`.
pub open spec fn with_state(before: Seq<Process>, after: Seq<Process>, i: int, state: State) -> bool {
    &&& after.len() == before.len()
    &&& after[i] == (Process { state, ..before[i] })
    &&& forall|j: int| 0 <= j < before.len() && j != i ==> #[trigger] after[j] == before[j]
}

/// The process after a wake-up on `chan`: a process sleeping on `chan` becomes runnable.
pub open spec fn woken(p: Process, chan: usize) -> Process {
    if p.chan == chan && p.state == State::Sleeping {
        Process { state: State::Runnable, ..p }
    } else {
        p
    }
}

/// Allocates the page that receives a copy of the init program's code.
pub fn clone_init_code(heap: &mut KernAlloctor) -> (r: Result<Phys<Page>, Error>)
    requires
        old(heap).wf(),
        old(heap).available_above(PHYS_TO_VIRT as int),
    ensures
        final(heap).wf(),
        final(heap).available_above(PHYS_TO_VIRT as int),
        r is Err ==> r == Err::<Phys<Page>, Error>(Error::OutOfMem),
        r is Ok <==> old(heap).can_allocate(Layout { size: PAGE_SIZE, align: PAGE_SIZE }),
        forall|x: int| #[trigger] final(heap).available(x) ==> old(heap).available(x),
        (final(heap).curr_addr(), final(heap).free_blocks()) == old(heap).state_after(
            Layout { size: PAGE_SIZE, align: PAGE_SIZE },
        ),
        final(heap).end_addr() == old(heap).end_addr(),
        r matches Ok(p) ==> p.addr + PHYS_TO_VIRT + PAGE_SIZE <= usize::MAX,
        r matches Ok(p) ==> (p.addr + PHYS_TO_VIRT) % (PAGE_SIZE as int) == 0 && forall|x: int|
            p.addr + PHYS_TO_VIRT <= x < p.addr + PHYS_TO_VIRT + PAGE_SIZE ==> #[trigger] old(
                heap,
            ).available(x) && !final(heap).available(x),
{
    assert(4096usize & 4095usize == 0) by (bit_vector);
    proof {
        assert(crate::heap::block::BlockLayout::of_layout(Layout { size: PAGE_SIZE, align: PAGE_SIZE }).size.bytes == PAGE_SIZE);
    }
    kern_heap::allocate::<Page>(heap, Layout { size: PAGE_SIZE, align: PAGE_SIZE })
}

/// The return-from-exception frame and the switch frame both fit, one below the other,
/// in a kernel stack whose top is at `top`.
pub open spec fn frames_fit(top: usize) -> bool {
    let rfe_need = frame_need::<ReturnFromExceptionStack>(top);
    &&& vstd::layout::size_of::<ReturnFromExceptionStack>() > 0
    &&& vstd::layout::size_of::<SwitchFrame>() > 0
    &&& rfe_need <= PAGE_SIZE
    &&& frame_need::<SwitchFrame>((top - rfe_need) as usize) <= PAGE_SIZE - rfe_need
}

/// Prepares a new process to enter user mode at `entrypoint`: allocates a user stack
/// page and maps it read-write into the process's address space, then pushes on its
/// kernel stack a return-from-exception frame (top of the user stack, `entrypoint`,
/// user mode) and below it a switch frame (zeroed registers, `return_to_user`, `cpsr`),
/// and saves the new kernel stack pointer. Gives the frames to write and where. It
/// succeeds exactly when the heap holds the stack page, the address space has a hole
/// for it, the heap then holds the second-level table that mapping it may take, and the
/// frames fit on the kernel stack.
pub fn setup_proc_stack(
    heap: &mut KernAlloctor,
    proc: &mut Process,
    entrypoint: usize,
    cpsr: usize,
    return_to_user: usize,
) -> (r: Result<ProcStack, Error>)
    requires
        old(heap).wf(),
        old(heap).available_above(PHYS_TO_VIRT as int),
        old(proc).page_table matches Some(pt) && pt.wf(),
        old(proc).kern_stack + PAGE_SIZE <= usize::MAX,
    ensures
        final(heap).wf(),
        final(heap).available_above(PHYS_TO_VIRT as int),
        forall|x: int| #[trigger] final(heap).available(x) ==> old(heap).available(x),
        final(proc).page_table matches Some(pt) && pt.wf(),
        final(proc).pid == old(proc).pid,
        final(proc).kern_stack == old(proc).kern_stack,
        final(proc).chan == old(proc).chan,
        final(proc).state == old(proc).state,
        final(proc).page_table->0.base_addr() == old(proc).page_table->0.base_addr(),
        r is Ok <==> {
            let page = Layout { size: PAGE_SIZE, align: PAGE_SIZE };
            let table = old(proc).page_table->0.table_view();
            &&& old(heap).can_allocate(page)
            &&& table.find_scan(0, PAGE_SIZE as int) is Ok
            &&& can_allocate_seq(
                old(heap).state_after(page).0,
                old(heap).state_after(page).1,
                old(heap).end_addr(),
                l2_table_layout(),
                table.tables_needed(table.find_scan(0, PAGE_SIZE as int)->Ok_0, 1),
            )
            &&& frames_fit((old(proc).kern_stack + PAGE_SIZE) as usize)
        },
        r is Ok ==> final(proc).page_table->0.table_view().keeps_mappings(old(proc).page_table->0.table_view()),
        r is Err ==> r == Err::<ProcStack, Error>(Error::OutOfMem) || r == Err::<ProcStack, Error>(
            Error::OutOfRange,
        ),
        r is Err ==> final(proc).sp == old(proc).sp,
        r == Err::<ProcStack, Error>(Error::OutOfRange) ==> old(proc).page_table->0.table_view().find_scan(
            0,
            PAGE_SIZE as int,
        ) is Err,
        r matches Ok(ps) ==> {
            let top = (old(proc).kern_stack + PAGE_SIZE) as usize;
            &&& ps.rfe.cspr == USER_MODE
            &&& ps.rfe.pc == entrypoint
            &&& ps.rfe.sp >= PAGE_SIZE
            &&& final(proc).page_table->0.table_view().page_mapped_to(
                ps.rfe.sp - PAGE_SIZE,
                ps.user_stack as int,
                PagePerm::UserRw,
            )
            &&& forall|x: int|
                ps.user_stack + PHYS_TO_VIRT <= x < ps.user_stack + PHYS_TO_VIRT + PAGE_SIZE
                    ==> #[trigger] old(heap).available(x) && !final(heap).available(x)
            &&& ps.rfe_addr == top - frame_need::<ReturnFromExceptionStack>(top)
            &&& ps.switch_addr == ps.rfe_addr - frame_need::<SwitchFrame>(ps.rfe_addr)
            &&& ps.switch.regs@ == seq![0usize; 11]
            &&& ps.switch.pc == return_to_user
            &&& ps.switch.cspr == cpsr
            &&& final(proc).sp == ps.switch_addr
            &&& old(proc).kern_stack <= ps.switch_addr < ps.rfe_addr < top
        },
{
    assert(4096usize & 4095usize == 0) by (bit_vector);
    proof {
        assert(crate::heap::block::BlockLayout::of_layout(Layout { size: PAGE_SIZE, align: PAGE_SIZE }).size.bytes == PAGE_SIZE);
    }
    let stack = match kern_heap::allocate::<Page>(heap, Layout { size: PAGE_SIZE, align: PAGE_SIZE }) {
        Ok(s) => s,
        Err(e) => return Err(e),
    };
    let stack_addr = stack.addr();
    let mut pt = match proc.page_table.take() {
        Some(pt) => pt,
        None => return Err(Error::OutOfRange),
    };
    proof {
        assert((stack_addr + PHYS_TO_VIRT) % 4096 == 0);
        assert(stack_addr % 0x1000 == 0);
        pt.table_view().lemma_find_scan_range(0, PAGE_SIZE as int);
        pt.lemma_user_space();
    }
    let phys = Phys::<[u8]>::from_raw_parts(stack_addr, PAGE_SIZE);
    let ghost table0 = pt.table_view();
    let mapped = pt.map_memory(phys, PagePerm::UserRw, heap);
    proc.page_table = Some(pt);
    let mapped_stack = match mapped {
        Ok(m) => m,
        Err(e) => return Err(e),
    };
    proof {
        assert(crate::mmu::translation_table::page_count(PAGE_SIZE as int) == 1);
        assert(pt.table_view().page_mapped_to(table0.map_offset(mapped_stack.0 as int, 0), stack_addr + 0 * 4096, PagePerm::UserRw));
    }
    let frames_fit = core::mem::size_of::<ReturnFromExceptionStack>() > 0
        && core::mem::size_of::<SwitchFrame>() > 0;
    if !frames_fit {
        return Err(Error::OutOfMem);
    }
    let mut sp = StackPointer::from_slice(proc.kern_stack, PAGE_SIZE);
    let rfe_addr = match sp.alloc_frame::<ReturnFromExceptionStack>() {
        Ok(a) => a,
        Err(e) => return Err(e),
    };
    let rfe = ReturnFromExceptionStack { cspr: USER_MODE, sp: mapped_stack.0 + PAGE_SIZE, pc: entrypoint };
    let switch_addr = match sp.alloc_frame::<SwitchFrame>() {
        Ok(a) => a,
        Err(e) => return Err(e),
    };
    let switch = SwitchFrame { regs: [0; 11], pc: return_to_user, cspr: cpsr };
    proof {
        assert(switch.regs@ =~= seq![0usize; 11]);
    }
    proc.sp = sp.into_sp();
    Ok(ProcStack { user_stack: stack_addr, rfe_addr, rfe, switch_addr, switch })
}

/// Every allocation that creating the first process makes succeeds, one after another,
/// from an allocator with bump pointer `curr`, free blocks `free` and end `end`: its
/// kernel stack page, its first-level table, its code page, the second-level table that
/// maps the code, and its user stack page.
#[verifier::opaque]
pub open spec fn init_proc_room(curr: usize, free: Seq<Block>, end: usize) -> bool {
    let page = Layout { size: PAGE_SIZE, align: PAGE_SIZE };
    let l1 = Layout { size: L1_TABLE_SIZE, align: L1_TABLE_ALIGN };
    let s1 = state_after_from(curr, free, end, page);
    let s2 = state_after_from(s1.0, s1.1, end, l1);
    let s3 = state_after_from(s2.0, s2.1, end, page);
    let s4 = state_after_from(s3.0, s3.1, end, l2_table_layout());
    &&& can_allocate_from(curr, free, end, page)
    &&& can_allocate_from(s1.0, s1.1, end, l1)
    &&& can_allocate_from(s2.0, s2.1, end, page)
    &&& can_allocate_from(s3.0, s3.1, end, l2_table_layout())
    &&& can_allocate_from(s4.0, s4.1, end, page)
}

/// The two frames of a new process fit on every page-aligned kernel stack.
pub open spec fn frames_fit_on_page() -> bool {
    forall|top: usize| top % PAGE_SIZE == 0 && top >= PAGE_SIZE ==> #[trigger] frames_fit(top)
}

/// In a table that maps nothing, the first hole a one-page mapping gets is at `0x3000`,
/// and mapping it takes one new second-level table.
proof fn lemma_empty_table_first_hole(t: TranslationTable)
    requires
        t.space() == AddressSpace::User,
        forall|i: int| 0 <= i < L1_ENTRY_COUNT ==> #[trigger] t.entry(i) == 0,
    ensures
        t.find_scan(0, 0x1000) == Ok::<int, Error>(0x3000),
        t.tables_needed(0x3000, 1) == 1,
{
    t.lemma_find_scan_empty();
    assert(t.entry(l1_index_of(t.map_offset(0x3000, 0))) == 0);
    assert(0usize & 3 == 0) by (bit_vector);
    assert(t.needs_table(0x3000, 0));
    assert(t.tables_needed(0x3000, 0) == 0);
}

/// Once a page is mapped at `0x3000` in a table that mapped nothing, the next one-page
/// mapping goes to `0x4000`, under the second-level table already there, and the page at
/// `0x3000` is no hole.
proof fn lemma_second_hole(t0: TranslationTable, t1: TranslationTable, code: usize)
    requires
        t1.space() == AddressSpace::User,
        forall|i: int| 0 <= i < L1_ENTRY_COUNT ==> #[trigger] t0.entry(i) == 0,
        t1.changed_only(t0, 3, 4),
        t1.page_mapped_to(0x3000, code as int, PagePerm::UserRo),
    ensures
        t1.find_scan(0, 0x1000) == Ok::<int, Error>(0x4000),
        t1.tables_needed(0x4000, 1) == 0,
        !t1.is_hole(0x3000),
{
    let v = l2_mapped_value(code, PagePerm::UserRo);
    assert(v & 3 == 2) by (bit_vector)
        requires
            v == (code & SMALL_PAGE_MASK) | 2usize,
            SMALL_PAGE_MASK == 0xffff_f000usize,
    ;
    assert(slot_of(0x3000) == 3);
    assert(l1_index_of(0x3000) == 0);
    assert(l2_type_of(t1.slot(3)) != L2EntryType::Unmapped);
    assert(is_table_value(t1.entry(0)));
    assert(0usize & 3 == 0) by (bit_vector);
    assert(is_unmapped_value(t0.entry(0)));
    assert forall|u: int| 0 <= u < 7 && u != 3 implies l2_type_of(#[trigger] t1.slot(u)) == L2EntryType::Unmapped by {
        assert(u / 256 == 0);
        assert(t1.slot(u) == 0);
    }
    t1.lemma_find_scan_after_first();
    assert(t1.map_offset(0x4000, 0) == 0x4000);
    let w = t1.entry(0);
    assert(w & 3 == 1 ==> w & 3 != 0) by (bit_vector);
    assert(t1.tables_needed(0x4000, 0) == 0);
}

/// What the room for the first process asks of the heap, allocation by allocation,
/// where `h1` to `h4` are the heaps after each of the first four allocations.
proof fn lemma_init_proc_room(h0: KernAlloctor, h1: KernAlloctor, h2: KernAlloctor, h3: KernAlloctor, h4: KernAlloctor)
    ensures
        ({
            let page = Layout { size: PAGE_SIZE, align: PAGE_SIZE };
            let l1 = Layout { size: L1_TABLE_SIZE, align: L1_TABLE_ALIGN };
            let room = init_proc_room(h0.curr_addr(), h0.free_blocks(), h0.end_addr());
            let r1 = h1.end_addr() == h0.end_addr() && (h1.curr_addr(), h1.free_blocks()) == h0.state_after(page);
            let r2 = r1 && h2.end_addr() == h0.end_addr() && (h2.curr_addr(), h2.free_blocks()) == h1.state_after(l1);
            let r3 = r2 && h3.end_addr() == h0.end_addr() && (h3.curr_addr(), h3.free_blocks()) == h2.state_after(page);
            let r4 = r3 && h4.end_addr() == h0.end_addr() && (h4.curr_addr(), h4.free_blocks()) == h3.state_after(
                l2_table_layout(),
            );
            &&& room ==> h0.can_allocate(page)
            &&& r1 && room ==> h1.can_allocate(l1)
            &&& r2 && room ==> h2.can_allocate(page)
            &&& r3 && room ==> h3.can_allocate(l2_table_layout())
            &&& r4 && room ==> h4.can_allocate(page)
            &&& r4 && h0.can_allocate(page) && h1.can_allocate(l1) && h2.can_allocate(page)
                && h3.can_allocate(l2_table_layout()) && h4.can_allocate(page) ==> room
        }),
{
    reveal(init_proc_room);
}

/// Creates the first user process: takes the next process id (the counter wraps),
/// allocates the process and its address space, a page for its code, maps the code page
/// read-only into its address space and sets up its stacks to start at the code; the
/// process is appended to `procs`. Gives the kernel virtual address of the code page,
/// to copy the init program into, and the stack frames to write. It succeeds when the
/// heap holds what it allocates and the frames fit on the kernel stack; every failure is
/// `OutOfMem`, with the process list unchanged.
#[verifier::spinoff_prover]
#[verifier::rlimit(100)]
pub fn setup_init_proc(
    heap: &mut KernAlloctor,
    procs: &mut Vec<Process>,
    next_pid: &mut u32,
    cpsr: usize,
    return_to_user: usize,
) -> (r: Result<(usize, ProcStack), Error>)
    requires
        old(heap).wf(),
        old(heap).available_above(PHYS_TO_VIRT as int),
    ensures
        final(heap).wf(),
        final(heap).available_above(PHYS_TO_VIRT as int),
        forall|x: int| #[trigger] final(heap).available(x) ==> old(heap).available(x),
        *final(next_pid) == (if *old(next_pid) == u32::MAX { 0 } else { *old(next_pid) + 1 }),
        r is Err ==> final(procs)@ == old(procs)@,
        r is Ok ==> init_proc_room(old(heap).curr_addr(), old(heap).free_blocks(), old(heap).end_addr()),
        r is Err ==> !init_proc_room(old(heap).curr_addr(), old(heap).free_blocks(), old(heap).end_addr())
            || !frames_fit_on_page(),
        r is Err ==> r == Err::<(usize, ProcStack), Error>(Error::OutOfMem),

        
        !old(heap).can_allocate(Layout { size: PAGE_SIZE, align: PAGE_SIZE }) ==> r == Err::<
            (usize, ProcStack),
            Error,
        >(Error::OutOfMem),
        r matches Ok(res) ==> {
            let p = final(procs)@.last();
            &&& final(procs)@.len() == old(procs)@.len() + 1
            &&& final(procs)@.drop_last() == old(procs)@
            &&& p.pid == *old(next_pid)
            &&& p.state == State::Runnable
            &&& p.chan == 0
            &&& p.sp == res.1.switch_addr
            &&& p.kern_stack <= p.sp < p.kern_stack + PAGE_SIZE
            &&& res.0 % PAGE_SIZE == 0
            &&& res.1.rfe.cspr == USER_MODE
            &&& p.page_table matches Some(pt) && pt.wf() && pt.table_view().page_mapped_to(
                res.1.rfe.pc as int,
                res.0 - PHYS_TO_VIRT,
                PagePerm::UserRo,
            )
        },
{
    let ghost h0 = *heap;
    let pid = *next_pid;
    *next_pid = pid.wrapping_add(1);
    let mut init = match Process::with_pid(heap, pid) {
        Ok(p) => p,
        Err(e) => {
            proof {
                lemma_init_proc_room(h0, h0, h0, h0, h0);
                assert(!init_proc_room(h0.curr_addr(), h0.free_blocks(), h0.end_addr()));
            }
            return Err(e);
        },
    };
    let ghost h1 = *heap;
    let mut table = match PageTable::new(heap) {
        Ok(t) => t,
        Err(e) => {
            proof {
                lemma_init_proc_room(h0, h1, h1, h1, h1);
                assert(!init_proc_room(h0.curr_addr(), h0.free_blocks(), h0.end_addr()));
            }
            return Err(e);
        },
    };
    let ghost h2 = *heap;
    let code_page = match clone_init_code(heap) {
        Ok(c) => c,
        Err(e) => {
            proof {
                lemma_init_proc_room(h0, h1, h2, h2, h2);
                assert(!init_proc_room(h0.curr_addr(), h0.free_blocks(), h0.end_addr()));
            }
            return Err(e);
        },
    };
    let ghost h3 = *heap;
    let code_addr = code_page.addr();
    let ghost table0 = table.table_view();
    proof {
        assert(code_addr % 0x1000 == 0);
        table0.lemma_find_scan_range(0, PAGE_SIZE as int);
        table.lemma_user_space();
        lemma_empty_table_first_hole(table0);
        assert(crate::mmu::translation_table::page_count(PAGE_SIZE as int) == 1);
        lemma_seq_one(h3.curr_addr(), h3.free_blocks(), h3.end_addr(), l2_table_layout());
    }
    let mapped_code = match table.map_memory(
        Phys::<[u8]>::from_raw_parts(code_addr, PAGE_SIZE),
        PagePerm::UserRo,
        heap,
    ) {
        Ok(m) => m,
        Err(e) => {
            proof {
                lemma_init_proc_room(h0, h1, h2, h3, h3);
                assert(!init_proc_room(h0.curr_addr(), h0.free_blocks(), h0.end_addr()));
            }
            return Err(e);
        },
    };
    let ghost h4 = *heap;
    let ghost table1 = table.table_view();
    proof {
        assert(table1.page_mapped_to(table0.map_offset(mapped_code.0 as int, 0), code_addr + 0 * 4096, PagePerm::UserRo));
        lemma_second_hole(table0, table1, code_addr);
        assert(init.kern_stack + PAGE_SIZE <= usize::MAX);
        assert((init.kern_stack + PAGE_SIZE) % (PAGE_SIZE as int) == 0);
        lemma_init_proc_room(h0, h1, h2, h3, h4);
        let s5 = h4.state_after(Layout { size: PAGE_SIZE, align: PAGE_SIZE });
        lemma_seq_one(s5.0, s5.1, h4.end_addr(), l2_table_layout());
    }
    init.page_table = Some(table);
    let ghost top = (init.kern_stack + PAGE_SIZE) as usize;
    let stack = match setup_proc_stack(heap, &mut init, mapped_code.0, cpsr, return_to_user) {
        Ok(s) => s,
        Err(e) => {
            proof {
                if frames_fit_on_page() {
                    assert(frames_fit(top));
                    assert(!init_proc_room(h0.curr_addr(), h0.free_blocks(), h0.end_addr()));
                }
            }
            return Err(e);
        },
    };
    proof {
        assert(init.page_table->0.table_view().page_kept(table1, 0x3000));
    }
    procs.push(init);
    Ok((code_page.into_virt(), stack))
}

/// Marks the first runnable process running and gives its index; `None`, with nothing
/// changed, when no process is runnable.
pub fn search_runnable_proc(procs: &mut Vec<Process>) -> (r: Option<usize>)
    ensures
        match first_runnable(old(procs)@) {
            Some(i) => 0 <= i < old(procs)@.len() && old(procs)@[i].state == State::Runnable && (r matches Some(j) && j == i) && with_state(
                old(procs)@,
                final(procs)@,
                i,
                State::Running,
            ),
            None => r is None && final(procs)@ == old(procs)@,
        },
        r matches Some(i) ==> i < old(procs)@.len(),
        final(procs)@.len() == old(procs)@.len(),
{
    let mut i: usize = 0;
    while i < procs.len()
        invariant
            i <= procs@.len(),
            procs@ == old(procs)@,
            forall|j: int| 0 <= j < i ==> procs@[j].state != State::Runnable,
        decreases procs@.len() - i,
    {
        if procs[i].state == State::Runnable {
            proof {
                let s = procs@;
                let k = first_runnable(s)->0;
                assert(k == i as int) by {
                    if k < i {
                        assert(s[k].state != State::Runnable);
                    }
                    if k > i {
                        assert(s[i as int].state == State::Runnable);
                    }
                }
            }
            procs[i].state = State::Running;
            return Some(i);
        }
        i = i + 1;
    }
    None
}

/// Waking on a channel changes only a process that sleeps on that channel, and only
/// its state, which becomes runnable: a process that is running, runnable or a zombie,
/// or that sleeps on another channel, is left exactly as it was.
pub proof fn law_wakeup_only_sleepers(p: Process, chan: usize)
    ensures
        p.state != State::Sleeping ==> woken(p, chan) == p,
        p.chan != chan ==> woken(p, chan) == p,
        p.state == State::Sleeping && p.chan == chan ==> woken(p, chan).state == State::Runnable,
        woken(p, chan).pid == p.pid && woken(p, chan).chan == p.chan && woken(p, chan).sp == p.sp
            && woken(p, chan).kern_stack == p.kern_stack,
{
}

/// Wakes every process sleeping on `chan`: each becomes runnable; the others are left
/// as they are.
pub fn wakeup_irq_disabled(procs: &mut Vec<Process>, chan: usize)
    ensures
        forall|j: int|
            0 <= j < old(procs)@.len() && !(old(procs)@[j].state == State::Sleeping && old(procs)@[j].chan
                == chan) ==> #[trigger] final(procs)@[j] == old(procs)@[j],
        forall|j: int|
            0 <= j < old(procs)@.len() && old(procs)@[j].state == State::Sleeping && old(procs)@[j].chan
                == chan ==> #[trigger] final(procs)@[j] == (Process { state: State::Runnable, ..old(procs)@[j] }),
        final(procs)@.len() == old(procs)@.len(),
        forall|j: int| 0 <= j < old(procs)@.len() ==> #[trigger] final(procs)@[j] == woken(old(procs)@[j], chan),
{
    let mut i: usize = 0;
    while i < procs.len()
        invariant
            i <= procs@.len(),
            procs@.len() == old(procs)@.len(),
            forall|j: int| 0 <= j < i ==> #[trigger] procs@[j] == woken(old(procs)@[j], chan),
            forall|j: int| i <= j < procs@.len() ==> #[trigger] procs@[j] == old(procs)@[j],
        decreases procs@.len() - i,
    {
        if procs[i].chan == chan && procs[i].state == State::Sleeping {
            procs[i].state = State::Runnable;
        }
        i = i + 1;
    }
}

/// Wakes every process sleeping on `chan`, with interrupts masked.
pub fn wakeup(procs: &mut Vec<Process>, chan: usize)
    ensures
        forall|j: int|
            0 <= j < old(procs)@.len() && !(old(procs)@[j].state == State::Sleeping && old(procs)@[j].chan
                == chan) ==> #[trigger] final(procs)@[j] == old(procs)@[j],
        forall|j: int|
            0 <= j < old(procs)@.len() && old(procs)@[j].state == State::Sleeping && old(procs)@[j].chan
                == chan ==> #[trigger] final(procs)@[j] == (Process { state: State::Runnable, ..old(procs)@[j] }),
        final(procs)@.len() == old(procs)@.len(),
        forall|j: int| 0 <= j < old(procs)@.len() ==> #[trigger] final(procs)@[j] == woken(old(procs)@[j], chan),
{
    wakeup_irq_disabled(procs, chan)
}

/// Runs `f` on the current process (by its index in `procs`) and gives what it
/// returns; `NoCurrentProcess`, with nothing run, when no process is current.
pub fn with_current<Ret, F: FnOnce(&mut Process) -> Ret>(
    procs: &mut Vec<Process>,
    current: Option<usize>,
    f: F,
) -> (r: Result<Ret, Error>)
    requires
        current matches Some(i) ==> i < old(procs)@.len() && forall|p: &mut Process| f.requires((p,)),
    ensures
        current is None ==> r is Err && r->Err_0 == Error::NoCurrentProcess && final(procs)@ == old(procs)@,
        current is Some ==> r is Ok && final(procs)@.len() == old(procs)@.len(),
        current matches Some(i) ==> forall|j: int|
            0 <= j < old(procs)@.len() && j != i ==> #[trigger] final(procs)@[j] == old(procs)@[j],
{
    let i = match current {
        Some(i) => i,
        None => return Err(Error::NoCurrentProcess),
    };
    let ret = f(&mut procs[i]);
    Ok(ret)
}

/// Puts the current process (by its index in `procs`) to sleep on `chan`, before it
/// yields to the scheduler. `NoCurrentProcess`, with nothing changed, when no process
/// is current.
pub fn sleep_on(procs: &mut Vec<Process>, current: Option<usize>, chan: usize) -> (r: Result<(), Error>)
    requires
        current matches Some(i) ==> i < old(procs)@.len(),
    ensures
        match current {
            None => r == Err::<(), Error>(Error::NoCurrentProcess) && final(procs)@ == old(procs)@,
            Some(i) => r is Ok && final(procs)@.len() == old(procs)@.len() && final(procs)@[i as int]
                == (Process { state: State::Sleeping, chan, ..old(procs)@[i as int] }) && forall|j: int|
                0 <= j < old(procs)@.len() && j != i ==> #[trigger] final(procs)@[j] == old(procs)@[j],
        },
{
    let i = match current {
        Some(i) => i,
        None => return Err(Error::NoCurrentProcess),
    };
    procs[i].state = State::Sleeping;
    procs[i].chan = chan;
    Ok(())
}

/// One round of the scheduler: picks the first runnable process, marks it running and
/// current, and gives its index, the user translation-table base to load (0 for a
/// process that has no address space yet) and the kernel stack pointer to switch to. `None`, with nothing changed, when no process is
/// runnable.
pub fn sched_next(procs: &mut Vec<Process>, current: &mut PerCpu<Option<usize>>) -> (r: Option<
    (usize, usize, usize),
>)
    ensures
        match first_runnable(old(procs)@) {
            Some(i) => {
                &&& with_state(old(procs)@, final(procs)@, i, State::Running)
                &&& r matches Some(t) && t.0 == i && t.1 == (match old(procs)@[i].page_table {
                    Some(pt) => pt.base_addr(),
                    None => 0,
                })
                    && t.2 == old(procs)@[i].sp
                &&& final(current).value() matches Some(c) && c == i
            },
            None => r is None && final(procs)@ == old(procs)@ && final(current).value() == old(
                current,
            ).value(),
        },
{
    let ghost before = procs@;
    let found = search_runnable_proc(procs);
    match found {
        Some(i) => {
            proof {
                let k = first_runnable(before)->0;
                assert(first_runnable(before) == Some(k));
                assert(k == i as int);
                assert(with_state(before, procs@, k, State::Running));
                assert(procs@[k].page_table == before[k].page_table);
            }
            current.replace(Some(i));
            let ttbr0 = match &procs[i].page_table {
                Some(pt) => pt.apply_user(),
                None => 0,
            };
            Some((i, ttbr0, procs[i].sp))
        },
        None => None,
    }
}

} // verus!
