use lib::error::Error;
use lib::heap::kern_allocator::KernAlloctor;
use lib::mmu::page_table::PageTable;
use lib::mmu::per_cpu::PerCpu;
use lib::mmu::translation_table::{AddressSpace, L1Table, TranslationTable};
use lib::sched::init::setup_init;
use lib::sched::proc::{Process, StackPointer, State};
use lib::sched::scheduler::{
    sched_next, search_runnable_proc, setup_init_proc, setup_proc_stack, sleep_on, wakeup,
    ReturnFromExceptionStack, SwitchFrame, USER_MODE,
};

fn heap() -> KernAlloctor {
    KernAlloctor::new(0x4800_0000, 0x4900_0000)
}

fn procs(heap: &mut KernAlloctor, states: &[State]) -> Vec<Process> {
    let mut v = Vec::new();
    for (i, s) in states.iter().enumerate() {
        let mut p = Process::with_pid(heap, i as u32 + 1).unwrap();
        p.state = *s;
        v.push(p);
    }
    v
}

#[test]
fn new_process_is_runnable() {
    let mut heap = heap();
    let p = Process::with_pid(&mut heap, 7).unwrap();
    assert_eq!(p.pid, 7);
    assert_eq!(p.state, State::Runnable);
    assert_eq!(p.sp, 0);
    assert_eq!(p.chan, 0);
    assert_eq!(p.kern_stack % 4096, 0);
    assert!(p.page_table.is_none());
    let mut p = p;
    assert_eq!(p.fd.lock().len(), 0);
}

#[test]
fn new_process_needs_only_its_stack() {
    let mut heap = KernAlloctor::new(0x4800_0000, 0x4800_1000);
    let p = Process::with_pid(&mut heap, 3).unwrap();
    assert_eq!(p.kern_stack, 0x4800_0000);
    assert!(matches!(Process::with_pid(&mut heap, 4), Err(Error::OutOfMem)));
}

#[test]
fn process_out_of_memory() {
    let mut heap = KernAlloctor::new(0x4800_0000, 0x4800_0100);
    assert!(matches!(Process::with_pid(&mut heap, 1), Err(Error::OutOfMem)));
}

#[test]
fn stack_pointer_frames() {
    let mut sp = StackPointer::from_slice(0x1000, 64);
    assert_eq!(sp.alloc_frame::<[u32; 4]>(), Ok(0x1040 - 16));
    assert_eq!(sp.alloc_frame::<[u8; 40]>(), Ok(0x1030 - 40));
    assert_eq!(sp.alloc_frame::<[u8; 16]>(), Err(Error::OutOfMem));
    assert_eq!(sp.into_sp(), 0x1008);
}

#[test]
fn stack_pointer_misaligned_top() {
    let mut sp = StackPointer::from_slice(0x1000, 0x21);
    assert_eq!(sp.alloc_frame::<u64>(), Ok(0x1021 - 9));
}

#[test]
fn scheduler_picks_first_runnable() {
    let mut heap = heap();
    let mut ps = procs(&mut heap, &[State::Sleeping, State::Runnable, State::Runnable]);
    assert_eq!(search_runnable_proc(&mut ps), Some(1));
    assert_eq!(ps[1].state, State::Running);
    assert_eq!(ps[2].state, State::Runnable);
    assert_eq!(search_runnable_proc(&mut ps), Some(2));
    assert_eq!(search_runnable_proc(&mut ps), None);
}

#[test]
fn sleep_and_wakeup() {
    let mut heap = heap();
    let mut ps = procs(&mut heap, &[State::Running, State::Sleeping]);
    ps[1].chan = 9;
    assert_eq!(sleep_on(&mut ps, None, 5), Err(Error::NoCurrentProcess));
    assert_eq!(sleep_on(&mut ps, Some(0), 5), Ok(()));
    assert_eq!(ps[0].state, State::Sleeping);
    assert_eq!(ps[0].chan, 5);
    wakeup(&mut ps, 5);
    assert_eq!(ps[0].state, State::Runnable);
    assert_eq!(ps[1].state, State::Sleeping);
}

#[test]
fn sched_next_sets_current() {
    let mut heap = heap();
    let mut ps = procs(&mut heap, &[State::Zombie, State::Runnable]);
    let mut current = PerCpu::new(None);
    let (i, ttbr0, sp) = sched_next(&mut ps, &mut current).unwrap();
    assert_eq!(i, 1);
    assert_eq!(ttbr0, 0);
    assert_eq!(sp, ps[1].sp);
    assert_eq!(current.get(), Some(1));
    assert_eq!(sched_next(&mut ps, &mut current), None);
    assert_eq!(current.get(), Some(1));
}

#[test]
fn proc_stack_frames() {
    let mut heap = heap();
    let mut p = Process::with_pid(&mut heap, 1).unwrap();
    p.page_table = Some(PageTable::new(&mut heap).unwrap());
    let stack = setup_proc_stack(&mut heap, &mut p, 0x4000, 0x1d3, 0x8000_1234).unwrap();
    assert_eq!(stack.rfe.cspr, USER_MODE);
    assert_eq!(stack.rfe.pc, 0x4000);
    assert_eq!(stack.rfe.sp % 4096, 0);
    let rfe_size = core::mem::size_of::<ReturnFromExceptionStack>();
    assert_eq!(stack.rfe_addr, p.kern_stack + 4096 - rfe_size);
    assert_eq!(stack.switch.regs, [0; 11]);
    assert_eq!(stack.switch.pc, 0x8000_1234);
    assert_eq!(stack.switch.cspr, 0x1d3);
    assert_eq!(p.sp, stack.switch_addr);
    assert!(stack.switch_addr < stack.rfe_addr);
    assert!(p.kern_stack <= p.sp && p.sp < p.kern_stack + 4096);
    assert_eq!(stack.switch_addr % core::mem::align_of::<SwitchFrame>(), 0);
}

#[test]
fn proc_stack_out_of_memory() {
    let mut heap = heap();
    let mut p = Process::with_pid(&mut heap, 1).unwrap();
    p.page_table = Some(PageTable::new(&mut heap).unwrap());
    let mut small = KernAlloctor::new(0x4800_0000, 0x4800_0100);
    let before = p.sp;
    assert!(matches!(setup_proc_stack(&mut small, &mut p, 0x4000, 0, 0), Err(Error::OutOfMem)));
    assert_eq!(p.sp, before);
}

#[test]
fn init_process_layout() {
    let mut heap = heap();
    let mut ps = Vec::new();
    let mut next_pid = 1u32;
    let (_code, stack) = setup_init_proc(&mut heap, &mut ps, &mut next_pid, 0, 0).unwrap();
    assert_eq!(stack.rfe.pc, 0x3000);
    assert_eq!(stack.rfe.sp, 0x5000);
    assert!(ps[0].kern_stack <= ps[0].sp && ps[0].sp < ps[0].kern_stack + 4096);
    assert!(ps[0].page_table.is_some());
}

#[test]
fn init_process_out_of_memory() {
    let mut heap = KernAlloctor::new(0x4800_0000, 0x4800_2000);
    let mut ps = Vec::new();
    let mut next_pid = 5u32;
    assert!(matches!(setup_init_proc(&mut heap, &mut ps, &mut next_pid, 0, 0), Err(Error::OutOfMem)));
    assert_eq!(next_pid, 6);
    assert_eq!(ps.len(), 0);
}

#[test]
fn init_process_is_created() {
    let mut heap = heap();
    let mut ps = Vec::new();
    let mut next_pid = 1u32;
    let (code, stack) = setup_init_proc(&mut heap, &mut ps, &mut next_pid, 0x1d3, 0x8000_1234).unwrap();
    assert_eq!(next_pid, 2);
    assert_eq!(ps.len(), 1);
    assert_eq!(ps[0].pid, 1);
    assert_eq!(ps[0].sp, stack.switch_addr);
    assert_eq!(code % 4096, 0);
    assert_eq!(stack.rfe.cspr, USER_MODE);
}

#[test]
fn pid_counter_wraps() {
    let mut heap = heap();
    let mut ps = Vec::new();
    let mut next_pid = u32::MAX;
    setup_init_proc(&mut heap, &mut ps, &mut next_pid, 0, 0).unwrap();
    assert_eq!(next_pid, 0);
    assert_eq!(ps[0].pid, u32::MAX);
}

#[test]
fn init_mapping_in_user_table() {
    let mut heap = heap();
    let mut table = TranslationTable::new(L1Table::zeroed(), AddressSpace::User);
    let stack = setup_init(&mut table, &mut heap, 0x1000_0000).unwrap();
    assert_eq!(table.virt_to_phys(0x1000), Some(stack.addr()));
}

#[test]
fn init_mapping_in_kernel_table_is_out_of_range() {
    let mut heap = heap();
    let mut table = TranslationTable::new(L1Table::zeroed(), AddressSpace::Kernel);
    assert!(matches!(setup_init(&mut table, &mut heap, 0x1000_0000), Err(Error::OutOfRange)));
}

#[test]
fn init_mapping_without_room_for_stack() {
    let mut heap = KernAlloctor::new(0x4800_0000, 0x4800_0100);
    let mut table = TranslationTable::new(L1Table::zeroed(), AddressSpace::User);
    assert!(matches!(setup_init(&mut table, &mut heap, 0x1000_0000), Err(Error::OutOfMem)));
}

#[test]
fn init_mapping_without_room_for_table() {
    let mut heap = KernAlloctor::new(0x4800_0000, 0x4800_1000);
    let mut table = TranslationTable::new(L1Table::zeroed(), AddressSpace::User);
    assert!(matches!(setup_init(&mut table, &mut heap, 0x1000_0000), Err(Error::OutOfMem)));
    assert_eq!(table.virt_to_phys(0), None);
}

#[test]
fn with_current_runs_on_current() {
    let mut heap = heap();
    let mut ps = procs(&mut heap, &[State::Running, State::Runnable]);
    let r = lib::sched::scheduler::with_current(&mut ps, Some(1), |p: &mut Process| {
        p.chan = 3;
        p.pid
    });
    assert_eq!(r, Ok(2));
    assert_eq!(ps[1].chan, 3);
    let none = lib::sched::scheduler::with_current(&mut ps, None, |p: &mut Process| p.pid);
    assert_eq!(none, Err(Error::NoCurrentProcess));
}
