use lib::error::Error;
use lib::heap::kern_allocator::KernAlloctor;
use lib::interrupts::gic_cpu::{GicCpu, ALLOW_ALL};
use lib::interrupts::gic_dispatcher::GicDispatcher;
use lib::interrupts::handlers::{
    find_handler_by_intterrupt, handler_isr, register_handler, HandlerTable, InterruptHandler,
};
use lib::interrupts::init_interrupt_handler;
use lib::interrupts::interrupt::Interrupt;
use lib::interrupts::interrupt_stack::setup_interrupt_stacks;
use lib::interrupts::interrupts_controller::InterruptController;
use lib::interrupts::irq_disable::{irq_disable_enter, irq_disable_exit, irq_state_save};
use lib::interrupts::timer::VirtualCounter;
use lib::mmu::per_cpu::PerCpu;
use lib::mmu::translation_table::{AddressSpace, L1Table, TranslationTable};

fn gicc() -> GicCpu {
    GicCpu { ctlr: 0, pmr: 0, bpr: 0, iar: 0, eoir: 0 }
}

fn gicd() -> GicDispatcher {
    GicDispatcher { ctlr: 0, isenabler: [0; 7] }
}

#[test]
fn controller_setup() {
    let c: InterruptController<u8> = InterruptController::new(gicd(), gicc(), 0);
    assert_eq!(c.cpu_interface.ctlr, 1);
    assert_eq!(c.cpu_interface.pmr, ALLOW_ALL);
    assert_eq!(c.dispatcher.ctlr, 1);
    assert!(c.irq_handlers.is_empty());
}

#[test]
fn register_enables_and_fills() {
    let mut c: InterruptController<u8> = InterruptController::new(gicd(), gicc(), 0);
    c.register(Interrupt::Ppi(11), 5);
    assert_eq!(c.irq_handlers.len(), 28);
    assert_eq!(c.irq_handlers[27], 5);
    assert_eq!(c.irq_handlers[26], 0);
    assert_eq!(c.dispatcher.isenabler[0], 1 << 27);
    c.register(Interrupt::Spi(1), 6);
    assert_eq!(c.irq_handlers.len(), 34);
    assert_eq!(c.irq_handlers[33], 6);
    assert_eq!(c.dispatcher.isenabler[1], 1 << 1);
}

#[test]
fn register_lower_id_truncates() {
    let mut c: InterruptController<u8> = InterruptController::new(gicd(), gicc(), 0);
    c.register(Interrupt::Spi(10), 1);
    c.register(Interrupt::Ppi(0), 2);
    assert_eq!(c.irq_handlers.len(), 17);
    assert_eq!(c.irq_handlers[16], 2);
}

#[test]
fn dispatch_and_finish() {
    let mut c: InterruptController<u8> = InterruptController::new(gicd(), gicc(), 0);
    c.register(Interrupt::Ppi(11), 5);
    c.cpu_interface.iar = 27;
    assert_eq!(c.current_handler(), (27, 5));
    c.finish_interrupt(27);
    assert_eq!(c.cpu_interface.eoir, 27);
}

struct Device;

impl InterruptHandler for Device {
    fn ack_interrupt(&self) {}
}

#[test]
fn device_handlers() {
    let mut table: HandlerTable<u32> = HandlerTable::new();
    let mut c: InterruptController<u8> = InterruptController::new(gicd(), gicc(), 0);
    assert_eq!(register_handler(&mut table, &mut c, 10, 1, Interrupt::Spi(0x2f)), Ok(()));
    assert_eq!(register_handler(&mut table, &mut c, 11, 1, Interrupt::Spi(0x2f)), Ok(()));
    assert_eq!(
        register_handler(&mut table, &mut c, 12, 1, Interrupt::Ppi(3)),
        Err(Error::Unsupproted)
    );
    assert_eq!(table.entries.len(), 2);
    assert_eq!(table.entries[0], (0x4f, 10));
    assert_eq!(c.irq_handlers[0x4f], 1);
    assert_eq!(find_handler_by_intterrupt(&table, 0x4f), Some(&10));
    assert_eq!(find_handler_by_intterrupt(&table, 0x50), None);
}

struct CountingDevice {
    acks: core::cell::Cell<u32>,
}

impl InterruptHandler for CountingDevice {
    fn ack_interrupt(&self) {
        self.acks.set(self.acks.get() + 1);
    }
}

#[test]
fn isr_acknowledges_first_matching_device_only() {
    let mut table: HandlerTable<CountingDevice> = HandlerTable::new();
    let mut c: InterruptController<u8> = InterruptController::new(gicd(), gicc(), 0);
    let dev = || CountingDevice { acks: core::cell::Cell::new(0) };
    register_handler(&mut table, &mut c, dev(), 1, Interrupt::Spi(2)).unwrap();
    register_handler(&mut table, &mut c, dev(), 1, Interrupt::Spi(1)).unwrap();
    register_handler(&mut table, &mut c, dev(), 1, Interrupt::Spi(1)).unwrap();
    assert!(handler_isr(&table, 33));
    assert_eq!(table.entries[0].1.acks.get(), 0);
    assert_eq!(table.entries[1].1.acks.get(), 1);
    assert_eq!(table.entries[2].1.acks.get(), 0);
    assert!(!handler_isr(&table, 40));
    assert_eq!(table.entries[1].1.acks.get(), 1);
}

#[test]
fn isr_acknowledges_registered_device() {
    let mut table: HandlerTable<Device> = HandlerTable::new();
    let mut c: InterruptController<u8> = InterruptController::new(gicd(), gicc(), 0);
    register_handler(&mut table, &mut c, Device, 1, Interrupt::Spi(1)).unwrap();
    assert!(handler_isr(&table, 33));
    assert!(!handler_isr(&table, 34));
}

#[test]
fn nested_irq_disable() {
    let mut depth = PerCpu::new(0u32);
    irq_disable_enter(&mut depth);
    irq_disable_enter(&mut depth);
    assert!(!irq_disable_exit(&mut depth));
    assert!(irq_disable_exit(&mut depth));
    assert_eq!(depth.get(), 0);
}

#[test]
fn state_save_restores_depth() {
    let mut depth = PerCpu::new(2u32);
    let r = irq_state_save(&mut depth, |d: &mut PerCpu<u32>| {
        d.set(0);
        42
    });
    assert_eq!(r, 42);
    assert_eq!(depth.get(), 2);
}

#[test]
fn timer_interrupt_setup() {
    let mut c = gicc();
    let mut d = gicd();
    init_interrupt_handler(&mut c, &mut d);
    assert_eq!(c.ctlr, 1);
    assert_eq!(c.pmr, ALLOW_ALL);
    assert_eq!(d.ctlr, 1);
    assert_eq!(d.isenabler[0], 1 << VirtualCounter.irq_id());
}

#[test]
fn interrupt_stack_top() {
    let mut heap = KernAlloctor::new(0x4800_0000, 0x4900_0000);
    let mut table = TranslationTable::new(L1Table::zeroed(), AddressSpace::Kernel);
    let top = setup_interrupt_stacks(&mut table, &mut heap).unwrap();
    assert_eq!(top % 4096, 0);
    assert!(table.virt_to_phys(top - 4096).is_some());
    assert_eq!(table.virt_to_phys(top - 8192), None);
}

#[test]
fn interrupt_stack_out_of_memory() {
    let mut heap = KernAlloctor::new(0x4800_0000, 0x4800_0100);
    let mut table = TranslationTable::new(L1Table::zeroed(), AddressSpace::Kernel);
    assert_eq!(setup_interrupt_stacks(&mut table, &mut heap), Err(Error::OutOfMem));
    assert_eq!(table.virt_to_phys(0x8000_1000), None);
}

#[test]
fn interrupt_stack_without_room_for_table() {
    let mut heap = KernAlloctor::new(0x4800_0000, 0x4800_1000);
    let mut table = TranslationTable::new(L1Table::zeroed(), AddressSpace::Kernel);
    assert_eq!(setup_interrupt_stacks(&mut table, &mut heap), Err(Error::OutOfMem));
}

#[test]
fn interrupt_stack_maps_heap_page() {
    let mut heap = KernAlloctor::new(0x4800_0000, 0x4900_0000);
    let mut table = TranslationTable::new(L1Table::zeroed(), AddressSpace::Kernel);
    let top = setup_interrupt_stacks(&mut table, &mut heap).unwrap();
    let phys = table.virt_to_phys(top - 4096).unwrap();
    assert_eq!(phys + lib::memory_model::PHYS_TO_VIRT, 0x4800_0000);
}
