use vstd::prelude::*;

use crate::interrupts::gic_cpu::{GicCpu, ALLOW_ALL};
use crate::interrupts::gic_dispatcher::{enabled_in, GicDispatcher};
use crate::interrupts::interrupt::{interrupt_id, Interrupt};

verus! {

/// The handler table after it was resized to `len` entries: cut down to its first `len`
/// entries, or grown with copies of `fill`.
pub open spec fn resized<H>(handlers: Seq<H>, len: int, fill: H) -> Seq<H> {
    if len <= handlers.len() {
        handlers.subrange(0, len)
    } else {
        handlers + Seq::new((len - handlers.len()) as nat, |i: int| fill)
    }
}

/// Registering a handler for interrupt id `id` in a table of `handlers` leaves a table
/// that ends at `id`, holds the handler at `id`, keeps the handlers below `id` that were
/// there, and has `fill` wherever it had to grow.
pub proof fn law_register_table<H>(handlers: Seq<H>, id: int, handler: H, fill: H)
    requires
        0 <= id,
    ensures
        ({
            let t = resized(handlers, id + 1, fill).update(id, handler);
            &&& t.len() == id + 1
            &&& t[id] == handler
            &&& forall|i: int| 0 <= i < id && i < handlers.len() ==> #[trigger] t[i] == handlers[i]
            &&& forall|i: int| handlers.len() <= i < id ==> #[trigger] t[i] == fill
        }),
{
}

/// The interrupt controller: the distributor and CPU interface registers, and a handler
/// per interrupt id, `default_handler` where none was registered.
pub struct InterruptController<H> {
    pub dispatcher: GicDispatcher,
    pub cpu_interface: GicCpu,
    pub irq_handlers: Vec<H>,
    pub default_handler: H,
}

impl<H: Copy> InterruptController<H> {
    /// Takes over the controller: the CPU interface signals interrupts to the processor
    /// and lets every priority through, the distributor forwards interrupts, and no
    /// handler is registered yet.
    pub fn new(dispatcher: GicDispatcher, cpu_interface: GicCpu, default_handler: H) -> (r: Self)
        ensures
            r.cpu_interface == (GicCpu { ctlr: 1, pmr: ALLOW_ALL, ..cpu_interface }),
            r.dispatcher == (GicDispatcher { ctlr: 1, ..dispatcher }),
            r.irq_handlers@.len() == 0,
            r.default_handler == default_handler,
    {
        let mut cpu_interface = cpu_interface;
        let mut dispatcher = dispatcher;
        cpu_interface.enable_singaling_to_cpu();
        cpu_interface.set_prio_mask(ALLOW_ALL);
        dispatcher.enable_forarding();
        InterruptController { cpu_interface, dispatcher, irq_handlers: Vec::new(), default_handler }
    }

    /// Registers `handler` for `interrupt`: the table is resized to end at the
    /// interrupt's id (dropping entries above it, filling new ones with the default
    /// handler), the handler is stored at the id, and the distributor enables the id.
    pub fn register(&mut self, interrupt: Interrupt, handler: H)
        requires
            interrupt_id(interrupt) < 224,
        ensures
            final(self).irq_handlers@ == resized(
                old(self).irq_handlers@,
                interrupt_id(interrupt) + 1,
                old(self).default_handler,
            ).update(interrupt_id(interrupt), handler),
            final(self).dispatcher.ctlr == old(self).dispatcher.ctlr,
            final(self).dispatcher.isenabler@ == old(self).dispatcher.isenabler@.update(
                interrupt_id(interrupt) / 32,
                old(self).dispatcher.isenabler[interrupt_id(interrupt) / 32] | (1u32 << ((
                interrupt_id(interrupt) % 32) as u32)),
            ),
            enabled_in(final(self).dispatcher.isenabler, interrupt_id(interrupt)),
            final(self).cpu_interface == old(self).cpu_interface,
            final(self).default_handler == old(self).default_handler,
    {
        let id: usize = match interrupt {
            Interrupt::Spi(num) => num as usize + 32,
            Interrupt::Ppi(num) => num as usize + 16,
        };
        let len: usize = id + 1;
        let ghost before = self.irq_handlers@;
        let ghost target = resized(before, len as int, self.default_handler);
        if len <= self.irq_handlers.len() {
            self.irq_handlers.truncate(len);
        } else {
            while self.irq_handlers.len() < len
                invariant
                    before.len() <= self.irq_handlers@.len() <= len,
                    len == id + 1,
                    target == resized(before, len as int, self.default_handler),
                    len > before.len(),
                    self.dispatcher == old(self).dispatcher,
                    self.cpu_interface == old(self).cpu_interface,
                    self.default_handler == old(self).default_handler,
                    forall|i: int|
                        0 <= i < self.irq_handlers@.len() ==> #[trigger] self.irq_handlers@[i]
                            == target[i],
                decreases len - self.irq_handlers@.len(),
            {
                let fill = self.default_handler;
                self.irq_handlers.push(fill);
            }
            assert(self.irq_handlers@ =~= target);
        }
        self.irq_handlers.set(id, handler);
        self.dispatcher.enable_interrupt(id);
    }

    /// The id of the interrupt being signalled and the handler registered for it.
    pub fn current_handler(&self) -> (r: (u32, H))
        requires
            (self.cpu_interface.iar as int) < self.irq_handlers@.len(),
        ensures
            r.0 == self.cpu_interface.iar,
            r.1 == self.irq_handlers@[self.cpu_interface.iar as int],
    {
        let int_num = self.cpu_interface.current_interrupt_number();
        (int_num, self.irq_handlers[int_num as usize])
    }

    /// Tells the CPU interface that interrupt `int_num` has been handled.
    pub fn finish_interrupt(&mut self, int_num: u32)
        ensures
            final(self).cpu_interface == (GicCpu { eoir: int_num, ..old(self).cpu_interface }),
            final(self).dispatcher == old(self).dispatcher,
            final(self).irq_handlers@ == old(self).irq_handlers@,
            final(self).default_handler == old(self).default_handler,
    {
        self.cpu_interface.signal_end(int_num);
    }
}

} // verus!
