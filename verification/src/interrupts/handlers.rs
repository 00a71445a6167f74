use vstd::prelude::*;

use crate::error::Error;
use crate::interrupts::interrupt::{interrupt_id, Interrupt};
use crate::interrupts::interrupts_controller::{resized, InterruptController};

verus! {

/// A device driver's handler of its interrupt.
pub trait InterruptHandler {
    /// The device's interrupt has been acknowledged through this handler. A driver that
    /// keeps no record of acknowledgements leaves it true.
    open spec fn acknowledged(&self) -> bool {
        true
    }

    /// Acknowledges the interrupt at the device.
    fn ack_interrupt(&self)
        ensures
            self.acknowledged(),
    ;
}

/// The registered device handlers, each with the interrupt id it serves, in the order of
/// registration.
pub struct HandlerTable<A> {
    pub entries: Vec<(u32, A)>,
}

/// Index of the first entry for interrupt id `interrupt`, if any.
pub open spec fn first_entry<A>(entries: Seq<(u32, A)>, interrupt: u32) -> Option<int> {
    if exists|i: int| 0 <= i < entries.len() && entries[i].0 == interrupt {
        Some(
            choose|i: int|
                0 <= i < entries.len() && entries[i].0 == interrupt && forall|j: int|
                    0 <= j < i ==> entries[j].0 != interrupt,
        )
    } else {
        None
    }
}

impl<A> HandlerTable<A> {
    /// A table with no handler.
    pub fn new() -> (r: Self)
        ensures
            r.entries@.len() == 0,
    {
        HandlerTable { entries: Vec::new() }
    }
}

/// Registers a device `handler` for a shared peripheral interrupt: the table gains the
/// handler under the interrupt's id, and the controller dispatches the interrupt to
/// `isr`, the routine that acknowledges through the table. Private peripheral
/// interrupts are refused with `Unsupproted`, and nothing changes.
pub fn register_handler<A, H: Copy>(
    table: &mut HandlerTable<A>,
    controller: &mut InterruptController<H>,
    handler: A,
    isr: H,
    interrupt: Interrupt,
) -> (r: Result<(), Error>)
    requires
        interrupt is Spi ==> interrupt_id(interrupt) < 224,
    ensures
        interrupt is Ppi ==> r == Err::<(), Error>(Error::Unsupproted) && final(table).entries@
            == old(table).entries@ && final(controller).irq_handlers@ == old(
            controller,
        ).irq_handlers@ && final(controller).dispatcher == old(controller).dispatcher,
        interrupt is Spi ==> {
            &&& r is Ok
            &&& final(table).entries@ == old(table).entries@.push(
                (interrupt_id(interrupt) as u32, handler),
            )
            &&& final(controller).irq_handlers@ == resized(
                old(controller).irq_handlers@,
                interrupt_id(interrupt) + 1,
                old(controller).default_handler,
            ).update(interrupt_id(interrupt), isr)
            &&& crate::interrupts::gic_dispatcher::enabled_in(
                final(controller).dispatcher.isenabler,
                interrupt_id(interrupt),
            )
        },
{
    let interrupt_num: u32 = match interrupt {
        Interrupt::Spi(num) => num as u32 + 32,
        _ => return Err(Error::Unsupproted),
    };
    table.entries.push((interrupt_num, handler));
    controller.register(interrupt, isr);
    Ok(())
}

/// The handler of the first entry registered for interrupt id `interrupt`, if any.
pub fn find_handler_by_intterrupt<A>(table: &HandlerTable<A>, interrupt: u32) -> (r: Option<&A>)
    ensures
        match first_entry(table.entries@, interrupt) {
            Some(i) => 0 <= i < table.entries@.len() && table.entries@[i].0 == interrupt && r == Some(
                &table.entries@[i].1,
            ),
            None => r is None,
        },
{
    let mut i: usize = 0;
    while i < table.entries.len()
        invariant
            i <= table.entries@.len(),
            forall|j: int| 0 <= j < i ==> table.entries@[j].0 != interrupt,
        decreases table.entries@.len() - i,
    {
        if table.entries[i].0 == interrupt {
            proof {
                let s = table.entries@;
                assert(0 <= i < s.len() && s[i as int].0 == interrupt);
                let k = first_entry(s, interrupt)->0;
                assert(k == i as int) by {
                    if k < i {
                        assert(s[k].0 != interrupt);
                    }
                    if k > i {
                        assert(s[i as int].0 == interrupt);
                    }
                }
            }
            return Some(&table.entries[i].1);
        }
        i = i + 1;
    }
    None
}

/// Acknowledges interrupt id `int_num` at the first device registered for it; does
/// nothing where none is.
pub fn handler_isr<A: InterruptHandler>(table: &HandlerTable<A>, int_num: u32) -> (r: bool)
    ensures
        r == (first_entry(table.entries@, int_num) is Some),
        first_entry(table.entries@, int_num) matches Some(i) ==> table.entries@[i].1.acknowledged(),
{
    match find_handler_by_intterrupt(table, int_num) {
        Some(handler) => {
            handler.ack_interrupt();
            true
        },
        None => false,
    }
}

} // verus!
