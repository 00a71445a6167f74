use vstd::prelude::*;

verus! {

/// The registers of the interrupt controller's distributor: the control register and
/// the set-enable registers, one bit per interrupt id.
#[derive(Clone, Copy, Debug)]
pub struct GicDispatcher {
    pub ctlr: u32,
    pub isenabler: [u32; 7],
}

/// The set-enable registers have the bit of interrupt id `n` set.
pub open spec fn enabled_in(isenabler: [u32; 7], n: int) -> bool {
    isenabler[n / 32] & (1u32 << ((n % 32) as u32)) != 0
}

impl GicDispatcher {
    /// Lets the distributor forward interrupts.
    pub fn enable_forarding(&mut self)
        ensures
            final(self).ctlr == 1,
            final(self).isenabler == old(self).isenabler,
    {
        self.ctlr = 1;
    }

    /// Enables interrupt id `interrupt_number` by setting its bit.
    pub fn enable_interrupt(&mut self, interrupt_number: usize)
        requires
            interrupt_number < 224,
        ensures
            final(self).ctlr == old(self).ctlr,
            final(self).isenabler@ == old(self).isenabler@.update(
                interrupt_number as int / 32,
                old(self).isenabler[interrupt_number as int / 32] | (1u32 << ((interrupt_number % 32) as u32)),
            ),
            enabled_in(final(self).isenabler, interrupt_number as int),
            forall|m: int|
                0 <= m < 224 && m != interrupt_number ==> #[trigger] enabled_in(final(self).isenabler, m)
                    == enabled_in(old(self).isenabler, m),
    {
        let index = interrupt_number / 32;
        let shift = (interrupt_number % 32) as u32;
        let bits = self.isenabler[index] | (1u32 << shift);
        proof {
            let old_bits = self.isenabler[index as int];
            assert((old_bits | (1u32 << shift)) & (1u32 << shift) != 0) by (bit_vector)
                requires
                    shift < 32,
            ;
        }
        let ghost before = self.isenabler;
        self.isenabler[index] = bits;
        proof {
            assert forall|m: int|
                0 <= m < 224 && m != interrupt_number implies #[trigger] enabled_in(self.isenabler, m)
                    == enabled_in(before, m) by {
                if m / 32 == index as int {
                    let x = before[index as int];
                    let t = (m % 32) as u32;
                    assert(t != shift);
                    lemma_other_bit_kept(x, shift, t);
                }
            }
        }
    }
}

/// Setting one bit of a word leaves every other bit as it was.
pub proof fn lemma_other_bit_kept(x: u32, s: u32, t: u32)
    requires
        s < 32,
        t < 32,
        s != t,
    ensures
        ((x | (1u32 << s)) & (1u32 << t) != 0) == (x & (1u32 << t) != 0),
{
    assert(((x | (1u32 << s)) & (1u32 << t) != 0) == (x & (1u32 << t) != 0)) by (bit_vector)
        requires
            s < 32,
            t < 32,
            s != t,
    ;
}

} // verus!
