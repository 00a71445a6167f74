use vstd::prelude::*;

use core::ops::Range;

use crate::num::{align_down_usize, AlignDown};

verus! {

/// The values `start`, `start + step`, ... that are below `end`, stopping rather than
/// wrapping around when a step overflows.
#[derive(PartialEq, Eq, Structural, Clone, Copy, Debug)]
pub struct StepRange {
    pub start: Option<usize>,
    pub end: usize,
    pub step: usize,
}

impl StepRange {
    /// How many values are still to come.
    pub open spec fn steps_left(self) -> nat {
        match self.start {
            None => 0,
            Some(s) => if s >= self.end || self.step == 0 {
                0
            } else {
                ((self.end - s + self.step - 1) / (self.step as int)) as nat
            },
        }
    }

    /// The values from `start` to below `end`, `step` apart.
    pub fn new(start: usize, end: usize, step: usize) -> (r: Self)
        ensures
            r == (StepRange { start: Some(start), end, step }),
    {
        StepRange { start: Some(start), end, step }
    }

    /// The values from `range.start` rounded down to a multiple of `step`, up to below
    /// `range.end`.
    pub fn align_from(range: Range<usize>, step: usize) -> (r: Self)
        requires
            step > 0,
        ensures
            r == (StepRange {
                start: Some(align_down_usize(range.start, step)),
                end: range.end,
                step,
            }),
    {
        StepRange { start: Some(range.start.align_down(step)), end: range.end, step }
    }

    /// The next value, if any.
    pub fn next(&mut self) -> (r: Option<usize>)
        ensures
            final(self).end == old(self).end,
            final(self).step == old(self).step,
            match old(self).start {
                None => r.is_none() && final(self).start.is_none(),
                Some(s) => if s >= old(self).end {
                    r.is_none() && final(self).start == old(self).start
                } else {
                    &&& r == Some(s)
                    &&& s + old(self).step > usize::MAX ==> final(self).start.is_none()
                    &&& s + old(self).step <= usize::MAX ==> final(self).start == Some(
                        (s + old(self).step) as usize,
                    )
                },
            },
            old(self).step > 0 ==> (r.is_some() <==> old(self).steps_left() > 0),
            old(self).step > 0 && r.is_some() ==> final(self).steps_left() == old(self).steps_left()
                - 1,
    {
        let start = match self.start {
            Some(s) => s,
            None => return None,
        };
        if start >= self.end {
            return None;
        }
        let (n, overflow) = crate::num::OverflowingAdd::overflowing_add(start, self.step);
        proof {
            if self.step > 0 {
                lemma_steps_left_decreases(start as int, self.end as int, self.step as int);
            }
        }
        if overflow {
            self.start = None;
            Some(start)
        } else {
            self.start = Some(n);
            Some(start)
        }
    }
}

proof fn lemma_steps_left_decreases(s: int, end: int, step: int)
    requires
        0 <= s < end,
        step > 0,
    ensures
        (end - s + step - 1) / step >= 1,
        s + step >= end ==> (end - s + step - 1) / step == 1,
        s + step < end ==> (end - (s + step) + step - 1) / step == (end - s + step - 1) / step - 1,
{
    let x = end - s + step - 1;
    assert(x >= step);
    vstd::arithmetic::div_mod::lemma_div_is_ordered(step, x, step);
    vstd::arithmetic::div_mod::lemma_div_by_self(step);
    if s + step >= end {
        vstd::arithmetic::div_mod::lemma_div_plus_one(x - step, step);
        assert(x - step < step);
        vstd::arithmetic::div_mod::lemma_basic_div(x - step, step);
    } else {
        vstd::arithmetic::div_mod::lemma_div_plus_one(x - step, step);
    }
}

} // verus!
