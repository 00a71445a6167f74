use vstd::prelude::*;

verus! {

/// Types that can be held in a per-processor variable.
pub trait PerCpuable {}

impl PerCpuable for u32 {}

impl PerCpuable for usize {}

impl<T: PerCpuable> PerCpuable for Option<T> {}

/// A variable of which each processor has its own copy.
pub struct PerCpu<T: PerCpuable> {
    val: T,
}

impl<T: PerCpuable> PerCpu<T> {
    /// The value this processor's copy holds.
    pub closed spec fn value(&self) -> T {
        self.val
    }

    /// A variable holding `val`.
    pub fn new(val: T) -> (r: Self)
        ensures
            r.value() == val,
    {
        PerCpu { val }
    }

    /// The place of the value, to read or write it in place.
    pub fn as_ptr(&mut self) -> (r: &mut T)
        ensures
            *r == old(self).value(),
            final(self).value() == *final(r),
    {
        &mut self.val
    }

    /// Stores `val`.
    pub fn set(&mut self, val: T)
        ensures
            final(self).value() == val,
    {
        self.val = val;
    }
}

impl<T: PerCpuable + Copy> PerCpu<T> {
    /// The value held.
    pub fn get(&self) -> (r: T)
        ensures
            r == self.value(),
    {
        self.val
    }

    /// Stores `val` and gives back the value held before.
    pub fn replace(&mut self, val: T) -> (r: T)
        ensures
            r == old(self).value(),
            final(self).value() == val,
    {
        let old = self.get();
        self.set(val);
        old
    }
}

} // verus!
