use vstd::prelude::*;

verus! {

/// `value` rounded up to the next multiple of `align`, saturating at `usize::MAX`.
pub open spec fn align_up_usize(value: usize, align: usize) -> usize {
    if value % align == 0 {
        value
    } else if value - value % align + align > usize::MAX {
        usize::MAX
    } else {
        (value - value % align + align) as usize
    }
}

/// `value` rounded down to a multiple of `align`.
pub open spec fn align_down_usize(value: usize, align: usize) -> usize {
    (value - value % align) as usize
}

/// Addition that reports whether it wrapped around.
pub trait OverflowingAdd: Sized {
    spec fn overflowing_add_result(self, rhs: Self) -> (Self, bool);

    fn overflowing_add(self, rhs: Self) -> (r: (Self, bool))
        ensures
            r == self.overflowing_add_result(rhs),
    ;
}

impl OverflowingAdd for usize {
    open spec fn overflowing_add_result(self, rhs: usize) -> (usize, bool) {
        if self + rhs > usize::MAX {
            ((self + rhs - usize::MAX - 1) as usize, true)
        } else {
            ((self + rhs) as usize, false)
        }
    }

    fn overflowing_add(self, rhs: usize) -> (r: (usize, bool)) {
        match self.checked_add(rhs) {
            Some(v) => (v, false),
            None => {
                let r: usize = rhs - (usize::MAX - self) - 1;
                (r, true)
            },
        }
    }
}

/// The bounds of an integer type.
pub trait Integer: Sized {
    spec fn zero_value() -> Self;

    spec fn max_value() -> Self;

    fn zero() -> (r: Self)
        ensures
            r == Self::zero_value(),
    ;

    fn max() -> (r: Self)
        ensures
            r == Self::max_value(),
    ;
}

impl Integer for usize {
    open spec fn zero_value() -> usize {
        0
    }

    open spec fn max_value() -> usize {
        usize::MAX
    }

    fn zero() -> (r: usize) {
        0
    }

    fn max() -> (r: usize) {
        usize::MAX
    }
}

/// Rounding down to a multiple of an alignment.
pub trait AlignDown: Sized {
    spec fn align_down_result(self, align: Self) -> Self;

    spec fn align_down_allowed(self, align: Self) -> bool;

    fn align_down(self, align: Self) -> (r: Self)
        requires
            self.align_down_allowed(align),
        ensures
            r == self.align_down_result(align),
    ;
}

impl AlignDown for usize {
    open spec fn align_down_result(self, align: usize) -> usize {
        align_down_usize(self, align)
    }

    open spec fn align_down_allowed(self, align: usize) -> bool {
        align > 0
    }

    fn align_down(self, align: usize) -> (r: usize) {
        proof {
            lemma_mod_le(self, align);
        }
        self - (self % align)
    }
}

/// Rounding up to a multiple of an alignment, saturating at the largest value.
pub trait AlignUp: Sized {
    spec fn align_up_result(self, align: Self) -> Self;

    spec fn align_up_allowed(self, align: Self) -> bool;

    fn align_up(self, align: Self) -> (r: Self)
        requires
            self.align_up_allowed(align),
        ensures
            r == self.align_up_result(align),
    ;
}

impl AlignUp for usize {
    open spec fn align_up_result(self, align: usize) -> usize {
        align_up_usize(self, align)
    }

    open spec fn align_up_allowed(self, align: usize) -> bool {
        align > 0
    }

    fn align_up(self, align: usize) -> (r: usize) {
        let rem = self % align;
        proof {
            lemma_mod_le(self, align);
        }
        if rem == <usize as Integer>::zero() {
            self
        } else {
            let (value, overflow) = OverflowingAdd::overflowing_add(self - rem, align);
            if overflow {
                <usize as Integer>::max()
            } else {
                value
            }
        }
    }
}

proof fn lemma_mod_le(value: usize, align: usize)
    requires
        align > 0,
    ensures
        value % align <= value,
{
    assert(value % align <= value) by (nonlinear_arith)
        requires
            align > 0,
    ;
}

/// Rounding up never goes below the value, and gives a multiple of the alignment
/// unless it saturated.
pub proof fn lemma_align_up_bounds(value: usize, align: usize)
    requires
        align > 0,
    ensures
        value <= align_up_usize(value, align),
        align_up_usize(value, align) < usize::MAX ==> align_up_usize(value, align) % align == 0,
        value % align == 0 ==> align_up_usize(value, align) == value,
{
    let r = value % align;
    if r != 0 && value - r + align <= usize::MAX {
        assert((value - r + align) % (align as int) == 0) by (nonlinear_arith)
            requires
                r == value % align,
                align > 0,
        {
            vstd::arithmetic::div_mod::lemma_fundamental_div_mod(value as int, align as int);
            vstd::arithmetic::div_mod::lemma_mod_multiples_basic(value as int / align as int + 1, align as int);
        }
    }
}

} // verus!
