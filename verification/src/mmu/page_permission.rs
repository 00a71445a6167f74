use vstd::prelude::*;

verus! {

/// Who may access a mapped page.
#[derive(PartialEq, Eq, Structural, Clone, Copy, Debug)]
pub enum PagePerm {
    NoOne,
    KernOnly,
    UserRo,
    UserRw,
}

/// The access-permission bits of a page permission.
pub open spec fn perm_bits(perm: PagePerm) -> usize {
    match perm {
        PagePerm::NoOne => 0,
        PagePerm::KernOnly => 1,
        PagePerm::UserRo => 2,
        PagePerm::UserRw => 3,
    }
}

impl PagePerm {
    /// The access-permission bits of this permission.
    pub fn translate(&self) -> (r: usize)
        ensures
            r == perm_bits(*self),
            r <= 3,
    {
        match self {
            PagePerm::NoOne => 0,
            PagePerm::KernOnly => 1,
            PagePerm::UserRo => 2,
            PagePerm::UserRw => 3,
        }
    }
}

/// The access-permission bits of a page permission.
pub fn translate_perm(perm: PagePerm) -> (r: usize)
    ensures
        r == perm_bits(perm),
{
    perm.translate()
}

} // verus!
