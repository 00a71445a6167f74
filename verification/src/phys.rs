use vstd::prelude::*;

use core::marker::PhantomData;

use crate::memory_model::PHYS_TO_VIRT;

verus! {

/// A physical address of a `T`; for a slice, also its length.
pub struct Phys<T: ?Sized> {
    pub addr: usize,
    pub len: usize,
    pub marker: PhantomData<T>,
}

/// A physical address of a `T` that may be written through.
pub struct PhysMut<T: ?Sized> {
    pub addr: usize,
    pub marker: PhantomData<T>,
}

impl<T> Phys<T> {
    /// The physical address.
    pub fn addr(&self) -> (r: usize)
        ensures
            r == self.addr,
    {
        self.addr
    }

    /// The address `count` bytes further.
    pub fn byte_add(self, count: usize) -> (r: Self)
        requires
            self.addr + count <= usize::MAX,
        ensures
            r.addr == self.addr + count,
    {
        Phys { addr: self.addr + count, len: self.len, marker: PhantomData }
    }

    /// The kernel's virtual address for this physical address.
    pub fn into_virt(self) -> (r: usize)
        requires
            self.addr + PHYS_TO_VIRT <= usize::MAX,
        ensures
            r == self.addr + PHYS_TO_VIRT,
    {
        self.addr + PHYS_TO_VIRT
    }

    /// The physical address of the value at kernel virtual address `virt`.
    pub fn from_virt(virt: usize) -> (r: Self)
        requires
            virt >= PHYS_TO_VIRT,
        ensures
            r.addr == virt - PHYS_TO_VIRT,
    {
        Phys { addr: virt - PHYS_TO_VIRT, len: 1, marker: PhantomData }
    }

    /// The physical address `value`.
    pub fn from(value: usize) -> (r: Self)
        ensures
            r.addr == value,
    {
        Phys { addr: value, len: 1, marker: PhantomData }
    }
}

impl<T> Phys<[T]> {
    /// A slice of `len` elements at physical address `addr`.
    pub fn from_raw_parts(addr: usize, len: usize) -> (r: Self)
        ensures
            r.addr == addr,
            r.len == len,
    {
        Phys { addr, len, marker: PhantomData }
    }

    /// The physical slice of the slice at kernel virtual address `virt`.
    pub fn from_virt(virt: usize, len: usize) -> (r: Self)
        requires
            virt >= PHYS_TO_VIRT,
        ensures
            r.addr == virt - PHYS_TO_VIRT,
            r.len == len,
    {
        Phys { addr: virt - PHYS_TO_VIRT, len, marker: PhantomData }
    }

    /// The physical address of the first element.
    pub fn addr(&self) -> (r: usize)
        ensures
            r == self.addr,
    {
        self.addr
    }

    /// The number of elements.
    pub fn len(&self) -> (r: usize)
        ensures
            r == self.len,
    {
        self.len
    }

    /// The same slice (address and length) placed at address `addr`.
    pub fn with_addr(self, addr: usize) -> (r: (usize, usize))
        ensures
            r == (addr, self.len),
    {
        (addr, self.len)
    }
}

impl<T> PhysMut<T> {
    /// The physical address.
    pub fn addr(&self) -> (r: usize)
        ensures
            r == self.addr,
    {
        self.addr
    }

    /// The physical address of the value at kernel virtual address `virt`.
    pub fn from_virt(virt: usize) -> (r: Self)
        requires
            virt >= PHYS_TO_VIRT,
        ensures
            r.addr == virt - PHYS_TO_VIRT,
    {
        PhysMut { addr: virt - PHYS_TO_VIRT, marker: PhantomData }
    }

    /// The kernel's virtual address for this physical address.
    pub fn into_virt(self) -> (r: usize)
        requires
            self.addr + PHYS_TO_VIRT <= usize::MAX,
        ensures
            r == self.addr + PHYS_TO_VIRT,
    {
        self.addr + PHYS_TO_VIRT
    }

    /// The physical address `value`.
    pub fn from(value: usize) -> (r: Self)
        ensures
            r.addr == value,
    {
        PhysMut { addr: value, marker: PhantomData }
    }
}

} // verus!
