use vstd::prelude::*;

verus! {

/// The kernel-wide error type.
#[derive(PartialEq, Eq, Structural, Clone, Copy, Debug)]
pub enum Error {
    /// An allocation could not be satisfied.
    OutOfMem,
    /// An address lies outside the address space it was looked up in.
    OutOfRange,
    /// A mapping was requested over an address that is already mapped.
    Remap,
    /// An operation on the current process ran while no process was current.
    NoCurrentProcess,
    /// The request is of a kind the kernel does not handle.
    Unsupproted,
}

} // verus!
