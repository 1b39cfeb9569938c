//! Saved processor state of a suspended thread.

use vstd::prelude::*;

verus! {

/// The registers that must survive a call, the stack pointer, and one scratch
/// slot (`rdx`) that carries the trampoline's address into the first
/// activation.
#[derive(Clone, Copy, Debug, PartialEq, Eq, Structural)]
pub struct Registers {
    pub rbx: u64,
    pub rbp: u64,
    pub r12: u64,
    pub r13: u64,
    pub r14: u64,
    pub r15: u64,
    pub rsp: u64,
    pub rdx: u64,
}

impl Registers {
    /// The register file of a thread that has never run: everything zero but
    /// the stack pointer and the scratch slot.
    pub open spec fn fresh(rsp: u64, trampoline: u64) -> Registers {
        Registers { rbx: 0, rbp: 0, r12: 0, r13: 0, r14: 0, r15: 0, rsp, rdx: trampoline }
    }

    /// Builds the context a new thread starts from. `rsp` is the top of its
    /// stack and `trampoline` the address at which its first activation begins.
    pub fn new(rsp: u64, trampoline: u64) -> (regs: Registers)
        ensures
            regs == Registers::fresh(rsp, trampoline),
    {
        Registers { rbx: 0, rbp: 0, r12: 0, r13: 0, r14: 0, r15: 0, rsp, rdx: trampoline }
    }
}

} // verus!
