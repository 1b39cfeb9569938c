//! Stack blocks: sizes, the guard page, and the initial stack pointer.
//!
//! The memory itself is obtained and released by the caller. This module
//! holds the arithmetic: which sizes are acceptable, where the guard page
//! lies, and where a new thread's stack pointer starts.

use vstd::prelude::*;

verus! {

/// Size of one page of memory, in bytes.
pub const PAGE_SIZE: usize = 4096;

/// A size is acceptable for a stack when it is a whole number of pages, leaves
/// room above the guard page, and can be described to the allocator.
pub open spec fn valid_stack_size(size: usize) -> bool {
    &&& size % PAGE_SIZE == 0
    &&& size > PAGE_SIZE
    &&& size <= isize::MAX
}

/// Run-time test of [`valid_stack_size`].
pub fn stack_size_ok(size: usize) -> (ok: bool)
    ensures
        ok == valid_stack_size(size),
{
    size % PAGE_SIZE == 0 && size > PAGE_SIZE && size <= isize::MAX as usize
}

/// A block of memory that serves as one thread's stack. `base` is its lowest
/// address and `size` its length in bytes.
#[derive(Clone, Copy, Debug, PartialEq, Eq, Structural)]
pub struct Stack {
    pub base: u64,
    pub size: usize,
}

/// The lowest page of a stack, which is made inaccessible so that running off
/// the end of the stack faults at once.
#[derive(Clone, Copy, Debug, PartialEq, Eq, Structural)]
pub struct GuardPage {
    pub addr: u64,
    pub len: usize,
}

impl Stack {
    /// A usable block: page aligned, not at address zero, of a valid size, and
    /// ending inside the address space.
    pub open spec fn wf(self) -> bool {
        &&& valid_stack_size(self.size)
        &&& self.base != 0
        &&& self.base % (PAGE_SIZE as u64) == 0
        &&& self.base + self.size <= u64::MAX
    }

    /// One past the highest address of the block.
    pub open spec fn spec_top(self) -> int {
        self.base + self.size
    }

    /// Whether `addr` falls inside the guard page.
    pub open spec fn guards(self, addr: int) -> bool {
        self.base <= addr < self.base + PAGE_SIZE
    }

    /// Whether `addr` falls inside the part of the block a thread may use.
    pub open spec fn usable(self, addr: int) -> bool {
        self.base + PAGE_SIZE <= addr < self.base + self.size
    }

    /// Describes the block of `size` bytes at `base`, or nothing if such a
    /// block cannot serve as a stack.
    pub fn new(base: u64, size: usize) -> (stack: Option<Stack>)
        ensures
            stack is Some <==> (Stack { base, size }).wf(),
            stack is Some ==> stack->0 == (Stack { base, size }),
    {
        if !stack_size_ok(size) || base == 0 || base % (PAGE_SIZE as u64) != 0 {
            return None;
        }
        if size as u64 > u64::MAX - base {
            return None;
        }
        Some(Stack { base, size })
    }

    /// The address a new thread's stack pointer starts at: stacks grow
    /// downwards, so this is the end of the block.
    pub fn top(&self) -> (rsp: u64)
        requires
            self.wf(),
        ensures
            rsp == self.spec_top(),
    {
        self.base + self.size as u64
    }

    /// The page to protect. It is the lowest page of the block, it lies wholly
    /// inside the block, and no usable address falls in it.
    pub fn guard_page(&self) -> (page: GuardPage)
        requires
            self.wf(),
        ensures
            page.addr == self.base,
            page.len == PAGE_SIZE,
            page.addr + page.len < self.spec_top(),
            forall|a: int| self.guards(a) <==> page.addr <= a < page.addr + page.len,
            forall|a: int| !(self.guards(a) && self.usable(a)),
    {
        GuardPage { addr: self.base, len: PAGE_SIZE }
    }

    /// Alignment the block has to be requested with.
    pub fn align(&self) -> (align: usize)
        ensures
            align == PAGE_SIZE,
    {
        PAGE_SIZE
    }
}

} // verus!
