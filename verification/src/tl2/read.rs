//! Read-only transactions.

use crate::tl2::memory::{fence_acquire, fence_seq_cst, Memory};
use crate::tl2::word::{valid_addr, STRIPE_SIZE};
use vstd::prelude::*;

verus! {

/// A transaction that only reads.
pub struct ReadTrans<'a> {
    /// Value of the global clock when the transaction started.
    pub read_ver: u64,
    /// Set once a conflict has been seen; the transaction reads nothing more.
    pub is_abort: bool,
    /// The memory that is read.
    pub mem: &'a Memory,
}

impl<'a> ReadTrans<'a> {
    /// Starts a transaction at the present value of the global clock.
    pub fn new(mem: &'a Memory) -> (tr: ReadTrans<'a>)
        ensures
            !tr.is_abort,
            tr.mem == mem,
    {
        ReadTrans { is_abort: false, read_ver: mem.read_clock(), mem }
    }

    /// Reads the stripe at `addr`.
    ///
    /// An aborted transaction reads nothing. Otherwise the stripe is tested
    /// before and after the copy; if it is locked or newer than the
    /// transaction at either test, the transaction aborts. A value that is
    /// returned is the content of the stripe.
    pub fn load(&mut self, addr: usize) -> (val: Option<[u8; STRIPE_SIZE]>)
        requires
            old(self).mem.wf(),
            valid_addr(addr),
        ensures
            final(self).mem == old(self).mem,
            final(self).read_ver == old(self).read_ver,
            old(self).is_abort ==> val is None,
            val is None <==> final(self).is_abort,
            val is Some ==> val->0@ == old(self).mem@.subrange(addr as int, addr + STRIPE_SIZE),
    {
        if self.is_abort {
            return None;
        }
        if !self.mem.test_not_modify(addr, self.read_ver) {
            self.is_abort = true;
            return None;
        }
        fence_acquire();
        let mem = self.mem.read_stripe(addr);
        fence_seq_cst();
        if !self.mem.test_not_modify(addr, self.read_ver) {
            self.is_abort = true;
            return None;
        }
        Some(mem)
    }
}

} // verus!
