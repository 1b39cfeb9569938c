//! Running transactions: what the body of a transaction reports, and what
//! follows from it.

use crate::tl2::memory::Memory;
use crate::tl2::read::ReadTrans;
use crate::tl2::write::WriteTrans;
use vstd::prelude::*;

verus! {

/// What the body of a transaction reports when it returns.
pub enum STMResult<T> {
    /// It ran to its end with this result.
    Done(T),
    /// It asks to be run again.
    Retry,
    /// It gives up.
    Abort,
}

/// What to do after the body of a transaction has returned.
#[derive(Debug, PartialEq, Eq)]
pub enum Verdict<T> {
    /// The transaction is over, with this result or, if it gave up, without.
    Return(Option<T>),
    /// The transaction saw a conflict: run it again from the start.
    Again,
}

/// Decides what follows from the report of a transaction's body and from
/// whether the transaction saw a conflict while it ran.
///
/// A conflict always means another run, unless the body gave up. Without a
/// conflict the result stands, and a request to run again counts as giving
/// up.
pub fn settle<T>(result: STMResult<T>, is_abort: bool) -> (verdict: Verdict<T>)
    ensures
        verdict == match result {
            STMResult::Abort => Verdict::<T>::Return(None),
            STMResult::Retry => if is_abort {
                Verdict::<T>::Again
            } else {
                Verdict::<T>::Return(None)
            },
            STMResult::Done(val) => if is_abort {
                Verdict::<T>::Again
            } else {
                Verdict::<T>::Return(Some(val))
            },
        },
{
    match result {
        STMResult::Abort => Verdict::Return(None),
        STMResult::Retry => {
            if is_abort {
                Verdict::Again
            } else {
                Verdict::Return(None)
            }
        },
        STMResult::Done(val) => {
            if is_abort {
                Verdict::Again
            } else {
                Verdict::Return(Some(val))
            }
        },
    }
}

/// A transactional memory together with the means to start transactions on
/// it.
pub struct STM {
    mem: Memory,
}

impl View for STM {
    type V = Seq<u8>;

    /// The data bytes of the memory.
    closed spec fn view(&self) -> Seq<u8> {
        self.mem@
    }
}

impl STM {
    /// The memory is well formed.
    pub closed spec fn wf(&self) -> bool {
        self.mem.wf()
    }

    /// A transactional memory of zeros.
    pub fn new() -> (stm: STM)
        ensures
            stm.wf(),
            stm@ == Seq::new(crate::tl2::word::MEM_SIZE as nat, |i: int| 0u8),
    {
        STM { mem: Memory::new() }
    }

    /// Starts a transaction that only reads.
    pub fn begin_read(&self) -> (tr: ReadTrans<'_>)
        requires
            self.wf(),
        ensures
            !tr.is_abort,
            tr.mem.wf(),
            tr.mem@ == self@,
    {
        ReadTrans::new(&self.mem)
    }

    /// Starts a transaction that reads and writes.
    pub fn begin_write(&mut self) -> (tr: WriteTrans<'_>)
        requires
            old(self).wf(),
        ensures
            tr.wf(),
            !tr.is_abort,
            tr.read_set@ == Set::<usize>::empty(),
            tr.write_set@ == Map::<usize, [u8; crate::tl2::word::STRIPE_SIZE]>::empty(),
            tr.locked@ == Seq::<usize>::empty(),
            tr.mem@ == old(self)@,
            final(tr.mem)@ == final(self)@,
            final(tr.mem).wf() ==> final(self).wf(),
    {
        WriteTrans::new(&mut self.mem)
    }
}

} // verus!
