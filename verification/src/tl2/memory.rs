//! The shared memory: data bytes, one lock-and-version word per stripe, and
//! the global version clock.

use crate::tl2::word::{
    lock_word, locked, not_modified, stripe_index, version_of, MEM_SIZE, STRIPE_SHIFT,
    STRIPE_SIZE, UNLOCK_ADDEND,
};
use std::sync::atomic::AtomicU64;
use std::sync::atomic::Ordering;
use vstd::prelude::*;

verus! {

/// `std::sync::atomic::fence`. It orders the memory accesses around it and
/// returns nothing; it panics when asked for relaxed ordering, which is
/// therefore not allowed.
pub assume_specification[ std::sync::atomic::fence ](order: Ordering)
    requires
        order != Ordering::Relaxed,
;

/// `AtomicU64::fetch_update` with [`lock_word`] as the update: the word is
/// replaced by its locked form unless it is locked already. As the standard
/// library documents, the previous value comes back as `Ok` if the update
/// produced a new value and as `Err` if it produced none.
#[verifier::external_body]
fn fetch_lock(word: &AtomicU64) -> (prev: Result<u64, u64>)
    ensures
        prev is Ok ==> !locked(prev->Ok_0),
        prev is Err ==> locked(prev->Err_0),
{
    word.fetch_update(Ordering::Relaxed, Ordering::Relaxed, |val| lock_word(val))
}

/// Later reads and writes stay behind this point.
pub fn fence_acquire() {
    std::sync::atomic::fence(Ordering::Acquire);
}

/// Earlier reads and writes stay ahead of this point.
pub fn fence_release() {
    std::sync::atomic::fence(Ordering::Release);
}

/// Reads and writes do not cross this point in either direction.
pub fn fence_seq_cst() {
    std::sync::atomic::fence(Ordering::SeqCst);
}

/// The bytes `mem` with `val` written over them from position `addr` on.
pub open spec fn stored(mem: Seq<u8>, addr: usize, val: Seq<u8>) -> Seq<u8> {
    Seq::new(
        mem.len(),
        |k: int|
            if addr <= k < addr + val.len() {
                val[k - addr]
            } else {
                mem[k]
            },
    )
}

/// The transactional memory.
pub struct Memory {
    mem: Vec<u8>,
    lock_ver: Vec<AtomicU64>,
    global_clock: AtomicU64,
    shift_size: u32,
}

impl View for Memory {
    type V = Seq<u8>;

    /// The data bytes.
    closed spec fn view(&self) -> Seq<u8> {
        self.mem@
    }
}

impl Memory {
    /// The memory has its full size, one word per stripe, and the shift that
    /// goes with the stripe size.
    pub closed spec fn wf(&self) -> bool {
        &&& self.mem@.len() == MEM_SIZE
        &&& self.lock_ver@.len() == MEM_SIZE / STRIPE_SIZE
        &&& self.shift_size == STRIPE_SHIFT
    }

    /// The length of a well-formed memory.
    pub proof fn lemma_len(&self)
        requires
            self.wf(),
        ensures
            self@.len() == MEM_SIZE,
    {
    }

    /// A memory of zeros, with every stripe unlocked at version zero and the
    /// clock at zero.
    pub fn new() -> (m: Memory)
        ensures
            m.wf(),
            m@ == Seq::new(MEM_SIZE as nat, |i: int| 0u8),
    {
        let mut mem: Vec<u8> = Vec::new();
        while mem.len() < MEM_SIZE
            invariant
                mem@.len() <= MEM_SIZE,
                forall|i: int| 0 <= i < mem@.len() ==> mem@[i] == 0u8,
            decreases MEM_SIZE - mem@.len(),
        {
            mem.push(0);
        }
        let shift = STRIPE_SHIFT;
        let mut lock_ver: Vec<AtomicU64> = Vec::new();
        while lock_ver.len() < MEM_SIZE >> shift
            invariant
                shift == STRIPE_SHIFT,
                lock_ver@.len() <= MEM_SIZE / STRIPE_SIZE,
            decreases MEM_SIZE / STRIPE_SIZE - lock_ver@.len(),
        {
            assert(512usize >> 3u32 == 64usize) by (bit_vector);
            lock_ver.push(AtomicU64::new(0));
        }
        assert(512usize >> 3u32 == 64usize) by (bit_vector);
        let m = Memory { mem, lock_ver, global_clock: AtomicU64::new(0), shift_size: shift };
        assert(m@ =~= Seq::new(MEM_SIZE as nat, |i: int| 0u8));
        m
    }

    /// Advances the global clock by one and returns its value before.
    pub fn inc_global_clock(&mut self) -> (before: u64)
        requires
            old(self).wf(),
        ensures
            final(self).wf(),
            final(self)@ == old(self)@,
    {
        self.global_clock.fetch_add(1, Ordering::AcqRel)
    }

    /// The current value of the global clock.
    pub fn read_clock(&self) -> (now: u64) {
        self.global_clock.load(Ordering::Acquire)
    }

    /// The version of the stripe that `addr` lies in, lock bit removed.
    pub fn get_addr_ver(&self, addr: usize) -> (ver: u64)
        requires
            self.wf(),
            addr < MEM_SIZE,
        ensures
            !locked(ver),
            ver <= UNLOCK_ADDEND,
    {
        let idx = stripe_index(addr, self.shift_size);
        let n = self.lock_ver[idx].load(Ordering::Relaxed);
        version_of(n)
    }

    /// Whether the stripe that `addr` lies in is unlocked and no newer than
    /// `rv`, at the moment of the call: whether its word, as it is read then,
    /// is at most `rv` (see [`not_modified`]). Against the largest `rv` every
    /// word passes.
    pub fn test_not_modify(&self, addr: usize, rv: u64) -> (ok: bool)
        requires
            self.wf(),
            addr < MEM_SIZE,
        ensures
            rv == u64::MAX ==> ok,
    {
        let idx = stripe_index(addr, self.shift_size);
        let n = self.lock_ver[idx].load(Ordering::Relaxed);
        not_modified(n, rv)
    }

    /// Tries to lock the stripe that `addr` lies in, and says whether the lock
    /// was obtained. It is not when the stripe is locked already.
    pub fn lock_addr(&mut self, addr: usize) -> (got: bool)
        requires
            old(self).wf(),
            addr < MEM_SIZE,
        ensures
            final(self).wf(),
            final(self)@ == old(self)@,
    {
        let idx = stripe_index(addr, self.shift_size);
        fetch_lock(&self.lock_ver[idx]).is_ok()
    }

    /// Unlocks the stripe that `addr` lies in by adding
    /// [`crate::tl2::word::UNLOCK_ADDEND`] to its word; see
    /// [`crate::tl2::word::lemma_unlocked`] for what that does to the word.
    pub fn unlock_addr(&mut self, addr: usize)
        requires
            old(self).wf(),
            addr < MEM_SIZE,
        ensures
            final(self).wf(),
            final(self)@ == old(self)@,
    {
        let idx = stripe_index(addr, self.shift_size);
        let addend: u64 = !(1 << 63);
        assert(addend == UNLOCK_ADDEND) by (bit_vector)
            requires
                addend == !(1u64 << 63),
        ;
        self.lock_ver[idx].fetch_add(addend, Ordering::Relaxed);
    }

    /// Copies the stripe that starts at `addr`.
    pub fn read_stripe(&self, addr: usize) -> (val: [u8; STRIPE_SIZE])
        requires
            self.wf(),
            crate::tl2::word::valid_addr(addr),
        ensures
            val@ == self@.subrange(addr as int, addr + STRIPE_SIZE),
    {
        let mut val = [0u8; STRIPE_SIZE];
        let mut i: usize = 0;
        while i < STRIPE_SIZE
            invariant
                self.wf(),
                crate::tl2::word::valid_addr(addr),
                i <= STRIPE_SIZE,
                forall|j: int| 0 <= j < i ==> val@[j] == self@[addr + j],
            decreases STRIPE_SIZE - i,
        {
            val[i] = self.mem[addr + i];
            i += 1;
        }
        assert(val@ =~= self@.subrange(addr as int, addr + STRIPE_SIZE));
        val
    }

    /// Overwrites the stripe that starts at `addr` with `val`.
    pub fn write_stripe(&mut self, addr: usize, val: &[u8; STRIPE_SIZE])
        requires
            old(self).wf(),
            crate::tl2::word::valid_addr(addr),
        ensures
            final(self).wf(),
            final(self)@ == stored(old(self)@, addr, val@),
    {
        let mut i: usize = 0;
        while i < STRIPE_SIZE
            invariant
                self.wf(),
                crate::tl2::word::valid_addr(addr),
                i <= STRIPE_SIZE,
                self@.len() == old(self)@.len(),
                forall|j: int| 0 <= j < i ==> self@[addr + j] == val@[j],
                forall|k: int|
                    0 <= k < MEM_SIZE && !(addr <= k < addr + i) ==> self@[k] == old(self)@[k],
            decreases STRIPE_SIZE - i,
        {
            self.mem[addr + i] = val[i];
            i += 1;
        }
        assert(self@ =~= stored(old(self)@, addr, val@));
    }

    /// Sets the word of the stripe that `addr` lies in to `ver`: the stripe
    /// gets that version and, if `ver` has no lock bit, is unlocked.
    pub fn publish(&mut self, addr: usize, ver: u64)
        requires
            old(self).wf(),
            addr < MEM_SIZE,
        ensures
            final(self).wf(),
            final(self)@ == old(self)@,
    {
        let idx = stripe_index(addr, self.shift_size);
        self.lock_ver[idx].store(ver, Ordering::Relaxed);
    }
}

} // verus!
