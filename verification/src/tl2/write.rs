//! Transactions that read and write.

use crate::tl2::memory::{fence_acquire, fence_release, fence_seq_cst, stored, Memory};
use crate::tl2::word::{valid_addr, MEM_SIZE, STRIPE_SIZE};
use std::collections::HashMap;
use std::collections::HashSet;
use vstd::prelude::*;

verus! {

broadcast use vstd::std_specs::hash::group_hash_axioms;

/// The bytes `mem` after every stripe in `writes` whose address is in `done`
/// has been overwritten with its new value.
pub open spec fn committed(
    mem: Seq<u8>,
    writes: Map<usize, [u8; STRIPE_SIZE]>,
    done: Set<usize>,
) -> Seq<u8> {
    Seq::new(
        mem.len(),
        |k: int|
            {
                let start = (k - k % (STRIPE_SIZE as int)) as usize;
                if done.contains(start) && writes.contains_key(start) {
                    writes[start]@[k % (STRIPE_SIZE as int)]
                } else {
                    mem[k]
                }
            },
    )
}

/// The addresses in a write set, each once, in no particular order.
fn keys_of(writes: &HashMap<usize, [u8; STRIPE_SIZE]>) -> (keys: Vec<usize>)
    ensures
        keys@.to_set() == writes@.dom(),
        keys@.no_duplicates(),
{
    let mut keys: Vec<usize> = Vec::new();
    for k in it: writes.keys()
        invariant
            keys@.len() == it.index(),
            forall|j: int| 0 <= j < keys@.len() ==> keys@[j] == *it.seq()[j],
            it.seq().unref().to_set() == writes@.dom(),
            it.seq().no_duplicates(),
            it.index() == it.seq().len() ==> keys@.to_set() == writes@.dom()
                && keys@.no_duplicates(),
    {
        keys.push(*k);
        assert(it.index() + 1 == it.seq().len() ==> keys@ =~= it.seq().unref());
    }
    keys
}

/// The addresses in a read set, each once, in no particular order.
fn elements_of(reads: &HashSet<usize>) -> (elems: Vec<usize>)
    ensures
        elems@.to_set() == reads@,
        elems@.no_duplicates(),
{
    let mut elems: Vec<usize> = Vec::new();
    for a in it: reads.iter()
        invariant
            elems@.len() == it.index(),
            forall|j: int| 0 <= j < elems@.len() ==> elems@[j] == *it.seq()[j],
            it.seq().unref().to_set() == reads@,
            it.seq().no_duplicates(),
            it.index() == it.seq().len() ==> elems@.to_set() == reads@ && elems@.no_duplicates(),
    {
        elems.push(*a);
        assert(it.index() + 1 == it.seq().len() ==> elems@ =~= it.seq().unref());
    }
    elems
}

/// A transaction that reads and writes. Writes are kept aside in the write
/// set until the transaction commits.
pub struct WriteTrans<'a> {
    /// Value of the global clock when the transaction started.
    pub read_ver: u64,
    /// Addresses that were read.
    pub read_set: HashSet<usize>,
    /// Stripes to write, by address.
    pub write_set: HashMap<usize, [u8; STRIPE_SIZE]>,
    /// Addresses whose stripes this transaction has locked.
    pub locked: Vec<usize>,
    /// Set once a conflict has been seen; the transaction reads nothing more.
    pub is_abort: bool,
    /// The memory that is read and written.
    pub mem: &'a mut Memory,
}

impl<'a> WriteTrans<'a> {
    /// The memory is well formed and every address the transaction has
    /// noted is one that it may use.
    pub open spec fn wf(&self) -> bool {
        &&& self.mem.wf()
        &&& forall|a: usize| self.read_set@.contains(a) ==> valid_addr(a)
        &&& forall|a: usize| self.write_set@.contains_key(a) ==> valid_addr(a)
        &&& forall|i: int| 0 <= i < self.locked@.len() ==> valid_addr(#[trigger] self.locked@[i])
    }

    /// Everything but the memory and the list of locked stripes is as in
    /// `other`.
    pub open spec fn same_sets(&self, other: &Self) -> bool {
        &&& self.read_ver == other.read_ver
        &&& self.read_set@ == other.read_set@
        &&& self.write_set@ == other.write_set@
        &&& self.is_abort == other.is_abort
    }

    /// Starts a transaction at the present value of the global clock.
    pub fn new(mem: &'a mut Memory) -> (tr: WriteTrans<'a>)
        requires
            old(mem).wf(),
        ensures
            tr.wf(),
            !tr.is_abort,
            tr.read_set@ == Set::<usize>::empty(),
            tr.write_set@ == Map::<usize, [u8; STRIPE_SIZE]>::empty(),
            tr.locked@ == Seq::<usize>::empty(),
            tr.mem@ == old(mem)@,
            *final(tr.mem) == *final(mem),
    {
        let read_ver = mem.read_clock();
        WriteTrans {
            read_set: HashSet::new(),
            write_set: HashMap::new(),
            locked: Vec::new(),
            is_abort: false,
            read_ver,
            mem,
        }
    }

    /// Notes `val` as the new content of the stripe at `addr`. Memory is not
    /// touched before the transaction commits.
    pub fn store(&mut self, addr: usize, val: [u8; STRIPE_SIZE])
        requires
            old(self).wf(),
            valid_addr(addr),
        ensures
            final(self).wf(),
            final(self).write_set@ == old(self).write_set@.insert(addr, val),
            final(self).read_set@ == old(self).read_set@,
            final(self).locked@ == old(self).locked@,
            final(self).is_abort == old(self).is_abort,
            final(self).read_ver == old(self).read_ver,
            final(self).mem@ == old(self).mem@,
    {
        self.write_set.insert(addr, val);
    }

    /// Reads the stripe at `addr`.
    ///
    /// An aborted transaction reads nothing. Otherwise the address joins the
    /// read set. A stripe that this transaction has written is read from the
    /// write set. Any other is read from memory, tested before and after the
    /// copy: if it is locked or newer than the transaction at either test, the
    /// transaction aborts.
    pub fn load(&mut self, addr: usize) -> (val: Option<[u8; STRIPE_SIZE]>)
        requires
            old(self).wf(),
            valid_addr(addr),
        ensures
            final(self).wf(),
            final(self).write_set@ == old(self).write_set@,
            final(self).locked@ == old(self).locked@,
            final(self).read_ver == old(self).read_ver,
            final(self).mem@ == old(self).mem@,
            old(self).is_abort ==> val is None && final(self).read_set@ == old(self).read_set@,
            !old(self).is_abort ==> final(self).read_set@ == old(self).read_set@.insert(addr),
            val is None <==> final(self).is_abort,
            !old(self).is_abort && old(self).write_set@.contains_key(addr) ==> val == Some(
                old(self).write_set@[addr],
            ),
            val is Some && !old(self).write_set@.contains_key(addr) ==> val->0@ == old(self).mem@.subrange(addr as int, addr + STRIPE_SIZE),
    {
        if self.is_abort {
            return None;
        }
        self.read_set.insert(addr);
        match self.write_set.get(&addr) {
            Some(m) => {
                return Some(*m);
            },
            None => {},
        }
        if !self.mem.test_not_modify(addr, self.read_ver) {
            self.is_abort = true;
            return None;
        }
        fence_acquire();
        let mem = self.mem.read_stripe(addr);
        fence_seq_cst();
        if !self.mem.test_not_modify(addr, self.read_ver) {
            self.is_abort = true;
            return None;
        }
        Some(mem)
    }

    /// Locks the stripes of the write set, one by one, until all are locked
    /// or one cannot be. Says whether all were locked. The stripes locked on
    /// the way are appended to `locked`: as many as the write set has
    /// addresses if all were locked, fewer if not. With an empty write set
    /// there is nothing to lock and the answer is yes.
    pub fn lock_write_set(&mut self) -> (all: bool)
        requires
            old(self).wf(),
        ensures
            final(self).wf(),
            final(self).same_sets(old(self)),
            final(self).mem@ == old(self).mem@,
            old(self).locked@.len() <= final(self).locked@.len(),
            final(self).locked@.take(old(self).locked@.len() as int) == old(self).locked@,
            final(self).locked@.skip(old(self).locked@.len() as int).no_duplicates(),
            forall|i: int|
                old(self).locked@.len() <= i < final(self).locked@.len()
                    ==> final(self).write_set@.contains_key(#[trigger] final(self).locked@[i]),
            all ==> forall|a: usize|
                final(self).write_set@.contains_key(a) ==> final(self).locked@.contains(a),
            all <==> final(self).locked@.len() == old(self).locked@.len()
                + old(self).write_set@.len(),
    {
        let keys = keys_of(&self.write_set);
        let ghost base = self.locked@.len() as int;
        proof {
            keys@.unique_seq_to_set();
        }
        let mut i: usize = 0;
        while i < keys.len()
            invariant
                self.wf(),
                self.same_sets(old(self)),
                self.mem@ == old(self).mem@,
                keys@.to_set() == self.write_set@.dom(),
                keys@.no_duplicates(),
                keys@.len() == self.write_set@.len(),
                i <= keys@.len(),
                base == old(self).locked@.len(),
                self.locked@ == old(self).locked@ + keys@.take(i as int),
            decreases keys@.len() - i,
        {
            let addr = keys[i];
            assert(keys@.to_set().contains(addr));
            assert(self.write_set@.contains_key(addr));
            assert(valid_addr(addr));
            if self.mem.lock_addr(addr) {
                self.locked.push(addr);
                assert(keys@.take(i + 1) =~= keys@.take(i as int).push(addr));
                assert(self.locked@ =~= old(self).locked@ + keys@.take(i + 1));
            } else {
                proof {
                    lemma_locked_part(old(self).locked@, keys@, i as int);
                }
                assert(self.locked@.take(base) =~= old(self).locked@);
                assert(self.locked@.skip(base) =~= keys@.take(i as int));
                return false;
            }
            i += 1;
        }
        proof {
            lemma_locked_part(old(self).locked@, keys@, i as int);
            assert(keys@.take(i as int) =~= keys@);
            assert forall|a: usize| self.write_set@.contains_key(a) implies self.locked@.contains(
                a,
            ) by {
                assert(keys@.to_set().contains(a));
                let j = choose|j: int| 0 <= j < keys@.len() && keys@[j] == a;
                assert(self.locked@[base + j] == a);
            }
        }
        assert(self.locked@.take(base) =~= old(self).locked@);
        assert(self.locked@.skip(base) =~= keys@.take(i as int));
        true
    }

    /// Tests every stripe that was read: one that this transaction also
    /// writes, and has locked itself, by its version alone; any other for
    /// being unlocked and no newer than the transaction. Says whether all
    /// passed, at the moment each was looked at.
    ///
    /// What the stripes' words hold is not known beforehand, so the answer is
    /// fixed only where no word can make a test fail: when nothing was read,
    /// and when the transaction's version is the largest there is.
    pub fn validate_read_set(&self) -> (ok: bool)
        requires
            self.wf(),
        ensures
            self.read_set@ == Set::<usize>::empty() ==> ok,
            self.read_ver == u64::MAX ==> ok,
    {
        let reads = elements_of(&self.read_set);
        let mut i: usize = 0;
        assert(self.read_set@ == Set::<usize>::empty() ==> reads@.len() == 0) by {
            if reads@.len() > 0 {
                assert(reads@.to_set().contains(reads@[0]));
            }
        }
        while i < reads.len()
            invariant
                self.wf(),
                reads@.to_set() == self.read_set@,
                i <= reads@.len(),
            decreases reads@.len() - i,
        {
            let addr = reads[i];
            assert(reads@.to_set().contains(addr));
            assert(self.read_set@.contains(addr));
            assert(valid_addr(addr));
            if self.write_set.contains_key(&addr) {
                let ver = self.mem.get_addr_ver(addr);
                if ver > self.read_ver {
                    return false;
                }
            } else {
                if !self.mem.test_not_modify(addr, self.read_ver) {
                    return false;
                }
            }
            i += 1;
        }
        true
    }

    /// Writes the write set to memory, gives every written stripe the version
    /// `ver`, which unlocks it, and forgets the locks.
    pub fn commit(&mut self, ver: u64)
        requires
            old(self).wf(),
        ensures
            final(self).wf(),
            final(self).same_sets(old(self)),
            final(self).locked@ == Seq::<usize>::empty(),
            final(self).mem@ == committed(
                old(self).mem@,
                old(self).write_set@,
                old(self).write_set@.dom(),
            ),
    {
        let keys = keys_of(&self.write_set);
        let ghost writes = self.write_set@;
        let ghost start = self.mem@;
        proof {
            self.mem.lemma_len();
        }
        let mut i: usize = 0;
        assert(self.mem@ =~= committed(start, writes, keys@.take(0).to_set()));
        while i < keys.len()
            invariant
                self.wf(),
                self.same_sets(old(self)),
                self.locked@ == old(self).locked@,
                writes == self.write_set@,
                start == old(self).mem@,
                start.len() == MEM_SIZE,
                keys@.to_set() == writes.dom(),
                keys@.no_duplicates(),
                i <= keys@.len(),
                self.mem@ == committed(start, writes, keys@.take(i as int).to_set()),
            decreases keys@.len() - i,
        {
            let addr = keys[i];
            assert(keys@.to_set().contains(addr));
            assert(self.write_set@.contains_key(addr));
            assert(valid_addr(addr));
            let val = *self.write_set.get(&addr).unwrap();
            let ghost before = self.mem@;
            self.mem.write_stripe(addr, &val);
            proof {
                assert(keys@.take(i + 1) =~= keys@.take(i as int).push(addr));
                keys@.take(i as int).lemma_push_to_set_commute(addr);
                let done = keys@.take(i as int).to_set();
                assert(self.mem@ =~= committed(start, writes, done.insert(addr))) by {
                    assert forall|k: int| 0 <= k < MEM_SIZE implies stored(before, addr, val@)[k]
                        == committed(start, writes, done.insert(addr))[k] by {
                        lemma_stripe_start(k, addr);
                    }
                }
            }
            i += 1;
        }
        assert(keys@.take(i as int) =~= keys@);
        fence_release();
        let mut j: usize = 0;
        while j < keys.len()
            invariant
                self.wf(),
                self.same_sets(old(self)),
                self.locked@ == old(self).locked@,
                keys@.to_set() == self.write_set@.dom(),
                j <= keys@.len(),
                self.mem@ == committed(start, writes, writes.dom()),
            decreases keys@.len() - j,
        {
            let addr = keys[j];
            assert(keys@.to_set().contains(addr));
            assert(self.write_set@.contains_key(addr));
            assert(valid_addr(addr));
            self.mem.publish(addr, ver);
            j += 1;
        }
        self.locked.clear();
    }

    /// Unlocks every stripe in `locked` and empties the list, so that it never
    /// names a stripe this transaction no longer holds. To be called when the
    /// transaction is given up with locks still held.
    pub fn release_locks(&mut self)
        requires
            old(self).wf(),
        ensures
            final(self).wf(),
            final(self).same_sets(old(self)),
            final(self).locked@ == Seq::<usize>::empty(),
            final(self).mem@ == old(self).mem@,
    {
        let mut i: usize = 0;
        while i < self.locked.len()
            invariant
                self.wf(),
                self.same_sets(old(self)),
                self.locked@ == old(self).locked@,
                self.mem@ == old(self).mem@,
            decreases self.locked@.len() - i,
        {
            let addr = self.locked[i];
            self.mem.unlock_addr(addr);
            i += 1;
        }
        self.locked.clear();
    }
}

/// The part of `locked` that a run of locking has added is the part of the
/// keys it got through, which has no repetition.
proof fn lemma_locked_part(old_locked: Seq<usize>, keys: Seq<usize>, i: int)
    requires
        keys.no_duplicates(),
        0 <= i <= keys.len(),
    ensures
        keys.take(i).no_duplicates(),
        (old_locked + keys.take(i)).skip(old_locked.len() as int) == keys.take(i),
        (old_locked + keys.take(i)).take(old_locked.len() as int) == old_locked,
{
    assert((old_locked + keys.take(i)).skip(old_locked.len() as int) =~= keys.take(i));
    assert((old_locked + keys.take(i)).take(old_locked.len() as int) =~= old_locked);
}

/// Byte `k` lies in the stripe at `addr` exactly if that stripe starts where
/// the stripe of `k` starts.
proof fn lemma_stripe_start(k: int, addr: usize)
    requires
        0 <= k < MEM_SIZE,
        valid_addr(addr),
    ensures
        (addr <= k < addr + STRIPE_SIZE) <==> (k - k % (STRIPE_SIZE as int)) as usize == addr,
        addr <= k < addr + STRIPE_SIZE ==> k % (STRIPE_SIZE as int) == k - addr,
{
}

} // verus!
