//! The banker's algorithm: resources are granted only if every thread can
//! still be served to the end.

use std::sync::Arc;
use vstd::prelude::*;
use vstd::rwlock::RwLock;
use vstd::rwlock::RwLockPredicate;
use vstd::set_lib::{lemma_int_range, lemma_len_subset, set_int_range};

verus! {

/// The books of the banker as plain mathematics: what is free, what each
/// thread holds, and what each thread may ask for at most. Rows are threads,
/// columns are kinds of resource.
pub struct Ledger {
    pub available: Seq<int>,
    pub allocation: Seq<Seq<int>>,
    pub needed: Seq<Seq<int>>,
}

impl Ledger {
    /// Number of threads.
    pub open spec fn threads(self) -> int {
        self.allocation.len() as int
    }

    /// Number of kinds of resource.
    pub open spec fn resources(self) -> int {
        self.available.len() as int
    }

    /// The books are rectangular, no amount is negative, and no thread holds
    /// more than it declared.
    pub open spec fn sound(self) -> bool {
        &&& self.needed.len() == self.allocation.len()
        &&& forall|t: int|
            0 <= t < self.threads() ==> (#[trigger] self.allocation[t]).len() == self.resources()
        &&& forall|t: int|
            0 <= t < self.threads() ==> (#[trigger] self.needed[t]).len() == self.resources()
        &&& forall|r: int| 0 <= r < self.resources() ==> 0 <= #[trigger] self.available[r]
        &&& forall|t: int, r: int|
            0 <= t < self.threads() && 0 <= r < self.resources() ==> 0
                <= #[trigger] self.allocation[t][r] <= self.needed[t][r]
    }

    /// How much of resource `r` the threads in `done` hold among the first
    /// `n` threads.
    pub open spec fn held(self, done: Set<int>, r: int, n: int) -> int
        decreases n,
    {
        if n <= 0 {
            0
        } else {
            self.held(done, r, n - 1) + if done.contains(n - 1) {
                self.allocation[n - 1][r]
            } else {
                0
            }
        }
    }

    /// How much of resource `r` is free once the threads in `done` have
    /// finished and given back what they hold.
    pub open spec fn free_after(self, done: Set<int>, r: int) -> int {
        self.available[r] + self.held(done, r, self.threads())
    }

    /// How much of resource `r` exists, free or held.
    pub open spec fn total(self, r: int) -> int {
        self.free_after(Set::full(), r)
    }

    /// Thread `t` can get everything it may still ask for once the threads in
    /// `done` have finished.
    pub open spec fn can_finish(self, t: int, done: Set<int>) -> bool {
        forall|r: int|
            0 <= r < self.resources() ==> self.needed[t][r] - self.allocation[t][r]
                <= #[trigger] self.free_after(done, r)
    }

    /// `order` lists every thread once, and each thread in it can finish after
    /// those listed before it.
    pub open spec fn safe_order(self, order: Seq<int>) -> bool {
        &&& order.no_duplicates()
        &&& forall|k: int| 0 <= k < order.len() ==> 0 <= #[trigger] order[k] < self.threads()
        &&& forall|t: int| 0 <= t < self.threads() ==> order.contains(t)
        &&& forall|k: int|
            0 <= k < order.len() ==> self.can_finish(#[trigger] order[k], order.take(k).to_set())
    }

    /// The state is safe: there are threads, and there is an order in which
    /// all of them can run to the end.
    pub open spec fn safe(self) -> bool {
        self.threads() > 0 && exists|order: Seq<int>| self.safe_order(order)
    }

    /// What thread `t` may still ask for of resource `r`.
    pub open spec fn remaining(self, t: int, r: int) -> int {
        self.needed[t][r] - self.allocation[t][r]
    }

    /// The books after thread `t` has been given all it may still ask for of
    /// resource `r`.
    pub open spec fn grant(self, t: int, r: int) -> Ledger {
        Ledger {
            available: self.available.update(r, self.available[r] - self.remaining(t, r)),
            allocation: self.allocation.update(
                t,
                self.allocation[t].update(r, self.needed[t][r]),
            ),
            needed: self.needed,
        }
    }

    /// Whether thread `t` is given what it may still ask for of resource `r`:
    /// if it asks for nothing, or if there is enough and serving it leaves a
    /// safe state.
    pub open spec fn grantable(self, t: int, r: int) -> bool {
        self.remaining(t, r) == 0 || (self.remaining(t, r) <= self.available[r] && self.grant(
            t,
            r,
        ).safe())
    }

    /// The books after thread `t` has given back all it holds of resource `r`.
    pub open spec fn give_back(self, t: int, r: int) -> Ledger {
        Ledger {
            available: self.available.update(r, self.available[r] + self.allocation[t][r]),
            allocation: self.allocation.update(t, self.allocation[t].update(r, 0)),
            needed: self.needed,
        }
    }
}

/// Where nobody holds anything, nothing is given back.
pub proof fn lemma_held_nothing(l: Ledger, done: Set<int>, r: int, n: int)
    requires
        forall|t: int| 0 <= t < n ==> l.allocation[t][r] == 0,
    ensures
        l.held(done, r, n) == 0,
    decreases n,
{
    if n > 0 {
        lemma_held_nothing(l, done, r, n - 1);
    }
}

/// Before anybody has finished, nothing has been given back.
pub proof fn lemma_held_nothing_done(l: Ledger, r: int, n: int)
    ensures
        l.held(Set::empty(), r, n) == 0,
    decreases n,
{
    if n > 0 {
        lemma_held_nothing_done(l, r, n - 1);
    }
}

/// More finished threads give back at least as much.
pub proof fn lemma_held_grows(l: Ledger, fewer: Set<int>, more: Set<int>, r: int, n: int)
    requires
        l.sound(),
        forall|t: int| fewer.contains(t) ==> more.contains(t),
        0 <= r < l.resources(),
        0 <= n <= l.threads(),
    ensures
        0 <= l.held(fewer, r, n) <= l.held(more, r, n),
    decreases n,
{
    if n > 0 {
        lemma_held_grows(l, fewer, more, r, n - 1);
        assert(0 <= l.allocation[n - 1][r]);
    }
}

/// One more finished thread gives back what it holds.
pub proof fn lemma_held_insert(l: Ledger, done: Set<int>, t: int, r: int, n: int)
    requires
        !done.contains(t),
        0 <= n,
    ensures
        l.held(done.insert(t), r, n) == l.held(done, r, n) + if 0 <= t < n {
            l.allocation[t][r]
        } else {
            0
        },
    decreases n,
{
    if n > 0 {
        lemma_held_insert(l, done, t, r, n - 1);
    }
}

/// Holdings depend only on the rows and the column that are looked at.
pub proof fn lemma_held_same(a: Ledger, b: Ledger, done: Set<int>, r: int, n: int)
    requires
        forall|t: int| 0 <= t < n && done.contains(t) ==> a.allocation[t][r] == b.allocation[t][r],
    ensures
        a.held(done, r, n) == b.held(done, r, n),
    decreases n,
{
    if n > 0 {
        lemma_held_same(a, b, done, r, n - 1);
    }
}

/// Changing what one thread holds changes the holdings by as much.
pub proof fn lemma_held_update(a: Ledger, b: Ledger, done: Set<int>, t: int, r: int, n: int)
    requires
        done.contains(t),
        forall|u: int| 0 <= u < n && u != t ==> a.allocation[u][r] == b.allocation[u][r],
        0 <= n,
    ensures
        b.held(done, r, n) == a.held(done, r, n) + if 0 <= t < n {
            b.allocation[t][r] - a.allocation[t][r]
        } else {
            0
        },
    decreases n,
{
    if n > 0 {
        lemma_held_update(a, b, done, t, r, n - 1);
    }
}

/// A grant moves an amount from the free column to a thread: the books stay
/// sound and no total changes.
pub proof fn lemma_grant_keeps_total(l: Ledger, t: int, r: int)
    requires
        l.sound(),
        0 <= t < l.threads(),
        0 <= r < l.resources(),
        l.remaining(t, r) <= l.available[r],
    ensures
        l.grant(t, r).sound(),
        forall|q: int| 0 <= q < l.resources() ==> #[trigger] l.grant(t, r).total(q) == l.total(q),
{
    let g = l.grant(t, r);
    assert forall|q: int| 0 <= q < l.resources() implies #[trigger] g.total(q) == l.total(q) by {
        if q == r {
            lemma_held_update(l, g, Set::full(), t, r, l.threads());
        } else {
            lemma_held_same(l, g, Set::full(), q, l.threads());
        }
    }
}

/// Giving back moves an amount from a thread to the free column: the books
/// stay sound and no total changes.
pub proof fn lemma_give_back_keeps_total(l: Ledger, t: int, r: int)
    requires
        l.sound(),
        0 <= t < l.threads(),
        0 <= r < l.resources(),
    ensures
        l.give_back(t, r).sound(),
        forall|q: int|
            0 <= q < l.resources() ==> #[trigger] l.give_back(t, r).total(q) == l.total(q),
        l.available[r] + l.allocation[t][r] <= l.total(r),
{
    let g = l.give_back(t, r);
    assert forall|q: int| 0 <= q < l.resources() implies #[trigger] g.total(q) == l.total(q) by {
        if q == r {
            lemma_held_update(l, g, Set::full(), t, r, l.threads());
        } else {
            lemma_held_same(l, g, Set::full(), q, l.threads());
        }
    }
    lemma_held_nothing_done(l, r, l.threads());
    lemma_held_insert(l, Set::empty(), t, r, l.threads());
    lemma_held_grows(l, Set::empty().insert(t), Set::full(), r, l.threads());
}

/// Two sets of books with the same entries are the same books.
pub proof fn lemma_ledger_ext(a: Ledger, b: Ledger)
    requires
        a.sound(),
        b.threads() == a.threads(),
        b.resources() == a.resources(),
        b.needed.len() == a.needed.len(),
        forall|t: int| 0 <= t < a.threads() ==> (#[trigger] b.allocation[t]).len() == a.resources(),
        forall|t: int| 0 <= t < a.threads() ==> (#[trigger] b.needed[t]).len() == a.resources(),
        forall|r: int| 0 <= r < a.resources() ==> #[trigger] a.available[r] == b.available[r],
        forall|t: int, r: int|
            0 <= t < a.threads() && 0 <= r < a.resources() ==> #[trigger] a.allocation[t][r]
                == b.allocation[t][r],
        forall|t: int, r: int|
            0 <= t < a.threads() && 0 <= r < a.resources() ==> #[trigger] a.needed[t][r]
                == b.needed[t][r],
    ensures
        a == b,
{
    assert(a.available =~= b.available);
    assert forall|t: int| 0 <= t < a.threads() implies #[trigger] a.allocation[t]
        == b.allocation[t] by {
        assert(a.allocation[t] =~= b.allocation[t]);
    }
    assert forall|t: int| 0 <= t < a.threads() implies #[trigger] a.needed[t] == b.needed[t] by {
        assert(a.needed[t] =~= b.needed[t]);
    }
    assert(a.allocation =~= b.allocation);
    assert(a.needed =~= b.needed);
}

/// Threads listed without repetition are no more than there are threads.
pub proof fn lemma_order_bounded(order: Seq<int>, n: int)
    requires
        order.no_duplicates(),
        forall|k: int| 0 <= k < order.len() ==> 0 <= #[trigger] order[k] < n,
        0 <= n,
    ensures
        order.len() <= n,
{
    order.unique_seq_to_set();
    lemma_int_range(0, n);
    assert forall|t: int| order.to_set().contains(t) implies set_int_range(0, n).contains(t) by {
        let k = choose|k: int| 0 <= k < order.len() && order[k] == t;
        assert(0 <= order[k] < n);
    }
    lemma_len_subset(order.to_set(), set_int_range(0, n));
}

/// In a list that reaches a thread outside `done`, some thread is the first
/// outside `done`.
proof fn lemma_first_outside(order: Seq<int>, done: Set<int>, upto: int) -> (k: int)
    requires
        0 <= upto < order.len(),
        !done.contains(order[upto]),
    ensures
        0 <= k <= upto,
        !done.contains(order[k]),
        forall|p: int| 0 <= p < k ==> done.contains(order[p]),
    decreases upto,
{
    if exists|p: int| 0 <= p < upto && !done.contains(order[p]) {
        let p = choose|p: int| 0 <= p < upto && !done.contains(order[p]);
        lemma_first_outside(order, done, p)
    } else {
        upto
    }
}

/// If some thread has not finished and none of the unfinished threads can
/// finish now, no order serves them all.
pub proof fn lemma_stuck_is_unsafe(l: Ledger, done: Set<int>, order: Seq<int>, stuck: int)
    requires
        l.sound(),
        0 <= stuck < l.threads(),
        !done.contains(stuck),
        forall|t: int| 0 <= t < l.threads() && !done.contains(t) ==> !l.can_finish(t, done),
    ensures
        !l.safe_order(order),
{
    if l.safe_order(order) {
        assert(order.contains(stuck));
        let j = choose|j: int| 0 <= j < order.len() && order[j] == stuck;
        let k = lemma_first_outside(order, done, j);
        let before = order.take(k).to_set();
        assert forall|t: int| before.contains(t) implies done.contains(t) by {
            let p = choose|p: int| 0 <= p < order.take(k).len() && order.take(k)[p] == t;
            assert(order[p] == t);
        }
        assert(0 <= order[k] < l.threads());
        assert(l.can_finish(order[k], before));
        assert forall|r: int| 0 <= r < l.resources() implies l.needed[order[k]][r]
            - l.allocation[order[k]][r] <= #[trigger] l.free_after(done, r) by {
            lemma_held_grows(l, before, done, r, l.threads());
            assert(l.needed[order[k]][r] - l.allocation[order[k]][r] <= l.free_after(before, r));
        }
        assert(l.can_finish(order[k], done));
        assert(false);
    }
}

/// The banker's books for `NUM_THREADS` threads that share `NUM_RESOURCES`
/// kinds of resource.
#[derive(Debug)]
pub struct Resource<const NUM_RESOURCES: usize, const NUM_THREADS: usize> {
    /// What is free of each resource.
    pub available_resource: [usize; NUM_RESOURCES],
    /// What each thread holds of each resource.
    pub allocation_for_threads: [[usize; NUM_RESOURCES]; NUM_THREADS],
    /// What each thread may hold at most of each resource.
    pub needed_for_threads: [[usize; NUM_RESOURCES]; NUM_THREADS],
}

/// The amounts in `row`, as mathematical integers.
pub open spec fn amounts<const N: usize>(row: [usize; N]) -> Seq<int> {
    Seq::new(N as nat, |r: int| row[r] as int)
}

/// The amounts in `table`, row by row, as mathematical integers.
pub open spec fn amounts_by_thread<const N: usize, const M: usize>(table: [[usize; N]; M]) -> Seq<
    Seq<int>,
> {
    Seq::new(M as nat, |t: int| amounts(table[t]))
}

impl<const NUM_RESOURCES: usize, const NUM_THREADS: usize> View for Resource<
    NUM_RESOURCES,
    NUM_THREADS,
> {
    type V = Ledger;

    open spec fn view(&self) -> Ledger {
        Ledger {
            available: amounts(self.available_resource),
            allocation: amounts_by_thread(self.allocation_for_threads),
            needed: amounts_by_thread(self.needed_for_threads),
        }
    }
}

impl<const NUM_RESOURCES: usize, const NUM_THREADS: usize> Resource<NUM_RESOURCES, NUM_THREADS> {
    /// No thread holds more than it declared, and the whole of each resource,
    /// free and held together, can be counted in a `usize`.
    pub open spec fn wf(&self) -> bool {
        &&& self@.sound()
        &&& forall|r: int| 0 <= r < NUM_RESOURCES ==> #[trigger] self@.total(r) <= usize::MAX
    }

    /// Fresh books: `available_resource` is free and no thread holds anything.
    pub fn new(
        available_resource: [usize; NUM_RESOURCES],
        needed_for_threads: [[usize; NUM_RESOURCES]; NUM_THREADS],
    ) -> (res: Self)
        ensures
            res.wf(),
            res.available_resource == available_resource,
            res.needed_for_threads == needed_for_threads,
            forall|t: int, r: int|
                0 <= t < NUM_THREADS && 0 <= r < NUM_RESOURCES
                    ==> res.allocation_for_threads[t][r] == 0,
            forall|r: int|
                0 <= r < NUM_RESOURCES ==> #[trigger] res@.total(r) == available_resource[r],
    {
        let res = Resource {
            available_resource,
            allocation_for_threads: [[0; NUM_RESOURCES]; NUM_THREADS],
            needed_for_threads,
        };
        proof {
            assert forall|r: int| 0 <= r < NUM_RESOURCES implies #[trigger] res@.total(r)
                == available_resource[r] by {
                lemma_held_nothing(res@, Set::full(), r, NUM_THREADS as int);
            }
        }
        res
    }

    /// Whether thread `t` can get all it may still ask for out of `work`.
    fn fits(&self, t: usize, work: &[usize; NUM_RESOURCES]) -> (ok: bool)
        requires
            self@.sound(),
            t < NUM_THREADS,
        ensures
            ok == (forall|r: int|
                0 <= r < NUM_RESOURCES ==> self@.remaining(t as int, r) <= #[trigger] work[r]),
    {
        let mut r: usize = 0;
        while r < NUM_RESOURCES
            invariant
                self@.sound(),
                t < NUM_THREADS,
                r <= NUM_RESOURCES,
                forall|q: int| 0 <= q < r ==> self@.remaining(t as int, q) <= #[trigger] work[q],
            decreases NUM_RESOURCES - r,
        {
            assert(self@.allocation[t as int][r as int] <= self@.needed[t as int][r as int]);
            if self.needed_for_threads[t][r] - self.allocation_for_threads[t][r] > work[r] {
                assert(!(self@.remaining(t as int, r as int) <= work[r as int]));
                return false;
            }
            r += 1;
        }
        true
    }

    /// Whether the state is safe: whether the threads can be served one after
    /// the other, each getting all it may still ask for and giving back all it
    /// holds when done.
    ///
    /// The search lets the first thread finish that can, and starts over until
    /// all have finished or none of the rest can. Without any thread the answer
    /// is no.
    pub fn is_safe(&self) -> (safe: bool)
        requires
            self.wf(),
        ensures
            safe == self@.safe(),
    {
        let mut finish = [false; NUM_THREADS];
        let mut work = self.available_resource;
        let mut done: usize = 0;
        let ghost mut order: Seq<int> = Seq::empty();
        proof {
            assert forall|r: int| 0 <= r < NUM_RESOURCES implies work[r] == self@.free_after(
                order.to_set(),
                r,
            ) by {
                lemma_held_nothing_done(self@, r, NUM_THREADS as int);
                assert(order.to_set() =~= Set::<int>::empty());
            }
        }
        loop
            invariant
                self.wf(),
                done == order.len(),
                order.no_duplicates(),
                forall|k: int| 0 <= k < order.len() ==> 0 <= #[trigger] order[k] < NUM_THREADS,
                forall|t: int| 0 <= t < NUM_THREADS ==> (#[trigger] finish[t] <==> order.contains(t)),
                forall|r: int|
                    0 <= r < NUM_RESOURCES ==> #[trigger] work[r] == self@.free_after(
                        order.to_set(),
                        r,
                    ),
                forall|k: int|
                    0 <= k < order.len() ==> self@.can_finish(
                        #[trigger] order[k],
                        order.take(k).to_set(),
                    ),
            decreases NUM_THREADS - done,
        {
            let ghost done_set = order.to_set();
            let mut i: usize = 0;
            let mut pick: Option<usize> = None;
            let mut unfinished = false;
            let ghost mut stuck: int = 0;
            while i < NUM_THREADS && pick.is_none()
                invariant
                    self.wf(),
                    i <= NUM_THREADS,
                    done_set == order.to_set(),
                    forall|t: int| 0 <= t < NUM_THREADS ==> (#[trigger] finish[t] <==> order.contains(t)),
                    forall|r: int|
                        0 <= r < NUM_RESOURCES ==> #[trigger] work[r] == self@.free_after(
                            done_set,
                            r,
                        ),
                    pick is None ==> forall|t: int|
                        0 <= t < i && !done_set.contains(t) ==> !self@.can_finish(t, done_set),
                    pick is None && unfinished ==> 0 <= stuck < i && !done_set.contains(stuck),
                    pick is None && !unfinished ==> forall|t: int|
                        0 <= t < i ==> done_set.contains(t),
                    pick is Some ==> pick->0 < NUM_THREADS && !done_set.contains(pick->0 as int)
                        && self@.can_finish(pick->0 as int, done_set),
                decreases NUM_THREADS - i + (if pick is None { 1int } else { 0int }),
            {
                if !finish[i] {
                    let ok = self.fits(i, &work);
                    proof {
                        if ok {
                            assert forall|r: int| 0 <= r < NUM_RESOURCES implies self@.needed[i as int][r]
                                - self@.allocation[i as int][r] <= #[trigger] self@.free_after(
                                done_set,
                                r,
                            ) by {
                                assert(self@.remaining(i as int, r) <= work[r]);
                            }
                        } else {
                            let r = choose|r: int|
                                0 <= r < NUM_RESOURCES && !(self@.remaining(i as int, r)
                                    <= #[trigger] work[r]);
                            assert(work[r] == self@.free_after(done_set, r));
                            assert(!self@.can_finish(i as int, done_set));
                        }
                    }
                    if ok {
                        pick = Some(i);
                    } else {
                        unfinished = true;
                        proof {
                            stuck = i as int;
                        }
                        i += 1;
                    }
                } else {
                    i += 1;
                }
            }
            match pick {
                Some(t) => {
                    let ghost longer = order.push(t as int);
                    proof {
                        assert(longer.no_duplicates());
                        lemma_order_bounded(longer, NUM_THREADS as int);
                        order.lemma_push_to_set_commute(t as int);
                        assert(longer.take(order.len() as int) =~= order);
                        assert forall|k: int| 0 <= k < order.len() implies #[trigger] longer.take(
                            k,
                        ) =~= order.take(k) by {}
                        assert forall|k: int| 0 <= k < longer.len() implies self@.can_finish(
                            #[trigger] longer[k],
                            longer.take(k).to_set(),
                        ) by {
                            if k < order.len() {
                                assert(longer.take(k) =~= order.take(k));
                                assert(longer[k] == order[k]);
                            }
                        }
                    }
                    finish[t] = true;
                    let mut r: usize = 0;
                    while r < NUM_RESOURCES
                        invariant
                            self.wf(),
                            t < NUM_THREADS,
                            r <= NUM_RESOURCES,
                            !done_set.contains(t as int),
                            forall|q: int|
                                0 <= q < r ==> #[trigger] work[q] == self@.free_after(
                                    done_set.insert(t as int),
                                    q,
                                ),
                            forall|q: int|
                                r <= q < NUM_RESOURCES ==> #[trigger] work[q] == self@.free_after(
                                    done_set,
                                    q,
                                ),
                        decreases NUM_RESOURCES - r,
                    {
                        proof {
                            lemma_held_insert(
                                self@,
                                done_set,
                                t as int,
                                r as int,
                                NUM_THREADS as int,
                            );
                            lemma_held_grows(
                                self@,
                                done_set.insert(t as int),
                                Set::full(),
                                r as int,
                                NUM_THREADS as int,
                            );
                            assert(self@.total(r as int) <= usize::MAX);
                            assert(self@.allocation[t as int][r as int]
                                == self.allocation_for_threads[t as int][r as int]);
                        }
                        work[r] = work[r] + self.allocation_for_threads[t][r];
                        r += 1;
                    }
                    done += 1;
                    proof {
                        order = longer;
                        assert forall|u: int| 0 <= u < NUM_THREADS implies (#[trigger] finish[u]
                            <==> order.contains(u)) by {
                            if u == t {
                                assert(order[order.len() - 1] == u);
                            } else if finish[u] {
                                let k = choose|k: int|
                                    0 <= k < order.len() - 1 && order.drop_last()[k] == u;
                                assert(order[k] == u);
                            } else if order.contains(u) {
                                let k = choose|k: int| 0 <= k < order.len() && order[k] == u;
                                assert(order.drop_last()[k] == u);
                            }
                        }
                    }
                },
                None => {
                    proof {
                        if unfinished {
                            assert forall|o: Seq<int>| !self@.safe_order(o) by {
                                lemma_stuck_is_unsafe(self@, done_set, o, stuck);
                            }
                        } else {
                            assert forall|t: int| 0 <= t < NUM_THREADS implies order.contains(
                                t,
                            ) by {
                                assert(done_set.contains(t));
                            }
                            assert(self@.safe_order(order));
                        }
                    }
                    return !unfinished && NUM_THREADS > 0;
                },
            }
        }
    }
    /// Thread `thread_id` asks for all it may still hold of resource
    /// `resource_id`. The request is granted if it leaves a safe state, and
    /// refused without any change otherwise.
    pub fn take(&mut self, thread_id: usize, resource_id: usize) -> (granted: bool)
        requires
            old(self).wf(),
            thread_id < NUM_THREADS,
            resource_id < NUM_RESOURCES,
        ensures
            final(self).wf(),
            granted == old(self)@.grantable(thread_id as int, resource_id as int),
            final(self)@ == if granted {
                old(self)@.grant(thread_id as int, resource_id as int)
            } else {
                old(self)@
            },
            forall|q: int|
                0 <= q < NUM_RESOURCES ==> #[trigger] final(self)@.total(q) == old(self)@.total(q),
    {
        let ghost before = self@;
        let ghost t = thread_id as int;
        let ghost r = resource_id as int;
        assert(before.allocation[t][r] <= before.needed[t][r]);
        let res = self.needed_for_threads[thread_id][resource_id]
            - self.allocation_for_threads[thread_id][resource_id];
        if res == 0 {
            proof {
                lemma_ledger_ext(before, before.grant(t, r));
            }
            return true;
        }
        if self.available_resource[resource_id] < res {
            return false;
        }
        assert(before.available[r] == self.available_resource[r]);
        self.available_resource[resource_id] -= res;
        self.allocation_for_threads[thread_id][resource_id] += res;
        proof {
            lemma_grant_keeps_total(before, t, r);
            lemma_ledger_ext(before.grant(t, r), self@);
        }
        if self.is_safe() {
            true
        } else {
            self.allocation_for_threads[thread_id][resource_id] -= res;
            self.available_resource[resource_id] += res;
            proof {
                lemma_ledger_ext(before, self@);
            }
            false
        }
    }

    /// Thread `t_id` gives back all it holds of resource `r_id`.
    pub fn release(&mut self, t_id: usize, r_id: usize)
        requires
            old(self).wf(),
            t_id < NUM_THREADS,
            r_id < NUM_RESOURCES,
        ensures
            final(self).wf(),
            final(self)@ == old(self)@.give_back(t_id as int, r_id as int),
            forall|q: int|
                0 <= q < NUM_RESOURCES ==> #[trigger] final(self)@.total(q) == old(self)@.total(q),
    {
        let ghost before = self@;
        let ghost t = t_id as int;
        let ghost r = r_id as int;
        proof {
            lemma_give_back_keeps_total(before, t, r);
            assert(before.total(r) <= usize::MAX);
            assert(before.available[r] == self.available_resource[r]);
            assert(before.allocation[t][r] == self.allocation_for_threads[t][r]);
        }
        let res = self.allocation_for_threads[t_id][r_id];
        self.allocation_for_threads[t_id][r_id] -= res;
        self.available_resource[r_id] += res;
        proof {
            lemma_ledger_ext(before.give_back(t, r), self@);
        }
    }
}

/// The terms a banker works under, fixed when it is set up: what each thread
/// may hold at most of each resource, and how much there is of each resource,
/// free and held together. The lock around the books admits only books that
/// are well formed and keep to these terms.
pub struct Terms {
    pub needed: Seq<Seq<int>>,
    pub total: Seq<int>,
}

impl<const NUM_RESOURCES: usize, const NUM_THREADS: usize> RwLockPredicate<
    Resource<NUM_RESOURCES, NUM_THREADS>,
> for Terms {
    open spec fn inv(self, v: Resource<NUM_RESOURCES, NUM_THREADS>) -> bool {
        &&& v.wf()
        &&& v@.needed == self.needed
        &&& self.total.len() == NUM_RESOURCES
        &&& forall|r: int| 0 <= r < NUM_RESOURCES ==> #[trigger] v@.total(r) == self.total[r]
    }
}

/// A banker that threads share: every clone works on the same books, one
/// request at a time.
#[derive(Clone)]
pub struct Banker<const NUM_RESOURCES: usize, const NUM_THREADS: usize> {
    resource: Arc<RwLock<Resource<NUM_RESOURCES, NUM_THREADS>, Terms>>,
}

impl<const NUM_RESOURCES: usize, const NUM_THREADS: usize> View for Banker<
    NUM_RESOURCES,
    NUM_THREADS,
> {
    type V = Terms;

    /// The terms the banker was set up with. They hold of the books whenever
    /// the books are looked at, whatever other threads do in between.
    closed spec fn view(&self) -> Terms {
        self.resource.pred()
    }
}

impl<const NUM_RESOURCES: usize, const NUM_THREADS: usize> Banker<NUM_RESOURCES, NUM_THREADS> {
    /// A banker with `available` free and nothing handed out: the threads may
    /// hold up to `needed_for_threads`, and `available` is all there is.
    pub fn new(
        available: [usize; NUM_RESOURCES],
        needed_for_threads: [[usize; NUM_RESOURCES]; NUM_THREADS],
    ) -> (banker: Self)
        ensures
            banker@.needed == amounts_by_thread(needed_for_threads),
            banker@.total == amounts(available),
    {
        let books = Resource::new(available, needed_for_threads);
        let ghost terms = Terms {
            needed: amounts_by_thread(needed_for_threads),
            total: amounts(available),
        };
        Banker { resource: Arc::new(RwLock::new(books, Ghost(terms))) }
    }

    /// Thread `t_id` asks for all it may still hold of resource `r_id`; see
    /// [`Resource::take`].
    ///
    /// Other threads may have changed the books before and may change them
    /// after, so whether a request is granted depends on the moment. Two
    /// answers are fixed by the terms alone: a thread that may hold nothing of
    /// the resource asks for nothing and is granted, and a thread that may
    /// hold more than there is can never be served in full and is refused.
    pub fn take(&self, t_id: usize, r_id: usize) -> (granted: bool)
        requires
            t_id < NUM_THREADS,
            r_id < NUM_RESOURCES,
        ensures
            self@.needed[t_id as int][r_id as int] == 0 ==> granted,
            self@.needed[t_id as int][r_id as int] > self@.total[r_id as int] ==> !granted,
    {
        let (mut books, handle) = self.resource.acquire_write();
        proof {
            lemma_give_back_keeps_total(books@, t_id as int, r_id as int);
            assert(0 <= books@.allocation[t_id as int][r_id as int]
                <= books@.needed[t_id as int][r_id as int]);
            assert(0 <= books@.available[r_id as int]);
            assert(books@.total(r_id as int) == self@.total[r_id as int]);
        }
        let granted = books.take(t_id, r_id);
        handle.release_write(books);
        granted
    }

    /// Thread `t_id` gives back all it holds of resource `r_id`; see
    /// [`Resource::release`].
    pub fn release(&self, t_id: usize, r_id: usize)
        requires
            t_id < NUM_THREADS,
            r_id < NUM_RESOURCES,
    {
        let (mut books, handle) = self.resource.acquire_write();
        books.release(t_id, r_id);
        handle.release_write(books);
    }
}

} // verus!
