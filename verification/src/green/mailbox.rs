//! Per-identity message queues.

use std::collections::HashMap;
use std::collections::VecDeque;
use vstd::prelude::*;

verus! {

broadcast use vstd::std_specs::hash::group_hash_axioms;

/// What is queued under `key`: the stored sequence, or nothing if the key is
/// absent.
pub open spec fn queue_of<T>(boxes: Map<u64, Seq<T>>, key: u64) -> Seq<T> {
    if boxes.contains_key(key) {
        boxes[key]
    } else {
        Seq::empty()
    }
}

/// The queues after `val` has joined the end of the queue under `key`.
pub open spec fn pushed<T>(boxes: Map<u64, Seq<T>>, key: u64, val: T) -> Map<u64, Seq<T>> {
    boxes.insert(key, queue_of(boxes, key).push(val))
}

/// The queues after the head of the queue under `key` has left. A queue that
/// runs empty is dropped together with its key.
pub open spec fn popped<T>(boxes: Map<u64, Seq<T>>, key: u64) -> Map<u64, Seq<T>> {
    if queue_of(boxes, key).len() <= 1 {
        boxes.remove(key)
    } else {
        boxes.insert(key, boxes[key].drop_first())
    }
}

/// No key is kept for an empty queue.
pub open spec fn no_empty_queue<T>(boxes: Map<u64, Seq<T>>) -> bool {
    forall|k: u64| boxes.contains_key(k) ==> (#[trigger] boxes[k]).len() > 0
}

/// First-in, first-out queues, one per key, created when first written to.
pub struct MappedList<T> {
    map: HashMap<u64, VecDeque<T>>,
}

impl<T> View for MappedList<T> {
    type V = Map<u64, Seq<T>>;

    closed spec fn view(&self) -> Map<u64, Seq<T>> {
        Map::new(|k: u64| self.map@.contains_key(k), |k: u64| self.map@[k]@)
    }
}

impl<T> MappedList<T> {
    /// The structure holds finitely many queues and none of them is empty.
    pub open spec fn wf(&self) -> bool {
        &&& self@.dom().finite()
        &&& no_empty_queue(self@)
    }

    /// No queues at all.
    pub fn new() -> (list: Self)
        ensures
            list.wf(),
            list@ == Map::<u64, Seq<T>>::empty(),
    {
        let list = MappedList { map: HashMap::new() };
        assert(list@ =~= Map::<u64, Seq<T>>::empty());
        list
    }

    /// Appends `val` to the queue under `key`.
    pub fn push_back(&mut self, key: u64, val: T)
        requires
            old(self).wf(),
        ensures
            final(self).wf(),
            final(self)@ == pushed(old(self)@, key, val),
    {
        let ghost before = self@;
        let mut list = match self.map.remove(&key) {
            Some(list) => list,
            None => VecDeque::new(),
        };
        assert(list@ == queue_of(before, key));
        list.push_back(val);
        self.map.insert(key, list);
        assert(self@ =~= pushed(before, key, val));
    }

    /// Takes the head of the queue under `key`, if there is one.
    pub fn pop_front(&mut self, key: u64) -> (val: Option<T>)
        requires
            old(self).wf(),
        ensures
            final(self).wf(),
            final(self)@ == popped(old(self)@, key),
            val == if queue_of(old(self)@, key).len() > 0 {
                Some(queue_of(old(self)@, key).first())
            } else {
                None
            },
    {
        let ghost before = self@;
        match self.map.remove(&key) {
            Some(mut list) => {
                assert(list@ == queue_of(before, key));
                let val = list.pop_front();
                if list.len() != 0 {
                    assert(list@ =~= before[key].drop_first());
                    self.map.insert(key, list);
                }
                assert(self@ =~= popped(before, key));
                val
            },
            None => {
                assert(self@ =~= popped(before, key));
                None
            },
        }
    }

    /// Whether a message is queued under `key`.
    pub fn has_message(&self, key: u64) -> (some: bool)
        requires
            self.wf(),
        ensures
            some == (queue_of(self@, key).len() > 0),
    {
        self.map.contains_key(&key)
    }

    /// Drops every queue.
    pub fn clear(&mut self)
        ensures
            final(self).wf(),
            final(self)@ == Map::<u64, Seq<T>>::empty(),
    {
        self.map.clear();
        assert(self@ =~= Map::<u64, Seq<T>>::empty());
    }
}

} // verus!
