//! The runtime as a mathematical value, and every operation as a function on
//! that value.
//!
//! The executable runtime is specified against this model: each operation
//! states which function below maps the state before the call to the state
//! after it.

use crate::green::mailbox::{no_empty_queue, popped, pushed, queue_of};
use crate::green::registers::Registers;
use crate::green::stack::Stack;
use vstd::prelude::*;

verus! {

/// Control block of one thread: its saved registers, its stack, the function
/// it runs, and its identity.
pub struct Context<E> {
    pub regs: Registers,
    pub stack: Stack,
    pub entry: E,
    pub id: u64,
}

impl<E> Context<E> {
    /// The control block of a thread that has not run yet: its registers are
    /// fresh and its stack pointer sits at the top of `stack`.
    pub open spec fn fresh(func: E, stack: Stack, id: u64, trampoline: u64) -> Context<E> {
        Context {
            regs: Registers::fresh(stack.spec_top() as u64, trampoline),
            stack,
            entry: func,
            id,
        }
    }

    /// Builds the control block of a new thread.
    pub fn new(func: E, stack: Stack, id: u64, trampoline: u64) -> (ctx: Context<E>)
        requires
            stack.wf(),
        ensures
            ctx == Context::fresh(func, stack, id, trampoline),
    {
        let regs = Registers::new(stack.top(), trampoline);
        Context { regs, stack, entry: func, id }
    }

    /// The saved registers, for the switch routine to restore.
    pub fn get_regs(&self) -> (regs: &Registers)
        ensures
            *regs == self.regs,
    {
        &self.regs
    }

    /// The place of the saved registers, for the switch routine to save into.
    /// Whatever is written there becomes the thread's saved registers; the
    /// rest of the control block stays as it is.
    pub fn get_regs_mut(&mut self) -> (regs: &mut Registers)
        ensures
            *regs == old(self).regs,
            final(self).regs == *final(regs),
            final(self).stack == old(self).stack,
            final(self).entry == old(self).entry,
            final(self).id == old(self).id,
    {
        &mut self.regs
    }
}

/// Whether some thread in `queue` has identity `id`.
pub open spec fn has_id<E>(queue: Seq<Context<E>>, id: u64) -> bool {
    exists|i: int| 0 <= i < queue.len() && (#[trigger] queue[i]).id == id
}

/// Whether the threads in `queue` have identities of their own.
pub open spec fn distinct_ids<E>(queue: Seq<Context<E>>) -> bool {
    forall|i: int, j: int|
        0 <= i < j < queue.len() ==> (#[trigger] queue[i]).id != (#[trigger] queue[j]).id
}

/// What the caller has to do at a switch point.
#[derive(Clone, Copy, Debug, PartialEq, Eq, Structural)]
pub enum Switch {
    /// Keep running: there is no other runnable thread.
    Stay,
    /// Save the running thread's registers as those of thread `save`, then
    /// resume thread `next`.
    To { save: u64, next: u64 },
}

/// Everything the runtime knows, as plain mathematics.
pub struct State<E> {
    /// Registers of the host thread while green threads run; `None` while the
    /// runtime is idle.
    pub main: Option<Registers>,
    /// Runnable threads in round-robin order. The first one is executing.
    pub running: Seq<Context<E>>,
    /// Threads blocked on a receive, by identity.
    pub waiting: Map<u64, Context<E>>,
    /// Undelivered messages, by receiver, oldest first.
    pub messages: Map<u64, Seq<u64>>,
    /// Identities in use.
    pub ids: Set<u64>,
    /// Stack of a finished thread that still awaits release.
    pub unused: Option<Stack>,
    /// Address every new thread starts at.
    pub trampoline: u64,
}

impl<E> State<E> {
    /// The state between two runs: nothing is live and nothing is pending.
    pub open spec fn idle(trampoline: u64) -> State<E> {
        State {
            main: None,
            running: Seq::empty(),
            waiting: Map::empty(),
            messages: Map::empty(),
            ids: Set::empty(),
            unused: None,
            trampoline,
        }
    }

    /// Whether a run has been started and not yet torn down.
    pub open spec fn initialized(self) -> bool {
        self.main is Some
    }

    /// Whether a green thread is executing.
    pub open spec fn active(self) -> bool {
        self.running.len() > 0
    }

    /// The executing thread.
    pub open spec fn current(self) -> Context<E>
        recommends
            self.active(),
    {
        self.running[0]
    }

    /// Whether thread `id` is runnable.
    pub open spec fn in_queue(self, id: u64) -> bool {
        has_id(self.running, id)
    }

    /// Whether thread `id` exists, runnable or blocked.
    pub open spec fn live(self, id: u64) -> bool {
        self.in_queue(id) || self.waiting.contains_key(id)
    }

    /// The messages that wait for thread `id`.
    pub open spec fn mailbox(self, id: u64) -> Seq<u64> {
        queue_of(self.messages, id)
    }

    /// The executing thread has nothing to receive and nobody else can run,
    /// so nobody could ever send to it.
    pub open spec fn deadlocked(self) -> bool {
        &&& self.running.len() == 1
        &&& self.mailbox(self.current().id).len() == 0
    }

    /// The invariant of the runtime.
    ///
    /// Every live thread is in exactly one of run queue and waiting set, under
    /// an identity of its own; the identity set holds the live identities and
    /// no others; a blocked thread has an empty mailbox; and while the runtime
    /// is idle it holds nothing at all.
    pub open spec fn wf(self) -> bool {
        &&& self.ids.finite()
        &&& self.waiting.dom().finite()
        &&& self.messages.dom().finite()
        &&& no_empty_queue(self.messages)
        &&& distinct_ids(self.running)
        &&& forall|i: int|
            0 <= i < self.running.len() ==> !self.waiting.contains_key(
                (#[trigger] self.running[i]).id,
            )
        &&& forall|i: int| 0 <= i < self.running.len() ==> (#[trigger] self.running[i]).stack.wf()
        &&& forall|k: u64|
            self.waiting.contains_key(k) ==> {
                &&& (#[trigger] self.waiting[k]).id == k
                &&& self.waiting[k].stack.wf()
                &&& self.mailbox(k).len() == 0
            }
        &&& forall|id: u64| self.ids.contains(id) <==> self.live(id)
        &&& self.unused is Some ==> self.unused->0.wf()
        &&& self.main is None ==> self == State::<E>::idle(self.trampoline)
    }

    /// What a yield asks of the caller.
    pub open spec fn yield_switch(self) -> Switch
        recommends
            self.active(),
    {
        if self.running.len() <= 1 {
            Switch::Stay
        } else {
            Switch::To { save: self.running[0].id, next: self.running[1].id }
        }
    }

    /// A new thread joins the back of the run queue.
    pub open spec fn enqueue(self, ctx: Context<E>) -> State<E> {
        State { running: self.running.push(ctx), ids: self.ids.insert(ctx.id), ..self }
    }

    /// The executing thread steps to the back of the run queue, unless it is
    /// alone.
    pub open spec fn rotate(self) -> State<E>
        recommends
            self.active(),
    {
        if self.running.len() <= 1 {
            self
        } else {
            State { running: self.running.drop_first().push(self.running[0]), ..self }
        }
    }

    /// The executing thread ends: it leaves the run queue, its identity
    /// becomes free, and its stack is parked for release.
    pub open spec fn retire(self) -> State<E>
        recommends
            self.active(),
    {
        State {
            running: self.running.drop_first(),
            ids: self.ids.remove(self.running[0].id),
            unused: Some(self.running[0].stack),
            ..self
        }
    }

    /// The parked stack has been taken away.
    pub open spec fn reap(self) -> State<E> {
        State { unused: None, ..self }
    }

    /// `msg` is queued for `key`, and a thread blocked under `key` becomes
    /// runnable again, at the back of the run queue.
    pub open spec fn post(self, key: u64, msg: u64) -> State<E> {
        let messages = pushed(self.messages, key, msg);
        if self.waiting.contains_key(key) {
            State {
                messages,
                running: self.running.push(self.waiting[key]),
                waiting: self.waiting.remove(key),
                ..self
            }
        } else {
            State { messages, ..self }
        }
    }

    /// The executing thread takes the oldest message from its mailbox.
    pub open spec fn take(self) -> State<E>
        recommends
            self.active(),
    {
        State { messages: popped(self.messages, self.running[0].id), ..self }
    }

    /// The executing thread leaves the run queue for the waiting set.
    pub open spec fn block(self) -> State<E>
        recommends
            self.active(),
    {
        State {
            running: self.running.drop_first(),
            waiting: self.waiting.insert(self.running[0].id, self.running[0]),
            ..self
        }
    }

    /// A run starts from the idle state with `first` as its only thread.
    pub open spec fn boot(self, first: Context<E>) -> State<E> {
        State {
            main: Some(Registers::fresh(0, self.trampoline)),
            running: seq![first],
            ids: set![first.id],
            ..State::<E>::idle(self.trampoline)
        }
    }
}

} // verus!
