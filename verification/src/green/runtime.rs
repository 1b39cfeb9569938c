//! The executable runtime: run queue, waiting set, mailboxes and identities,
//! and the decision taken at every switch point.
//!
//! No function here touches the processor state. Each one updates the
//! bookkeeping and tells the caller which threads to switch between; the
//! caller runs its switch routine and, when a thread is resumed, comes back
//! for the follow-up step ([`rm_unused_stack`], [`recv_wake`]).

use crate::green::ident::{get_id, release};
use crate::green::mailbox::MappedList;
use crate::green::preserve::{
    lemma_block_wf, lemma_boot_wf, lemma_enqueue_wf, lemma_popped, lemma_post_wf, lemma_reap_wf,
    lemma_retire_wf, lemma_rotate_wf, lemma_take_wf,
};
use crate::green::registers::Registers;
use crate::green::stack::Stack;
use crate::green::state::{Context, State, Switch};
use std::collections::HashMap;
use std::collections::HashSet;
use std::collections::VecDeque;
use vstd::prelude::*;

verus! {

broadcast use vstd::std_specs::hash::group_hash_axioms;

/// The state of the green-thread runtime. `E` is the type of the functions
/// that threads run; the runtime stores them and never calls them.
pub struct Runtime<E> {
    ctx_main: Option<Registers>,
    contexts: VecDeque<Context<E>>,
    ids: HashSet<u64>,
    messages: MappedList<u64>,
    waiting: HashMap<u64, Context<E>>,
    unused_stack: Option<Stack>,
    trampoline: u64,
}

impl<E> View for Runtime<E> {
    type V = State<E>;

    closed spec fn view(&self) -> State<E> {
        State {
            main: self.ctx_main,
            running: self.contexts@,
            waiting: self.waiting@,
            messages: self.messages@,
            ids: self.ids@,
            unused: self.unused_stack,
            trampoline: self.trampoline,
        }
    }
}

/// Answer of [`spawn`]: the new thread's identity and the switch to perform.
#[derive(Clone, Copy, Debug, PartialEq, Eq, Structural)]
pub struct Spawned {
    pub id: u64,
    pub switch: Switch,
}

/// Answer of [`entry_point`]: what to do once a thread's function has
/// returned.
#[derive(Clone, Copy, Debug, PartialEq, Eq, Structural)]
pub struct Exit {
    /// A stack that an earlier thread left behind and that can be released
    /// now.
    pub reclaim: Option<Stack>,
    /// The thread to resume, or `None` to go back to the host thread.
    pub next: Option<u64>,
}

/// Answer of [`recv`].
#[derive(Clone, Copy, Debug, PartialEq, Eq, Structural)]
pub enum Recv {
    /// A message was waiting.
    Message(u64),
    /// Nothing to receive yet: the caller is now blocked. Save its registers
    /// as those of thread `save` and resume thread `next`.
    Blocked { save: u64, next: u64 },
}

impl<E> Runtime<E> {
    /// The invariant of the runtime, see [`State::wf`].
    pub open spec fn wf(&self) -> bool {
        self@.wf()
    }

    /// An idle runtime whose threads will start at address `trampoline`.
    pub fn new(trampoline: u64) -> (rt: Runtime<E>)
        ensures
            rt.wf(),
            rt@ == State::<E>::idle(trampoline),
    {
        let rt = Runtime {
            ctx_main: None,
            contexts: VecDeque::new(),
            ids: HashSet::new(),
            messages: MappedList::new(),
            waiting: HashMap::new(),
            unused_stack: None,
            trampoline,
        };
        assert(rt@ == State::<E>::idle(trampoline));
        proof {
            lemma_idle_wf::<E>(trampoline);
        }
        rt
    }

    /// Whether a run is in progress.
    pub fn is_initialized(&self) -> (b: bool)
        ensures
            b == self@.initialized(),
    {
        self.ctx_main.is_some()
    }

    /// Number of runnable threads, the executing one included.
    pub fn runnable(&self) -> (n: usize)
        ensures
            n == self@.running.len(),
    {
        self.contexts.len()
    }

    /// Number of threads blocked on a receive.
    pub fn blocked(&self) -> (n: usize)
        ensures
            n == self@.waiting.len(),
    {
        self.waiting.len()
    }

    /// Identity of the executing thread.
    pub fn current_id(&self) -> (id: u64)
        requires
            self@.active(),
        ensures
            id == self@.current().id,
    {
        self.contexts[0].id
    }

    /// Control block of the executing thread.
    pub fn current(&self) -> (ctx: &Context<E>)
        requires
            self@.active(),
        ensures
            *ctx == self@.current(),
    {
        &self.contexts[0]
    }

    /// Whether a receive by the executing thread could never be served.
    pub fn would_deadlock(&self) -> (b: bool)
        requires
            self.wf(),
            self@.active(),
        ensures
            b == self@.deadlocked(),
    {
        self.contexts.len() == 1 && !self.messages.has_message(self.contexts[0].id)
    }

    /// Whether thread `id` is blocked on a receive.
    pub fn is_waiting(&self, id: u64) -> (b: bool)
        ensures
            b == self@.waiting.contains_key(id),
    {
        self.waiting.contains_key(&id)
    }

    /// Whether identity `id` belongs to a live thread.
    pub fn is_live(&self, id: u64) -> (b: bool)
        requires
            self.wf(),
        ensures
            b == self@.live(id),
    {
        self.ids.contains(&id)
    }

    /// Whether a message waits for thread `id`.
    pub fn has_message(&self, id: u64) -> (b: bool)
        requires
            self.wf(),
        ensures
            b == (self@.mailbox(id).len() > 0),
    {
        self.messages.has_message(id)
    }
}

proof fn lemma_idle_wf<E>(trampoline: u64)
    ensures
        State::<E>::idle(trampoline).wf(),
{
    let z = State::<E>::idle(trampoline);
    assert(!z.live(0)) by {}
    assert forall|id: u64| z.ids.contains(id) <==> z.live(id) by {}
}

/// Cooperative switch point: the executing thread offers the processor to the
/// next runnable thread and steps to the back of the run queue. Alone in the
/// queue it simply goes on.
pub fn schedule<E>(rt: &mut Runtime<E>) -> (sw: Switch)
    requires
        old(rt).wf(),
        old(rt)@.active(),
    ensures
        final(rt).wf(),
        final(rt)@ == old(rt)@.rotate(),
        final(rt)@.active(),
        sw == old(rt)@.yield_switch(),
{
    proof {
        lemma_rotate_wf(rt@);
    }
    if rt.contexts.len() == 1 {
        return Switch::Stay;
    }
    let ctx = rt.contexts.pop_front().unwrap();
    let save = ctx.id;
    rt.contexts.push_back(ctx);
    let next = rt.contexts[0].id;
    assert(rt@.running =~= old(rt)@.rotate().running);
    Switch::To { save, next }
}

/// Creates a thread that will run `func` on `stack`, puts it at the back of
/// the run queue, and yields.
pub fn spawn<E>(rt: &mut Runtime<E>, func: E, stack: Stack) -> (res: Spawned)
    requires
        old(rt).wf(),
        old(rt)@.active(),
        stack.wf(),
    ensures
        final(rt).wf(),
        !old(rt)@.ids.contains(res.id),
        final(rt)@ == old(rt)@.enqueue(
            Context::fresh(func, stack, res.id, old(rt)@.trampoline),
        ).rotate(),
        res.switch == (Switch::To {
            save: old(rt)@.current().id,
            next: if old(rt)@.running.len() > 1 {
                old(rt)@.running[1].id
            } else {
                res.id
            },
        }),
{
    let id = get_id(&mut rt.ids);
    let ctx = Context::new(func, stack, id, rt.trampoline);
    proof {
        lemma_enqueue_wf(old(rt)@, ctx);
    }
    rt.contexts.push_back(ctx);
    assert(rt@ == old(rt)@.enqueue(ctx));
    let switch = schedule(rt);
    Spawned { id, switch }
}

/// Takes the parked stack, if there is one, so that the caller can release
/// it. To be called by a thread right after it has been resumed: the stack
/// belongs to a thread that ended on it, and control has left it since.
pub fn rm_unused_stack<E>(rt: &mut Runtime<E>) -> (stack: Option<Stack>)
    requires
        old(rt).wf(),
    ensures
        final(rt).wf(),
        final(rt)@ == old(rt)@.reap(),
        stack == old(rt)@.unused,
{
    proof {
        lemma_reap_wf(rt@);
    }
    let stack = rt.unused_stack;
    rt.unused_stack = None;
    stack
}

/// Ends the executing thread, after its function has returned.
///
/// The thread leaves the run queue, its identity is released, and its stack
/// is parked: it cannot be released while the thread still stands on it. A
/// stack parked earlier is handed out for release first, so the slot never
/// loses one. The answer names the thread to resume; without one, control
/// goes back to the host thread.
pub fn entry_point<E>(rt: &mut Runtime<E>) -> (exit: Exit)
    requires
        old(rt).wf(),
        old(rt)@.active(),
    ensures
        final(rt).wf(),
        final(rt)@ == old(rt)@.retire(),
        !final(rt)@.live(old(rt)@.current().id),
        exit.reclaim == old(rt)@.unused,
        exit.next == if old(rt)@.running.len() > 1 {
            Some(old(rt)@.running[1].id)
        } else {
            None
        },
{
    proof {
        lemma_retire_wf(rt@);
    }
    let ctx = rt.contexts.pop_front().unwrap();
    release(&mut rt.ids, ctx.id);
    let reclaim = rt.unused_stack;
    rt.unused_stack = Some(ctx.stack);
    let next = if rt.contexts.len() > 0 {
        Some(rt.contexts[0].id)
    } else {
        None
    };
    assert(rt@.running =~= old(rt)@.retire().running);
    Exit { reclaim, next }
}

/// Starts a run: the runtime leaves the idle state with one thread, which
/// will run `func` on `stack`. Returns that thread's identity; the caller
/// saves the host thread's registers and switches into it.
pub fn spawn_from_main<E>(rt: &mut Runtime<E>, func: E, stack: Stack) -> (id: u64)
    requires
        old(rt).wf(),
        !old(rt)@.initialized(),
        stack.wf(),
    ensures
        final(rt).wf(),
        final(rt)@ == old(rt)@.boot(Context::fresh(func, stack, id, old(rt)@.trampoline)),
{
    rt.ctx_main = Some(Registers::new(0, rt.trampoline));
    rt.messages = MappedList::new();
    rt.waiting = HashMap::new();
    rt.ids = HashSet::new();
    rt.unused_stack = None;
    let id = get_id(&mut rt.ids);
    let ctx = Context::new(func, stack, id, rt.trampoline);
    proof {
        lemma_boot_wf(old(rt)@, ctx);
    }
    rt.contexts.push_back(ctx);
    assert(rt@.running =~= seq![ctx]);
    assert(rt@.ids =~= set![id]);
    id
}

/// Ends a run, once control is back on the host thread: everything is
/// cleared, and the stack of the thread that ended last is handed out for
/// release. The runtime is idle again, exactly as when it was created.
pub fn finish_main<E>(rt: &mut Runtime<E>) -> (stack: Option<Stack>)
    requires
        old(rt).wf(),
    ensures
        final(rt).wf(),
        final(rt)@ == State::<E>::idle(old(rt)@.trampoline),
        stack == old(rt)@.unused,
{
    let stack = rt.unused_stack;
    rt.unused_stack = None;
    rt.ctx_main = None;
    rt.contexts.clear();
    rt.messages.clear();
    rt.waiting.clear();
    rt.ids.clear();
    proof {
        lemma_idle_wf::<E>(rt.trampoline);
    }
    stack
}

/// Queues `msg` for thread `key`, makes that thread runnable if it was
/// blocked on a receive, and yields.
pub fn send<E>(rt: &mut Runtime<E>, key: u64, msg: u64) -> (sw: Switch)
    requires
        old(rt).wf(),
        old(rt)@.active(),
    ensures
        final(rt).wf(),
        final(rt)@ == old(rt)@.post(key, msg).rotate(),
        sw == old(rt)@.post(key, msg).yield_switch(),
{
    proof {
        lemma_post_wf(rt@, key, msg);
    }
    rt.messages.push_back(key, msg);
    match rt.waiting.remove(&key) {
        Some(ctx) => {
            rt.contexts.push_back(ctx);
        },
        None => {
            assert(rt@.waiting =~= old(rt)@.waiting);
        },
    }
    assert(rt@ == old(rt)@.post(key, msg));
    schedule(rt)
}

/// Takes the oldest message of the executing thread's mailbox, if any. This
/// is how a thread that blocked in [`recv`] picks up its message once it has
/// been resumed.
pub fn recv_wake<E>(rt: &mut Runtime<E>) -> (msg: Option<u64>)
    requires
        old(rt).wf(),
        old(rt)@.active(),
    ensures
        final(rt).wf(),
        final(rt)@ == old(rt)@.take(),
        msg == if old(rt)@.mailbox(old(rt)@.current().id).len() > 0 {
            Some(old(rt)@.mailbox(old(rt)@.current().id).first())
        } else {
            None
        },
{
    proof {
        lemma_take_wf(rt@);
    }
    let key = rt.contexts[0].id;
    rt.messages.pop_front(key)
}

/// Receives a message for the executing thread.
///
/// With a message in its mailbox the thread gets the oldest one at once.
/// Otherwise it moves to the waiting set, and the answer names the thread to
/// resume in its place. A caller that is the only runnable thread and has an
/// empty mailbox could never be woken: that is a deadlock, and such a call is
/// not allowed (test with [`Runtime::would_deadlock`]).
pub fn recv<E>(rt: &mut Runtime<E>) -> (r: Recv)
    requires
        old(rt).wf(),
        old(rt)@.active(),
        !old(rt)@.deadlocked(),
    ensures
        final(rt).wf(),
        old(rt)@.mailbox(old(rt)@.current().id).len() > 0 ==> {
            &&& r == Recv::Message(old(rt)@.mailbox(old(rt)@.current().id).first())
            &&& final(rt)@ == old(rt)@.take()
        },
        old(rt)@.mailbox(old(rt)@.current().id).len() == 0 ==> {
            &&& r == (Recv::Blocked {
                save: old(rt)@.current().id,
                next: old(rt)@.running[1].id,
            })
            &&& final(rt)@ == old(rt)@.block()
        },
{
    let key = rt.contexts[0].id;
    proof {
        lemma_take_wf(rt@);
        lemma_popped(rt@.messages, key);
    }
    match rt.messages.pop_front(key) {
        Some(msg) => {
            return Recv::Message(msg);
        },
        None => {},
    }
    assert(rt@ == old(rt)@);
    proof {
        lemma_block_wf(rt@);
    }
    let ctx = rt.contexts.pop_front().unwrap();
    rt.waiting.insert(key, ctx);
    let next = rt.contexts[0].id;
    assert(rt@.running =~= old(rt)@.block().running);
    Recv::Blocked { save: key, next }
}

} // verus!
