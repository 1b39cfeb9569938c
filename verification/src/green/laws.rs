//! What holds of every run of the runtime.
//!
//! A run is a sequence of steps, each taken by the thread that is executing at
//! that moment. The laws below are stated over [`step`] and [`run`], which
//! apply the same state functions that the executable operations are
//! specified with.

use crate::green::mailbox::no_empty_queue;
use crate::green::preserve::{
    lemma_block_wf, lemma_boot_wf, lemma_enqueue_wf, lemma_has_id_push, lemma_popped,
    lemma_post_wf, lemma_pushed, lemma_reap_wf, lemma_retire_wf, lemma_rotate_wf, lemma_take_wf,
};
use crate::green::stack::Stack;
use crate::green::state::{has_id, Context, State, Switch};
use vstd::prelude::*;

verus! {

/// One step of the executing thread.
pub enum Step<E> {
    /// It spawns the given thread.
    Spawn(Context<E>),
    /// It yields.
    Yield,
    /// Its function has returned.
    Exit,
    /// It sends `msg` to thread `key`.
    Send { key: u64, msg: u64 },
    /// It asks for a message, and blocks if there is none.
    Recv,
    /// It picks up a message after having been woken.
    Wake,
    /// It takes the parked stack away.
    Reap,
}

/// The state after one step.
pub open spec fn step<E>(s: State<E>, op: Step<E>) -> State<E> {
    match op {
        Step::Spawn(ctx) => s.enqueue(ctx).rotate(),
        Step::Yield => s.rotate(),
        Step::Exit => s.retire(),
        Step::Send { key, msg } => s.post(key, msg).rotate(),
        Step::Recv => if s.mailbox(s.current().id).len() > 0 {
            s.take()
        } else {
            s.block()
        },
        Step::Wake => s.take(),
        Step::Reap => s.reap(),
    }
}

/// The state after a sequence of steps.
pub open spec fn run<E>(s: State<E>, ops: Seq<Step<E>>) -> State<E>
    decreases ops.len(),
{
    if ops.len() == 0 {
        s
    } else {
        run(step(s, ops[0]), ops.drop_first())
    }
}

/// What one step sends to thread `id`.
pub open spec fn sent_by<E>(op: Step<E>, id: u64) -> Seq<u64> {
    match op {
        Step::Send { key, msg } => if key == id {
            seq![msg]
        } else {
            Seq::empty()
        },
        _ => Seq::empty(),
    }
}

/// What thread `id` receives in one step taken from state `s`.
pub open spec fn received_by<E>(s: State<E>, op: Step<E>, id: u64) -> Seq<u64> {
    if (op is Recv || op is Wake) && s.current().id == id && s.mailbox(id).len() > 0 {
        seq![s.mailbox(id).first()]
    } else {
        Seq::empty()
    }
}

/// Everything a sequence of steps sends to thread `id`, in order.
pub open spec fn sent<E>(ops: Seq<Step<E>>, id: u64) -> Seq<u64>
    decreases ops.len(),
{
    if ops.len() == 0 {
        Seq::empty()
    } else {
        sent_by(ops[0], id) + sent(ops.drop_first(), id)
    }
}

/// Everything thread `id` receives during a sequence of steps from state `s`,
/// in order.
pub open spec fn received<E>(s: State<E>, ops: Seq<Step<E>>, id: u64) -> Seq<u64>
    decreases ops.len(),
{
    if ops.len() == 0 {
        Seq::empty()
    } else {
        received_by(s, ops[0], id) + received(step(s, ops[0]), ops.drop_first(), id)
    }
}

/// The state after `n` yields in a row.
pub open spec fn yields<E>(s: State<E>, n: nat) -> State<E>
    decreases n,
{
    if n == 0 {
        s
    } else {
        yields(s.rotate(), (n - 1) as nat)
    }
}

/// The state after `n` receives in a row, each by the thread executing then.
pub open spec fn receives<E>(s: State<E>, n: nat) -> State<E>
    decreases n,
{
    if n == 0 {
        s
    } else {
        receives(step(s, Step::Recv), (n - 1) as nat)
    }
}

/// The state after the given threads have been spawned one after the other.
pub open spec fn spawns<E>(s: State<E>, threads: Seq<Context<E>>) -> State<E>
    decreases threads.len(),
{
    if threads.len() == 0 {
        s
    } else {
        spawns(step(s, Step::Spawn(threads[0])), threads.drop_first())
    }
}

/// Each of the given threads gets, at its turn, an identity that is free then:
/// what [`crate::green::runtime::spawn`] guarantees of the identity it issues.
pub open spec fn issued_fresh<E>(s: State<E>, threads: Seq<Context<E>>) -> bool
    decreases threads.len(),
{
    threads.len() > 0 ==> {
        &&& !s.ids.contains(threads[0].id)
        &&& threads[0].stack.wf()
        &&& issued_fresh(step(s, Step::Spawn(threads[0])), threads.drop_first())
    }
}

/// Whether the executing thread may take step `op` in state `s`: what the
/// executable operation asks of its caller.
pub open spec fn allowed<E>(s: State<E>, op: Step<E>) -> bool {
    &&& s.wf()
    &&& s.active()
    &&& match op {
        Step::Spawn(ctx) => !s.ids.contains(ctx.id) && ctx.stack.wf(),
        Step::Recv => !s.deadlocked(),
        _ => true,
    }
}

/// Whether every step of `ops` is allowed when its turn comes.
pub open spec fn allowed_run<E>(s: State<E>, ops: Seq<Step<E>>) -> bool
    decreases ops.len(),
{
    ops.len() > 0 ==> allowed(s, ops[0]) && allowed_run(step(s, ops[0]), ops.drop_first())
}

/// How often thread `id` ends during a run.
pub open spec fn ends<E>(s: State<E>, ops: Seq<Step<E>>, id: u64) -> nat
    decreases ops.len(),
{
    if ops.len() == 0 {
        0
    } else {
        let now: nat = if ops[0] is Exit && s.current().id == id {
            1
        } else {
            0
        };
        now + ends(step(s, ops[0]), ops.drop_first(), id)
    }
}

/// Whether some step of `ops` spawns a thread under identity `id`.
pub open spec fn issues<E>(ops: Seq<Step<E>>, id: u64) -> bool
    decreases ops.len(),
{
    ops.len() > 0 && ((ops[0] matches Step::Spawn(ctx) && ctx.id == id) || issues(
        ops.drop_first(),
        id,
    ))
}

/// Every allowed step keeps the invariant, and only the end of the last
/// runnable thread leaves the run queue empty.
pub proof fn lemma_step_wf<E>(s: State<E>, op: Step<E>)
    requires
        allowed(s, op),
    ensures
        step(s, op).wf(),
        step(s, op).initialized(),
        !(op is Exit) ==> step(s, op).active(),
        op is Exit ==> step(s, op).running.len() == s.running.len() - 1,
        step(s, op).ids == match op {
            Step::Spawn(ctx) => s.ids.insert(ctx.id),
            Step::Exit => s.ids.remove(s.current().id),
            _ => s.ids,
        },
{
    match op {
        Step::Spawn(ctx) => {
            lemma_enqueue_wf(s, ctx);
            lemma_rotate_wf(s.enqueue(ctx));
        },
        Step::Yield => {
            lemma_rotate_wf(s);
        },
        Step::Exit => {
            lemma_retire_wf(s);
        },
        Step::Send { key, msg } => {
            lemma_post_wf(s, key, msg);
            lemma_rotate_wf(s.post(key, msg));
        },
        Step::Recv => {
            if s.mailbox(s.current().id).len() > 0 {
                lemma_take_wf(s);
            } else {
                lemma_block_wf(s);
            }
        },
        Step::Wake => {
            lemma_take_wf(s);
        },
        Step::Reap => {
            lemma_reap_wf(s);
        },
    }
}

/// The invariant holds after every allowed run.
pub proof fn lemma_run_wf<E>(s: State<E>, ops: Seq<Step<E>>)
    requires
        s.wf(),
        allowed_run(s, ops),
    ensures
        run(s, ops).wf(),
    decreases ops.len(),
{
    if ops.len() > 0 {
        lemma_step_wf(s, ops[0]);
        lemma_run_wf(step(s, ops[0]), ops.drop_first());
    }
}

/// A thread ends at most once.
///
/// Over any allowed run in which the identity `id` is not issued anew, the
/// thread `id` ends once at most, and not at all if it was not live at the
/// start. Once it has ended it is gone: it is neither runnable nor blocked,
/// so no switch leads to it again.
pub proof fn lemma_ends_once<E>(s: State<E>, ops: Seq<Step<E>>, id: u64)
    requires
        s.wf(),
        allowed_run(s, ops),
        !issues(ops, id),
    ensures
        ends(s, ops, id) <= 1,
        !s.live(id) ==> ends(s, ops, id) == 0,
        !s.live(id) || ends(s, ops, id) == 1 ==> !run(s, ops).live(id),
    decreases ops.len(),
{
    if ops.len() > 0 {
        let op = ops[0];
        let t = step(s, op);
        let rest = ops.drop_first();
        lemma_step_wf(s, op);
        lemma_ends_once(t, rest, id);
        if op is Exit && s.current().id == id {
            lemma_retire_wf(s);
            assert(!t.live(id));
            assert(has_id(s.running, id)) by {
                assert(s.running[0].id == id);
            }
        } else {
            if !s.live(id) {
                assert(!s.ids.contains(id));
                assert(!t.ids.contains(id));
            }
            if op is Exit {
                assert(t.ids.contains(id) == s.ids.contains(id));
            }
        }
        assert(s.live(id) == s.ids.contains(id));
        assert(t.live(id) == t.ids.contains(id));
    }
}

/// One step changes only the mailbox it is about: a send appends to the
/// receiver's, a receive removes the head of the receiver's own.
pub proof fn lemma_step_mailbox<E>(s: State<E>, op: Step<E>, id: u64)
    requires
        no_empty_queue(s.messages),
    ensures
        no_empty_queue(step(s, op).messages),
        s.mailbox(id) + sent_by(op, id) == received_by(s, op, id) + step(s, op).mailbox(id),
{
    let t = step(s, op);
    match op {
        Step::Send { key, msg } => {
            lemma_pushed(s.messages, key, msg);
            assert(t.messages == s.post(key, msg).messages);
            if key == id {
                assert(s.mailbox(id) + seq![msg] =~= s.mailbox(id).push(msg));
            }
        },
        Step::Recv => {
            lemma_popped(s.messages, s.current().id);
            if s.mailbox(s.current().id).len() > 0 {
                if s.current().id == id {
                    assert(s.mailbox(id) =~= seq![s.mailbox(id).first()] + s.mailbox(
                        id,
                    ).drop_first());
                }
            }
        },
        Step::Wake => {
            lemma_popped(s.messages, s.current().id);
            if s.current().id == id && s.mailbox(id).len() > 0 {
                assert(s.mailbox(id) =~= seq![s.mailbox(id).first()] + s.mailbox(id).drop_first());
            }
        },
        _ => {},
    }
    assert(s.mailbox(id) + sent_by(op, id) =~= received_by(s, op, id) + t.mailbox(id));
}

/// Mailboxes are first-in, first-out, whatever happens in between.
///
/// Over any run, what was in thread `id`'s mailbox at the start followed by
/// what was sent to it is what it received followed by what is still in its
/// mailbox. So the messages are received in the order in which they were
/// sent, none is lost and none is invented.
pub proof fn lemma_mailbox_fifo<E>(s: State<E>, ops: Seq<Step<E>>, id: u64)
    requires
        no_empty_queue(s.messages),
    ensures
        no_empty_queue(run(s, ops).messages),
        s.mailbox(id) + sent(ops, id) == received(s, ops, id) + run(s, ops).mailbox(id),
    decreases ops.len(),
{
    if ops.len() == 0 {
        assert(s.mailbox(id) + sent(ops, id) =~= received(s, ops, id) + run(s, ops).mailbox(id));
    } else {
        let t = step(s, ops[0]);
        let rest = ops.drop_first();
        lemma_step_mailbox(s, ops[0], id);
        lemma_mailbox_fifo(t, rest, id);
        let a = s.mailbox(id);
        let b = sent_by(ops[0], id);
        let c = sent(rest, id);
        let d = received_by(s, ops[0], id);
        let e = received(t, rest, id);
        let f = run(t, rest).mailbox(id);
        assert(a + b == d + t.mailbox(id));
        assert(t.mailbox(id) + c == e + f);
        assert(a + (b + c) =~= (a + b) + c);
        assert((d + t.mailbox(id)) + c =~= d + (t.mailbox(id) + c));
        assert(d + (e + f) =~= (d + e) + f);
    }
}

/// A message that has been sent is received, in its turn.
///
/// After `send(id, msg)`, let any steps follow. Thread `id` first receives
/// what was in its mailbox before, and the next message it receives is `msg`.
pub proof fn lemma_sent_is_received<E>(
    s: State<E>,
    id: u64,
    msg: u64,
    ops: Seq<Step<E>>,
)
    requires
        no_empty_queue(s.messages),
        received(step(s, Step::Send { key: id, msg }), ops, id).len() > s.mailbox(id).len(),
    ensures
        received(step(s, Step::Send { key: id, msg }), ops, id)[s.mailbox(id).len() as int]
            == msg,
{
    let send: Step<E> = Step::Send { key: id, msg };
    let t = step(s, send);
    lemma_step_mailbox(s, send, id);
    assert(t.mailbox(id) =~= s.mailbox(id) + seq![msg]);
    lemma_mailbox_fifo(t, ops, id);
    let got = received(t, ops, id);
    let all = t.mailbox(id) + sent(ops, id);
    assert(all == got + run(t, ops).mailbox(id));
    let k = s.mailbox(id).len() as int;
    assert(all[k] == msg);
    assert((got + run(t, ops).mailbox(id))[k] == got[k]);
}

/// The stack that awaits release, as a sequence of none or one.
pub open spec fn parked<E>(s: State<E>) -> Seq<Stack> {
    match s.unused {
        Some(stack) => seq![stack],
        None => Seq::empty(),
    }
}

/// The stack that one step hands to the caller for release: taking the parked
/// stack away hands it out, and so does the end of a thread, which needs the
/// slot for its own stack.
pub open spec fn handed_by<E>(s: State<E>, op: Step<E>) -> Seq<Stack> {
    if op is Reap || op is Exit {
        parked(s)
    } else {
        Seq::empty()
    }
}

/// The stack that one step leaves without a thread.
pub open spec fn left_by<E>(s: State<E>, op: Step<E>) -> Seq<Stack> {
    if op is Exit {
        seq![s.current().stack]
    } else {
        Seq::empty()
    }
}

/// The stacks handed out for release during a run, in order.
pub open spec fn handed<E>(s: State<E>, ops: Seq<Step<E>>) -> Seq<Stack>
    decreases ops.len(),
{
    if ops.len() == 0 {
        Seq::empty()
    } else {
        handed_by(s, ops[0]) + handed(step(s, ops[0]), ops.drop_first())
    }
}

/// The stacks of the threads that end during a run, in order.
pub open spec fn left<E>(s: State<E>, ops: Seq<Step<E>>) -> Seq<Stack>
    decreases ops.len(),
{
    if ops.len() == 0 {
        Seq::empty()
    } else {
        left_by(s, ops[0]) + left(step(s, ops[0]), ops.drop_first())
    }
}

/// No stack is lost and none is released twice.
///
/// Over any run, the stack parked at the start followed by the stacks of the
/// threads that ended is what was handed out for release followed by what is
/// parked at the end. So every stack of a finished thread is handed out
/// once, in the order in which the threads ended, after its thread has left
/// the run queue, and at most one is pending at any time.
pub proof fn lemma_stacks_conserved<E>(s: State<E>, ops: Seq<Step<E>>)
    ensures
        parked(s) + left(s, ops) == handed(s, ops) + parked(run(s, ops)),
        parked(run(s, ops)).len() <= 1,
    decreases ops.len(),
{
    if ops.len() == 0 {
        assert(parked(s) + left(s, ops) =~= handed(s, ops) + parked(run(s, ops)));
    } else {
        let op = ops[0];
        let t = step(s, op);
        let rest = ops.drop_first();
        lemma_stacks_conserved(t, rest);
        assert(parked(s) + left_by(s, op) =~= handed_by(s, op) + parked(t));
        let a = parked(s);
        let b = left_by(s, op);
        let c = left(t, rest);
        let d = handed_by(s, op);
        let e = handed(t, rest);
        let f = parked(run(t, rest));
        assert(a + (b + c) =~= (a + b) + c);
        assert((d + parked(t)) + c =~= d + (parked(t) + c));
        assert(d + (e + f) =~= (d + e) + f);
    }
}

/// A switch goes from the executing thread to the one behind it.
///
/// When a yield asks for a switch, the thread to save is the one that was
/// executing, the thread to resume is another one, it is the one executing
/// afterwards, and both are live.
pub proof fn lemma_yield_switch<E>(s: State<E>)
    requires
        s.wf(),
        s.active(),
    ensures
        s.running.len() == 1 <==> s.yield_switch() == Switch::Stay,
        s.yield_switch() matches Switch::To { save, next } ==> {
            &&& save == s.current().id
            &&& next == s.rotate().current().id
            &&& save != next
            &&& s.rotate().live(save)
            &&& s.rotate().live(next)
        },
{
    if s.running.len() > 1 {
        let t = s.rotate();
        lemma_rotate_wf(s);
        assert(t.running[0] == s.running[1]);
        assert(t.running[t.running.len() - 1] == s.running[0]);
        assert(has_id(t.running, s.running[1].id));
        assert(has_id(t.running, s.running[0].id));
    }
}

/// Yields do not touch anything but the order of the run queue.
pub proof fn lemma_yields_keep<E>(s: State<E>, n: nat)
    requires
        s.wf(),
    ensures
        yields(s, n).wf(),
        yields(s, n).messages == s.messages,
        yields(s, n).waiting == s.waiting,
        yields(s, n).ids == s.ids,
        yields(s, n).running.len() == s.running.len(),
    decreases n,
{
    if n > 0 {
        lemma_rotate_wf(s);
        lemma_yields_keep(s.rotate(), (n - 1) as nat);
    }
}

/// Round robin: the thread at position `pos` of the run queue is executing
/// after `pos` yields.
pub proof fn lemma_round_robin<E>(s: State<E>, pos: nat)
    requires
        pos < s.running.len(),
    ensures
        yields(s, pos).active(),
        yields(s, pos).current() == s.running[pos as int],
    decreases pos,
{
    if pos > 0 {
        let t = s.rotate();
        assert(t.running[pos - 1] == s.running[pos as int]);
        lemma_round_robin(t, (pos - 1) as nat);
    }
}

/// A message sent to a live thread with an empty mailbox reaches it.
///
/// After `send(id, msg)` the receiver is runnable, whether or not it was
/// blocked before. Yields by the threads ahead of it bring it to the front,
/// its mailbox holds exactly `msg` all the while, and its receive then
/// returns `msg`.
pub proof fn lemma_send_then_recv<E>(s: State<E>, id: u64, msg: u64) -> (turns: nat)
    requires
        s.wf(),
        s.active(),
        s.live(id),
        s.mailbox(id).len() == 0,
    ensures
        forall|n: nat|
            (#[trigger] yields(step(s, Step::Send { key: id, msg }), n)).mailbox(id) == seq![msg],
        turns < step(s, Step::Send { key: id, msg }).running.len(),
        yields(step(s, Step::Send { key: id, msg }), turns).current().id == id,
        received_by(yields(step(s, Step::Send { key: id, msg }), turns), Step::Recv, id) == seq![
            msg,
        ],
{
    let send: Step<E> = Step::Send { key: id, msg };
    let posted = s.post(id, msg);
    let t = step(s, send);
    lemma_post_wf(s, id, msg);
    lemma_rotate_wf(posted);
    lemma_step_mailbox(s, send, id);
    assert(t.mailbox(id) =~= seq![msg]);
    assert forall|n: nat| (#[trigger] yields(t, n)).mailbox(id) == seq![msg] by {
        lemma_yields_keep(t, n);
    }
    // The receiver is in the run queue after the send.
    assert(has_id(posted.running, id)) by {
        if s.waiting.contains_key(id) {
            lemma_has_id_push(s.running, s.waiting[id], id);
        }
    }
    assert(t.ids == posted.ids);
    assert(posted.live(id));
    assert(t.ids.contains(id));
    assert(t.live(id));
    assert(!t.waiting.contains_key(id));
    let pos = choose|i: int| 0 <= i < t.running.len() && (#[trigger] t.running[i]).id == id;
    lemma_round_robin(t, pos as nat);
    lemma_yields_keep(t, pos as nat);
    pos as nat
}

/// Threads that all wait for a message end in a deadlock that is detected.
///
/// If no runnable thread has a message and each of them calls receive, every
/// call but the last blocks its caller, and the last caller is alone with an
/// empty mailbox: the state is [`State::deadlocked`], which is what a receive
/// refuses to be called in.
pub proof fn lemma_all_receive_deadlock<E>(s: State<E>)
    requires
        s.wf(),
        s.active(),
        forall|i: int| 0 <= i < s.running.len() ==> s.mailbox((#[trigger] s.running[i]).id).len() == 0,
    ensures
        forall|n: nat| n < s.running.len() - 1 ==> !(#[trigger] receives(s, n)).deadlocked(),
        receives(s, (s.running.len() - 1) as nat).deadlocked(),
        receives(s, (s.running.len() - 1) as nat).wf(),
    decreases s.running.len(),
{
    if s.running.len() == 1 {
        assert(receives(s, 0) == s);
    } else {
        let t = step(s, Step::Recv);
        assert(t == s.block());
        lemma_block_wf(s);
        assert forall|i: int| 0 <= i < t.running.len() implies t.mailbox(
            (#[trigger] t.running[i]).id,
        ).len() == 0 by {
            assert(t.running[i] == s.running[i + 1]);
        }
        lemma_all_receive_deadlock(t);
        assert forall|n: nat| n < s.running.len() - 1 implies !(#[trigger] receives(
            s,
            n,
        )).deadlocked() by {
            if n > 0 {
                assert(receives(s, n) == receives(t, (n - 1) as nat));
            }
        }
        assert(receives(s, (s.running.len() - 1) as nat) == receives(
            t,
            (t.running.len() - 1) as nat,
        ));
    }
}

/// Spawned threads have identities of their own.
///
/// Let any number of threads be spawned one after the other, none ending in
/// between. Then all of them are live at the end, no two of them share an
/// identity, and none shares one with a thread that was live before.
pub proof fn lemma_spawned_ids_distinct<E>(s: State<E>, threads: Seq<Context<E>>)
    requires
        s.wf(),
        s.active(),
        issued_fresh(s, threads),
    ensures
        spawns(s, threads).wf(),
        spawns(s, threads).running.len() == s.running.len() + threads.len(),
        forall|id: u64| s.live(id) ==> spawns(s, threads).live(id),
        forall|i: int|
            0 <= i < threads.len() ==> spawns(s, threads).live((#[trigger] threads[i]).id) && !s.live(
                threads[i].id,
            ),
        forall|i: int, j: int|
            0 <= i < j < threads.len() ==> (#[trigger] threads[i]).id != (#[trigger] threads[j]).id,
    decreases threads.len(),
{
    if threads.len() > 0 {
        let first = threads[0];
        let rest = threads.drop_first();
        let mid = s.enqueue(first);
        let t = step(s, Step::Spawn(first));
        lemma_enqueue_wf(s, first);
        lemma_rotate_wf(mid);
        assert(t.ids == s.ids.insert(first.id));
        lemma_spawned_ids_distinct(t, rest);
        let end = spawns(s, threads);
        assert(end == spawns(t, rest));
        assert forall|id: u64| s.live(id) implies end.live(id) by {
            assert(s.ids.contains(id));
            assert(t.ids.contains(id));
            assert(t.live(id));
        }
        assert(t.ids.contains(first.id));
        assert(t.live(first.id));
        assert forall|i: int| 0 <= i < threads.len() implies end.live((#[trigger] threads[i]).id)
            && !s.live(threads[i].id) by {
            if i > 0 {
                assert(threads[i] == rest[i - 1]);
                assert(!t.live(rest[i - 1].id));
                assert(!t.ids.contains(threads[i].id));
            }
        }
        assert forall|i: int, j: int| 0 <= i < j < threads.len() implies (#[trigger] threads[i]).id
            != (#[trigger] threads[j]).id by {
            assert(threads[j] == rest[j - 1]);
            if i == 0 {
                assert(!t.live(rest[j - 1].id));
            } else {
                assert(threads[i] == rest[i - 1]);
            }
        }
    }
}

/// A new run never sees anything of an earlier one.
///
/// The idle state holds no thread, identity, message or stack, and the state
/// a run starts in is the same whatever the runtime went through before.
pub proof fn lemma_clean_restart<E>(s: State<E>, first: Context<E>)
    requires
        first.stack.wf(),
    ensures
        State::<E>::idle(s.trampoline).wf(),
        State::<E>::idle(s.trampoline).running.len() == 0,
        State::<E>::idle(s.trampoline).waiting.dom().is_empty(),
        State::<E>::idle(s.trampoline).messages.dom().is_empty(),
        State::<E>::idle(s.trampoline).ids.is_empty(),
        State::<E>::idle(s.trampoline).unused is None,
        s.boot(first) == State::<E>::idle(s.trampoline).boot(first),
        s.boot(first).wf(),
{
    lemma_boot_wf(s, first);
}

} // verus!
