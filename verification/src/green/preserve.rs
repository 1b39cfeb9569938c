//! Every operation keeps the runtime's invariant.

use crate::green::mailbox::{no_empty_queue, popped, pushed, queue_of};
use crate::green::state::{distinct_ids, has_id, Context, State};
use vstd::prelude::*;

verus! {

/// Membership in a queue after a thread has joined its back.
pub proof fn lemma_has_id_push<E>(queue: Seq<Context<E>>, ctx: Context<E>, id: u64)
    ensures
        has_id(queue.push(ctx), id) <==> has_id(queue, id) || id == ctx.id,
{
    let longer = queue.push(ctx);
    if has_id(queue, id) {
        let i = choose|i: int| 0 <= i < queue.len() && (#[trigger] queue[i]).id == id;
        assert(longer[i].id == id);
    }
    if id == ctx.id {
        assert(longer[queue.len() as int].id == id);
    }
    if has_id(longer, id) {
        let i = choose|i: int| 0 <= i < longer.len() && (#[trigger] longer[i]).id == id;
        if i < queue.len() {
            assert(queue[i].id == id);
        }
    }
}

/// Membership in a queue after its first thread has left, given that no
/// identity occurs twice.
pub proof fn lemma_has_id_drop_first<E>(queue: Seq<Context<E>>, id: u64)
    requires
        queue.len() > 0,
        distinct_ids(queue),
    ensures
        has_id(queue.drop_first(), id) <==> has_id(queue, id) && id != queue[0].id,
        distinct_ids(queue.drop_first()),
        has_id(queue, queue[0].id),
{
    let shorter = queue.drop_first();
    if has_id(queue, id) && id != queue[0].id {
        let i = choose|i: int| 0 <= i < queue.len() && (#[trigger] queue[i]).id == id;
        assert(shorter[i - 1].id == id);
    }
    if has_id(shorter, id) {
        let i = choose|i: int| 0 <= i < shorter.len() && (#[trigger] shorter[i]).id == id;
        assert(queue[i + 1].id == id);
    }
    assert forall|i: int, j: int| 0 <= i < j < shorter.len() implies (#[trigger] shorter[i]).id != (
    #[trigger] shorter[j]).id by {
        assert(shorter[i] == queue[i + 1]);
        assert(shorter[j] == queue[j + 1]);
    }
    assert(queue[0].id == queue[0].id);
}

/// A thread whose identity is new to a queue may join it.
pub proof fn lemma_distinct_push<E>(queue: Seq<Context<E>>, ctx: Context<E>)
    requires
        distinct_ids(queue),
        !has_id(queue, ctx.id),
    ensures
        distinct_ids(queue.push(ctx)),
{
    let longer = queue.push(ctx);
    assert forall|i: int, j: int| 0 <= i < j < longer.len() implies (#[trigger] longer[i]).id != (
    #[trigger] longer[j]).id by {
        assert(longer[i] == queue[i]);
        if j < queue.len() {
            assert(longer[j] == queue[j]);
        }
    }
}

/// A thread with an unused identity may join the run queue.
pub proof fn lemma_enqueue_wf<E>(s: State<E>, ctx: Context<E>)
    requires
        s.wf(),
        s.initialized(),
        !s.ids.contains(ctx.id),
        ctx.stack.wf(),
    ensures
        s.enqueue(ctx).wf(),
{
    let t = s.enqueue(ctx);
    assert forall|id: u64| t.ids.contains(id) <==> t.live(id) by {
        lemma_has_id_push(s.running, ctx, id);
    }
    assert(!s.live(ctx.id));
    lemma_distinct_push(s.running, ctx);
    assert forall|i: int| 0 <= i < t.running.len() implies !t.waiting.contains_key(
        (#[trigger] t.running[i]).id,
    ) && t.running[i].stack.wf() by {
        if i < s.running.len() {
            assert(t.running[i] == s.running[i]);
        }
    }
}

/// Stepping to the back of the run queue keeps the invariant.
pub proof fn lemma_rotate_wf<E>(s: State<E>)
    requires
        s.wf(),
    ensures
        s.rotate().wf(),
{
    if s.running.len() > 1 {
        let t = s.rotate();
        let rest = s.running.drop_first();
        lemma_has_id_drop_first(s.running, s.running[0].id);
        lemma_distinct_push(rest, s.running[0]);
        assert forall|id: u64| t.ids.contains(id) <==> t.live(id) by {
            lemma_has_id_drop_first(s.running, id);
            lemma_has_id_push(rest, s.running[0], id);
        }
        assert forall|i: int| 0 <= i < t.running.len() implies !t.waiting.contains_key(
            (#[trigger] t.running[i]).id,
        ) && t.running[i].stack.wf() by {
            if i == t.running.len() - 1 {
                assert(t.running[i] == s.running[0]);
            } else {
                assert(t.running[i] == s.running[i + 1]);
            }
        }
    }
}

/// The end of the executing thread keeps the invariant, and the thread is
/// gone afterwards.
pub proof fn lemma_retire_wf<E>(s: State<E>)
    requires
        s.wf(),
        s.active(),
    ensures
        s.retire().wf(),
        !s.retire().live(s.current().id),
{
    let t = s.retire();
    assert(s.running[0].stack.wf());
    assert forall|id: u64| t.ids.contains(id) <==> t.live(id) by {
        lemma_has_id_drop_first(s.running, id);
    }
    lemma_has_id_drop_first(s.running, s.current().id);
    assert forall|i: int| 0 <= i < t.running.len() implies !t.waiting.contains_key(
        (#[trigger] t.running[i]).id,
    ) && t.running[i].stack.wf() by {
        assert(t.running[i] == s.running[i + 1]);
    }
}

/// Taking the parked stack away keeps the invariant.
pub proof fn lemma_reap_wf<E>(s: State<E>)
    requires
        s.wf(),
    ensures
        s.reap().wf(),
{
}

/// Queuing a message keeps every other queue and leaves no queue empty.
pub proof fn lemma_pushed<T>(boxes: Map<u64, Seq<T>>, key: u64, val: T)
    requires
        no_empty_queue(boxes),
    ensures
        no_empty_queue(pushed(boxes, key, val)),
        queue_of(pushed(boxes, key, val), key) == queue_of(boxes, key).push(val),
        forall|k: u64| k != key ==> queue_of(pushed(boxes, key, val), k) == queue_of(boxes, k),
{
}

/// Taking a message keeps every other queue and leaves no queue empty.
pub proof fn lemma_popped<T>(boxes: Map<u64, Seq<T>>, key: u64)
    requires
        no_empty_queue(boxes),
    ensures
        no_empty_queue(popped(boxes, key)),
        queue_of(boxes, key).len() > 0 ==> queue_of(popped(boxes, key), key) == queue_of(
            boxes,
            key,
        ).drop_first(),
        queue_of(boxes, key).len() == 0 ==> popped(boxes, key) == boxes,
        forall|k: u64| k != key ==> queue_of(popped(boxes, key), k) == queue_of(boxes, k),
{
    if queue_of(boxes, key).len() == 0 {
        assert(popped(boxes, key) =~= boxes);
    } else if queue_of(boxes, key).len() == 1 {
        assert(queue_of(boxes, key).drop_first() =~= Seq::<T>::empty());
    }
}

/// Posting a message keeps the invariant.
pub proof fn lemma_post_wf<E>(s: State<E>, key: u64, msg: u64)
    requires
        s.wf(),
        s.initialized(),
    ensures
        s.post(key, msg).wf(),
{
    let t = s.post(key, msg);
    lemma_pushed(s.messages, key, msg);
    if s.waiting.contains_key(key) {
        let woken = s.waiting[key];
        assert(woken.id == key);
        assert(!has_id(s.running, key)) by {
            if has_id(s.running, key) {
                let i = choose|i: int|
                    0 <= i < s.running.len() && (#[trigger] s.running[i]).id == key;
                assert(!s.waiting.contains_key(s.running[i].id));
            }
        }
        lemma_distinct_push(s.running, woken);
        assert forall|id: u64| t.ids.contains(id) <==> t.live(id) by {
            lemma_has_id_push(s.running, woken, id);
        }
        assert forall|i: int| 0 <= i < t.running.len() implies !t.waiting.contains_key(
            (#[trigger] t.running[i]).id,
        ) && t.running[i].stack.wf() by {
            if i < s.running.len() {
                assert(t.running[i] == s.running[i]);
            }
        }
        assert forall|k: u64| t.waiting.contains_key(k) implies (#[trigger] t.waiting[k]).id == k
            && t.waiting[k].stack.wf() && t.mailbox(k).len() == 0 by {
            assert(s.waiting.contains_key(k));
            assert(s.waiting[k].id == k);
        }
    } else {
        assert forall|k: u64| t.waiting.contains_key(k) implies (#[trigger] t.waiting[k]).id == k
            && t.waiting[k].stack.wf() && t.mailbox(k).len() == 0 by {
            assert(s.waiting[k].id == k);
        }
    }
}

/// Taking a message keeps the invariant.
pub proof fn lemma_take_wf<E>(s: State<E>)
    requires
        s.wf(),
        s.active(),
    ensures
        s.take().wf(),
{
    let t = s.take();
    lemma_popped(s.messages, s.running[0].id);
    assert(!s.waiting.contains_key(s.running[0].id));
    assert forall|k: u64| t.waiting.contains_key(k) implies (#[trigger] t.waiting[k]).id == k
        && t.waiting[k].stack.wf() && t.mailbox(k).len() == 0 by {
        assert(s.waiting.contains_key(k));
        assert(s.waiting[k].id == k);
    }
}

/// A thread with an empty mailbox may block.
pub proof fn lemma_block_wf<E>(s: State<E>)
    requires
        s.wf(),
        s.active(),
        s.mailbox(s.current().id).len() == 0,
    ensures
        s.block().wf(),
{
    let t = s.block();
    let me = s.running[0];
    lemma_has_id_drop_first(s.running, me.id);
    assert forall|id: u64| t.ids.contains(id) <==> t.live(id) by {
        lemma_has_id_drop_first(s.running, id);
    }
    assert forall|i: int| 0 <= i < t.running.len() implies !t.waiting.contains_key(
        (#[trigger] t.running[i]).id,
    ) && t.running[i].stack.wf() by {
        assert(t.running[i] == s.running[i + 1]);
    }
    assert forall|k: u64| t.waiting.contains_key(k) implies (#[trigger] t.waiting[k]).id == k
        && t.waiting[k].stack.wf() && t.mailbox(k).len() == 0 by {
        if k != me.id {
            assert(s.waiting.contains_key(k));
            assert(s.waiting[k].id == k);
        }
    }
}

/// The idle state satisfies the invariant, and a run may start from it with
/// any one thread.
pub proof fn lemma_boot_wf<E>(s: State<E>, first: Context<E>)
    requires
        first.stack.wf(),
    ensures
        s.boot(first).wf(),
        State::<E>::idle(s.trampoline).wf(),
{
    let t = s.boot(first);
    assert forall|id: u64| t.ids.contains(id) <==> t.live(id) by {
        if id == first.id {
            assert(t.running[0].id == id);
        }
    }
}

} // verus!
