//! What holds of the queue whatever the threads do: laws of the state
//! machine that every function of the queue follows.
use crate::allocators::allocator::Allocator;
use crate::queue_view::dequeue_blocks;
use crate::queue_view::enqueue_blocks;
use crate::queue_view::serial_dequeue;
use crate::queue_view::Progress;
use crate::queue_view::QueueView;
use crate::synch_view::Op;
use crate::synch_view::SynchView;
use crate::synch_view::Turn;
use vstd::multiset::Multiset;
use vstd::prelude::*;

verus! {

/// The item that an operation holds on to, if any: its request, if
/// `applied` is false and the operation was not applied yet, or its result,
/// if `applied` is true and the operation was applied.
pub open spec fn share<T>(op: Op<Option<T>>, applied: bool) -> Multiset<T> {
    if op.applied() == applied && op.payload() is Some {
        Multiset::singleton(op.payload()->0)
    } else {
        Multiset::empty()
    }
}

/// The items that the operations in `ops` hold on to.
pub open spec fn carried<T>(ops: Map<usize, Op<Option<T>>>, applied: bool) -> Multiset<T>
    decreases ops.dom().len(),
    when ops.dom().finite()
{
    if ops.dom().len() == 0 {
        Multiset::empty()
    } else {
        let h = ops.dom().choose();
        carried(ops.remove(h), applied).add(share(ops[h], applied))
    }
}

/// All the items that the queue holds: those in the list, those of enqueues
/// that were not applied yet, and those that dequeues removed and have not
/// handed to their callers yet.
pub open spec fn holdings<T>(queue: QueueView<T>) -> Multiset<T> {
    queue.items.to_multiset().add(carried(queue.enq.ops, false)).add(
        carried(queue.deq.ops, true),
    )
}

/// The items carried are those of any one operation and those of the others.
pub proof fn lemma_carried_split<T>(ops: Map<usize, Op<Option<T>>>, k: usize, applied: bool)
    requires
        ops.dom().finite(),
        ops.contains_key(k),
    ensures
        carried(ops, applied) =~= carried(ops.remove(k), applied).add(share(ops[k], applied)),
    decreases ops.dom().len(),
{
    let h = ops.dom().choose();
    if h != k {
        lemma_carried_split(ops.remove(h), k, applied);
        lemma_carried_split(ops.remove(k), h, applied);
        assert(ops.remove(h).remove(k) =~= ops.remove(k).remove(h));
    }
}

/// Replacing one operation replaces what it carries.
pub proof fn lemma_carried_insert<T>(
    ops: Map<usize, Op<Option<T>>>,
    k: usize,
    op: Op<Option<T>>,
    applied: bool,
)
    requires
        ops.dom().finite(),
    ensures
        carried(ops.insert(k, op), applied) =~= carried(ops.remove(k), applied).add(
            share(op, applied),
        ),
{
    lemma_carried_split(ops.insert(k, op), k, applied);
    assert(ops.insert(k, op).remove(k) =~= ops.remove(k));
}

/// Registering an enqueue adds its item, once, to what the queue holds.
pub proof fn lemma_begin_enqueue_holds<T>(queue: QueueView<T>, handle: usize, item: T)
    requires
        queue.wf(),
        queue.idle(handle),
    ensures
        holdings(queue.begin_enqueue(handle, item)) =~= holdings(queue).insert(item),
{
    lemma_carried_insert(queue.enq.ops, handle, Op::Registered(Some(item)), false);
    assert(queue.enq.ops.remove(handle) =~= queue.enq.ops);
}

/// Registering a dequeue leaves what the queue holds as it is.
pub proof fn lemma_begin_dequeue_holds<T>(queue: QueueView<T>, handle: usize)
    requires
        queue.wf(),
        queue.idle(handle),
    ensures
        holdings(queue.begin_dequeue(handle)) =~= holdings(queue),
{
    lemma_carried_insert(queue.deq.ops, handle, Op::Registered(None), true);
    assert(queue.deq.ops.remove(handle) =~= queue.deq.ops);
}

/// A turn that applies nothing replaces the operation of its handle by one
/// that carries the same, or removes it once it was applied.
proof fn lemma_turn_carries<T>(side: SynchView<Option<T>>, handle: usize, applied: bool)
    requires
        side.wf(),
        side.ops.contains_key(handle),
        !(side.turn(handle).1 is ApplyOwn),
        !(side.turn(handle).1 is Serve),
    ensures
        side.turn(handle).1 matches Turn::Finished(result) ==> carried(side.ops, applied)
            =~= carried(side.turn(handle).0.ops, applied).add(
            share(Op::Served(result), applied),
        ),
        !(side.turn(handle).1 is Finished) ==> carried(side.turn(handle).0.ops, applied)
            =~= carried(side.ops, applied),
{
    let next = side.turn(handle).0;
    lemma_carried_split(side.ops, handle, applied);
    if next.ops.contains_key(handle) {
        lemma_carried_insert(side.ops, handle, next.ops[handle], applied);
        assert(next.ops =~= side.ops.insert(handle, next.ops[handle]));
    } else {
        assert(next.ops =~= side.ops.remove(handle));
    }
}

/// No step loses an item or makes two of one: a step leaves what the queue
/// holds as it is, but for the step that completes a dequeue, which takes the
/// item that it returns out of it.
pub proof fn lemma_step_holds<T>(queue: QueueView<T>, handle: usize)
    requires
        queue.wf(),
    ensures
        match queue.step(handle).1 {
            Progress::Dequeued(Some(item)) => holdings(queue) =~= holdings(
                queue.step(handle).0,
            ).insert(item),
            _ => holdings(queue.step(handle).0) =~= holdings(queue),
        },
{
    broadcast use vstd::seq_lib::group_to_multiset_ensures;

    let next = queue.step(handle).0;
    if queue.enq.ops.contains_key(handle) {
        let turn = queue.enq.turn(handle).1;
        match turn {
            Turn::ApplyOwn(request) => {
                lemma_carried_split(queue.enq.ops, handle, false);
                lemma_carried_insert(queue.enq.ops, handle, Op::Helping(None), false);
            },
            Turn::Serve(request) => {
                let front = queue.enq.line[0];
                assert(queue.enq.ops.contains_key(front));
                lemma_carried_split(queue.enq.ops, front, false);
                lemma_carried_insert(queue.enq.ops, front, Op::Served(None), false);
            },
            _ => {
                lemma_turn_carries(queue.enq, handle, false);
            },
        }
    } else if queue.deq.ops.contains_key(handle) {
        let turn = queue.deq.turn(handle).1;
        let (rest, first) = serial_dequeue(queue.items);
        if queue.items.len() > 0 {
            assert(queue.items.remove(0) =~= rest);
        }
        match turn {
            Turn::ApplyOwn(request) => {
                lemma_carried_split(queue.deq.ops, handle, true);
                lemma_carried_insert(queue.deq.ops, handle, Op::Helping(first), true);
            },
            Turn::Serve(request) => {
                let front = queue.deq.line[0];
                assert(queue.deq.ops.contains_key(front));
                lemma_carried_split(queue.deq.ops, front, true);
                lemma_carried_insert(queue.deq.ops, front, Op::Served(first), true);
            },
            _ => {
                lemma_turn_carries(queue.deq, handle, true);
            },
        }
    }
}

/// On each side there is one combiner at most: of two handles that combine,
/// each is the other.
pub proof fn lemma_one_combiner<T>(queue: QueueView<T>, first: usize, second: usize)
    requires
        queue.wf(),
    ensures
        queue.enq.ops.contains_key(first) && queue.enq.ops[first].combining()
            && queue.enq.ops.contains_key(second) && queue.enq.ops[second].combining() ==> first
            == second,
        queue.deq.ops.contains_key(first) && queue.deq.ops[first].combining()
            && queue.deq.ops.contains_key(second) && queue.deq.ops[second].combining() ==> first
            == second,
{
}

/// The handles of the enqueues in `added`, in their order.
pub open spec fn handles_of<T>(added: Seq<(usize, T)>) -> Seq<usize> {
    added.map_values(|pair: (usize, T)| pair.0)
}

/// The items of the enqueues in `added`, in their order.
pub open spec fn items_of<T>(added: Seq<(usize, T)>) -> Seq<T> {
    added.map_values(|pair: (usize, T)| pair.1)
}

/// The state after the enqueues in `added`, each by the handle named with
/// it, each complete before the next begins.
pub open spec fn after_enqueues<T>(queue: QueueView<T>, added: Seq<(usize, T)>) -> QueueView<T>
    decreases added.len(),
{
    if added.len() == 0 {
        queue
    } else {
        after_enqueues(
            queue.begin_enqueue(added[0].0, added[0].1).run(added[0].0).0,
            added.drop_first(),
        )
    }
}

/// The dequeues by `handles`, each complete before the next begins: the state
/// after them, and what each of them came to.
pub open spec fn after_dequeues<T>(queue: QueueView<T>, handles: Seq<usize>) -> (
    QueueView<T>,
    Seq<Progress<T>>,
)
    decreases handles.len(),
{
    if handles.len() == 0 {
        (queue, Seq::empty())
    } else {
        let (next, progress) = queue.begin_dequeue(handles[0]).run(handles[0]);
        let (last, results) = after_dequeues(next, handles.drop_first());
        (last, seq![progress] + results)
    }
}

/// Whether `queue` is at rest for the handles in `handles`: both sides are
/// unlocked and each of the handles is one of the queue and idle.
pub open spec fn at_rest<T>(queue: QueueView<T>, handles: Seq<usize>) -> bool {
    &&& queue.wf()
    &&& queue.enq.unlocked()
    &&& queue.deq.unlocked()
    &&& forall|i: int|
        0 <= i < handles.len() ==> queue.pooled.contains_key(#[trigger] handles[i]) && queue.idle(
            handles[i],
        )
}

/// Enqueues that complete one after the other add their items at the end of
/// the queue, in their order, and leave the queue at rest.
pub proof fn lemma_enqueues<T>(queue: QueueView<T>, added: Seq<(usize, T)>, others: Seq<usize>)
    requires
        at_rest(queue, handles_of(added)),
        at_rest(queue, others),
    ensures
        after_enqueues(queue, added).items =~= queue.items + items_of(added),
        after_enqueues(queue, added).enq == queue.enq,
        after_enqueues(queue, added).deq == queue.deq,
        after_enqueues(queue, added).pooled.dom() == queue.pooled.dom(),
        at_rest(after_enqueues(queue, added), others),
    decreases added.len(),
{
    let handles = handles_of(added);
    if added.len() > 0 {
        assert(handles[0] == added[0].0);
        queue.lemma_enqueue_unlocked(added[0].0, added[0].1);
        let next = queue.begin_enqueue(added[0].0, added[0].1).run(added[0].0).0;
        assert(next.pooled.dom() =~= queue.pooled.dom());
        let rest = added.drop_first();
        let later = handles_of(rest);
        assert forall|i: int| 0 <= i < later.len() implies
            next.pooled.contains_key(#[trigger] later[i]) && next.idle(later[i]) by {
            assert(handles[i + 1] == rest[i].0);
            assert(queue.pooled.contains_key(handles[i + 1]));
        }
        assert forall|i: int| 0 <= i < others.len() implies
            next.pooled.contains_key(#[trigger] others[i]) && next.idle(others[i]) by {
            assert(queue.pooled.contains_key(others[i]));
        }
        lemma_enqueues(next, rest, others);
    }
}

/// Dequeues that complete one after the other return the items of the queue
/// from the oldest on, in their order, and none once the queue is empty.
pub proof fn lemma_dequeues<T>(queue: QueueView<T>, handles: Seq<usize>)
    requires
        at_rest(queue, handles),
    ensures
        after_dequeues(queue, handles).1.len() == handles.len(),
        forall|j: int|
            0 <= j < handles.len() ==> #[trigger] after_dequeues(queue, handles).1[j]
                == Progress::Dequeued(
                if j < queue.items.len() {
                    Some(queue.items[j])
                } else {
                    None
                },
            ),
        after_dequeues(queue, handles).0.items =~= if handles.len() <= queue.items.len() {
            queue.items.skip(handles.len() as int)
        } else {
            Seq::empty()
        },
    decreases handles.len(),
{
    if handles.len() > 0 {
        queue.lemma_dequeue_unlocked(handles[0]);
        let (next, progress) = queue.begin_dequeue(handles[0]).run(handles[0]);
        assert(next.pooled.dom() =~= queue.pooled.dom());
        let rest = handles.drop_first();
        assert forall|i: int| 0 <= i < rest.len() implies
            next.pooled.contains_key(#[trigger] rest[i]) && next.idle(rest[i]) by {
            assert(handles[i + 1] == rest[i]);
            assert(queue.pooled.contains_key(handles[i + 1]));
        }
        lemma_dequeues(next, rest);
        let results = after_dequeues(queue, handles).1;
        let later = after_dequeues(next, rest).1;
        assert forall|j: int| 0 <= j < handles.len() implies #[trigger] results[j]
            == Progress::Dequeued(
            if j < queue.items.len() {
                Some(queue.items[j])
            } else {
                None
            },
        ) by {
            if j > 0 {
                assert(results[j] == later[j - 1]);
            }
        }
    }
}

/// First in, first out: when all the enqueues in `added` are complete before
/// any dequeue begins, the dequeues return the items in exactly the order of
/// the enqueues. A dequeue for which no item is left returns none.
pub proof fn lemma_fifo<T>(queue: QueueView<T>, added: Seq<(usize, T)>, handles: Seq<usize>)
    requires
        queue.items.len() == 0,
        at_rest(queue, handles_of(added)),
        at_rest(queue, handles),
    ensures
        after_dequeues(after_enqueues(queue, added), handles).1.len() == handles.len(),
        forall|j: int|
            0 <= j < handles.len() ==> #[trigger] after_dequeues(
                after_enqueues(queue, added),
                handles,
            ).1[j] == Progress::Dequeued(
                if j < added.len() {
                    Some(added[j].1)
                } else {
                    None
                },
            ),
{
    lemma_enqueues(queue, added, handles);
    lemma_dequeues(after_enqueues(queue, added), handles);
}

/// A dequeue that registers while the dequeue side is unlocked and the queue
/// is empty completes at once, returns none, and changes nothing: it never
/// waits for an item.
pub proof fn lemma_dequeue_empty<T>(queue: QueueView<T>, handle: usize)
    requires
        queue.wf(),
        queue.pooled.contains_key(handle),
        queue.idle(handle),
        queue.deq.unlocked(),
        queue.items.len() == 0,
    ensures
        queue.begin_dequeue(handle).run(handle) == (queue, Progress::<T>::Dequeued(None)),
{
    queue.lemma_dequeue_unlocked(handle);
    assert(queue.pooled.insert(handle, queue.pooled[handle]) =~= queue.pooled);
}

/// An enqueue and then a dequeue by the same handle, with nothing in
/// between, leave the handle with a recycled node, whether it held one before
/// or not.
pub proof fn lemma_round_trip<T>(queue: QueueView<T>, handle: usize, item: T)
    requires
        queue.wf(),
        queue.pooled.contains_key(handle),
        queue.idle(handle),
        queue.enq.unlocked(),
        queue.deq.unlocked(),
    ensures
        ({
            let between = queue.begin_enqueue(handle, item).run(handle).0;
            let (after, progress) = between.begin_dequeue(handle).run(handle);
            &&& !between.pooled[handle]
            &&& progress is Dequeued
            &&& progress->Dequeued_0 is Some
            &&& after.pooled[handle]
            &&& after.items =~= (queue.items + seq![item]).drop_first()
            &&& after.enq == queue.enq
            &&& after.deq == queue.deq
        }),
{
    queue.lemma_enqueue_unlocked(handle, item);
    let between = queue.begin_enqueue(handle, item).run(handle).0;
    assert(between.pooled.dom() =~= queue.pooled.dom());
    between.lemma_dequeue_unlocked(handle);
}

/// For a handle that holds a recycled node, as every handle does when it is
/// made and after every round trip, an enqueue and then a dequeue with
/// nothing in between leave the allocator as it was.
/// `before`, `between` and `after` are the allocator before the enqueue,
/// between the two, and after the dequeue.
pub proof fn lemma_round_trip_allocates_nothing<T, A: Allocator>(
    queue: QueueView<T>,
    handle: usize,
    item: T,
    before: A,
    between: A,
    after: A,
)
    requires
        queue.wf(),
        queue.pooled.contains_key(handle),
        queue.idle(handle),
        queue.enq.unlocked(),
        queue.deq.unlocked(),
        queue.pooled[handle],
        enqueue_blocks(before, between, queue.pooled[handle]),
        dequeue_blocks(
            between,
            after,
            queue.begin_enqueue(handle, item).run(handle).0.begin_dequeue(handle).run(handle).1,
            queue.begin_enqueue(handle, item).run(handle).0.pooled[handle],
        ),
    ensures
        after == before,
        queue.begin_enqueue(handle, item).run(handle).0.begin_dequeue(handle).run(
            handle,
        ).0.pooled[handle],
{
    lemma_round_trip(queue, handle, item);
}

/// What holds of every state holds of the empty queue without handles.
pub proof fn lemma_empty_wf<T>()
    ensures
        QueueView::<T>::empty().wf(),
{
}

/// What holds of every state is kept when a handle joins.
pub proof fn lemma_add_handle_wf<T>(queue: QueueView<T>, handle: usize)
    requires
        queue.wf(),
    ensures
        queue.add_handle(handle).wf(),
{
}

/// What holds of every state is kept when an idle handle leaves.
pub proof fn lemma_remove_handle_wf<T>(queue: QueueView<T>, handle: usize)
    requires
        queue.wf(),
        queue.idle(handle),
    ensures
        queue.remove_handle(handle).wf(),
{
}

/// What holds of every state is kept when a handle of the queue that is idle
/// registers an enqueue.
pub proof fn lemma_begin_enqueue_wf<T>(queue: QueueView<T>, handle: usize, item: T)
    requires
        queue.wf(),
        queue.pooled.contains_key(handle),
        queue.idle(handle),
    ensures
        queue.begin_enqueue(handle, item).wf(),
{
    queue.enq.lemma_register_wf(handle, Some(item));
    assert(queue.begin_enqueue(handle, item).pooled.dom() =~= queue.pooled.dom());
}

/// What holds of every state is kept when a handle of the queue that is idle
/// registers a dequeue.
pub proof fn lemma_begin_dequeue_wf<T>(queue: QueueView<T>, handle: usize)
    requires
        queue.wf(),
        queue.pooled.contains_key(handle),
        queue.idle(handle),
    ensures
        queue.begin_dequeue(handle).wf(),
{
    queue.deq.lemma_register_wf(handle, None);
}

/// What holds of every state is kept by every step: whatever the threads
/// do, in whatever order, the queue is in such a state.
pub proof fn lemma_step_wf<T>(queue: QueueView<T>, handle: usize)
    requires
        queue.wf(),
    ensures
        queue.step(handle).0.wf(),
{
    let next = queue.step(handle).0;
    assert(next.pooled.dom() =~= queue.pooled.dom());
    if queue.enq.ops.contains_key(handle) {
        queue.enq.lemma_turn_wf(handle);
        match queue.enq.turn(handle).1 {
            Turn::ApplyOwn(_) => {
                queue.enq.lemma_apply_own_wf(handle, None);
            },
            Turn::Serve(_) => {
                queue.enq.lemma_help_wf(handle, None);
                assert(queue.enq.ops.contains_key(queue.enq.line[0]));
            },
            _ => {},
        }
    } else if queue.deq.ops.contains_key(handle) {
        let first = serial_dequeue(queue.items).1;
        queue.deq.lemma_turn_wf(handle);
        match queue.deq.turn(handle).1 {
            Turn::ApplyOwn(_) => {
                queue.deq.lemma_apply_own_wf(handle, first);
            },
            Turn::Serve(_) => {
                queue.deq.lemma_help_wf(handle, first);
                assert(queue.deq.ops.contains_key(queue.deq.line[0]));
            },
            _ => {},
        }
    }
}

/// What holds of every state is kept by a run of steps.
pub proof fn lemma_run_wf<T>(queue: QueueView<T>, handle: usize)
    requires
        queue.wf(),
    ensures
        queue.run(handle).0.wf(),
        !(queue.run(handle).1 is Advanced),
    decreases queue.budget(handle),
{
    lemma_step_wf(queue, handle);
    if queue.step(handle).1 is Advanced {
        queue.lemma_step_decreases(handle);
        lemma_run_wf(queue.step(handle).0, handle);
    }
}

/// No thread waits for nothing: while `handle` has an operation in flight,
/// there is a handle with an operation in flight whose next step does not
/// wait. So the operations in flight come to an end if only the handles keep
/// taking their steps.
pub proof fn lemma_some_handle_moves<T>(queue: QueueView<T>, handle: usize) -> (mover: usize)
    requires
        queue.wf(),
        !queue.idle(handle),
    ensures
        !queue.idle(mover),
        !(queue.step(mover).1 is Waiting),
        !(queue.step(mover).1 is Idle),
{
    if queue.enq.ops.contains_key(handle) {
        queue.enq.lemma_progress(handle)
    } else {
        queue.deq.lemma_progress(handle)
    }
}

/// No run of steps loses an item or makes two of one: a run leaves what the
/// queue holds as it is, but for a run that completes a dequeue, which takes
/// the item that it returns out of it.
pub proof fn lemma_run_holds<T>(queue: QueueView<T>, handle: usize)
    requires
        queue.wf(),
    ensures
        match queue.run(handle).1 {
            Progress::Dequeued(Some(item)) => holdings(queue) =~= holdings(
                queue.run(handle).0,
            ).insert(item),
            _ => holdings(queue.run(handle).0) =~= holdings(queue),
        },
    decreases queue.budget(handle),
{
    lemma_step_holds(queue, handle);
    if queue.step(handle).1 is Advanced {
        queue.lemma_step_decreases(handle);
        lemma_step_wf(queue, handle);
        lemma_run_holds(queue.step(handle).0, handle);
    }
}

/// The operations are served in the order in which they were registered:
/// registering adds a handle at the back of the line of its side, and a step
/// takes the handle at the front out of the line, to elect or to serve it, or
/// leaves the line as it is.
pub proof fn lemma_served_in_order<T>(queue: QueueView<T>, handle: usize, item: T)
    requires
        queue.wf(),
    ensures
        queue.begin_enqueue(handle, item).enq.line == queue.enq.line.push(handle),
        queue.begin_enqueue(handle, item).deq.line == queue.deq.line,
        queue.begin_dequeue(handle).deq.line == queue.deq.line.push(handle),
        queue.begin_dequeue(handle).enq.line == queue.enq.line,
        queue.step(handle).0.enq.line == queue.enq.line || (queue.enq.line.len() > 0
            && queue.step(handle).0.enq.line == queue.enq.line.drop_first()
            && !queue.step(handle).0.enq.ops[queue.enq.line[0]].in_line()),
        queue.step(handle).0.deq.line == queue.deq.line || (queue.deq.line.len() > 0
            && queue.step(handle).0.deq.line == queue.deq.line.drop_first()
            && !queue.step(handle).0.deq.ops[queue.deq.line[0]].in_line()),
{
}

} // verus!
