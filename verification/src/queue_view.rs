//! The queue as a state machine: the items in the queue and, for each of the
//! two combining objects, the state of the protocol.
use crate::allocators::allocator::one_less;
use crate::allocators::allocator::one_more;
use crate::allocators::allocator::Allocator;
use crate::allocators::allocator::CACHE_LINE_SIZE;
use crate::allocators::allocator::PAGE_SIZE;
use crate::synch_view::Op;
use crate::synch_view::SynchView;
use crate::synch_view::Turn;
use crate::synch_view::CCSYNCH_HELP_BOUND;
use vstd::prelude::*;

verus! {

/// What a step of a handle, or a run of steps, came to.
pub enum Progress<T> {
    /// The handle has no operation in flight.
    Idle,
    /// The handle took a step; its operation is still in flight.
    Advanced,
    /// The operation is in flight and has to wait for a combiner.
    Waiting,
    /// An enqueue is complete.
    Enqueued,
    /// A dequeue is complete, with the item that it removed, or with none:
    /// the queue was empty when the dequeue was applied.
    Dequeued(Option<T>),
}

/// Whether the four addresses are distinct and none of them is that of a
/// block in `blocks`.
pub open spec fn fresh(blocks: Map<usize, usize>, a: usize, b: usize, c: usize, d: usize) -> bool {
    &&& !blocks.contains_key(a)
    &&& !blocks.contains_key(b)
    &&& !blocks.contains_key(c)
    &&& !blocks.contains_key(d)
    &&& a != b
    &&& a != c
    &&& a != d
    &&& b != c
    &&& b != d
    &&& c != d
}

/// What making a queue takes from the allocator: one block of page size, for
/// the queue itself, and three of cache line size, for the node that each of
/// the two combining objects starts with and for the sentinel.
pub open spec fn queue_blocks(before: Map<usize, usize>, after: Map<usize, usize>) -> bool {
    exists|this: usize, enq: usize, deq: usize, dummy: usize|
        fresh(before, this, enq, deq, dummy) && after == #[trigger] before.insert(
            this,
            PAGE_SIZE,
        ).insert(enq, CACHE_LINE_SIZE).insert(deq, CACHE_LINE_SIZE).insert(dummy, CACHE_LINE_SIZE)
}

/// What making the handle at `this` takes from the allocator: one block of
/// page size, for the handle itself, and three of cache line size, for the
/// combining node that it holds on each side and for its recycled node.
pub open spec fn handle_blocks(
    before: Map<usize, usize>,
    after: Map<usize, usize>,
    this: usize,
) -> bool {
    exists|enq: usize, deq: usize, node: usize|
        fresh(before, this, enq, deq, node) && after == #[trigger] before.insert(
            this,
            PAGE_SIZE,
        ).insert(enq, CACHE_LINE_SIZE).insert(deq, CACHE_LINE_SIZE).insert(node, CACHE_LINE_SIZE)
}

/// `blocks` without the block at `node`, if `pooled`.
pub open spec fn without_pooled(blocks: Map<usize, usize>, node: usize, pooled: bool) -> Map<
    usize,
    usize,
> {
    if pooled {
        blocks.remove(node)
    } else {
        blocks
    }
}

/// What the handle at `this` gives back to the allocator when it leaves:
/// its own block, the combining node that it holds on each side, and its
/// recycled node if it holds one.
pub open spec fn handle_blocks_back(
    before: Map<usize, usize>,
    after: Map<usize, usize>,
    this: usize,
    pooled: bool,
) -> bool {
    exists|enq: usize, deq: usize, node: usize|
        {
            &&& before.contains_pair(this, PAGE_SIZE)
            &&& before.contains_pair(enq, CACHE_LINE_SIZE)
            &&& before.contains_pair(deq, CACHE_LINE_SIZE)
            &&& enq != deq
            &&& pooled ==> before.contains_pair(node, CACHE_LINE_SIZE) && node != enq && node != deq
            &&& after == #[trigger] without_pooled(before, node, pooled).remove(enq).remove(
                deq,
            ).remove(this)
        }
}

/// What clearing a queue does to the allocator: it gives back the `count`
/// nodes of the list and takes one block for the new sentinel.
pub open spec fn list_blocks_renewed(
    before: Map<usize, usize>,
    after: Map<usize, usize>,
    count: nat,
) -> bool {
    exists|freed: Set<usize>, dummy: usize|
        {
            &&& freed.finite()
            &&& freed.len() == count
            &&& forall|p: usize| freed.contains(p) ==> before.contains_pair(p, CACHE_LINE_SIZE)
            &&& !before.remove_keys(freed).contains_key(dummy)
            &&& after == #[trigger] before.remove_keys(freed).insert(dummy, CACHE_LINE_SIZE)
        }
}

/// What reopening a queue does to the allocator: it takes the node that each
/// of the two new combining objects starts with and gives back those of the
/// former ones.
pub open spec fn combining_blocks_renewed(
    before: Map<usize, usize>,
    after: Map<usize, usize>,
) -> bool {
    exists|enq: usize, deq: usize, former_enq: usize, former_deq: usize|
        {
            &&& !before.contains_key(enq)
            &&& !before.contains_key(deq)
            &&& enq != deq
            &&& before.contains_pair(former_enq, CACHE_LINE_SIZE)
            &&& before.contains_pair(former_deq, CACHE_LINE_SIZE)
            &&& former_enq != former_deq
            &&& after == #[trigger] before.insert(enq, CACHE_LINE_SIZE).insert(
                deq,
                CACHE_LINE_SIZE,
            ).remove(former_enq).remove(former_deq)
        }
}

/// What registering an enqueue does to the allocator: nothing, if the handle
/// holds a recycled node, and else it takes one block for a node from it.
pub open spec fn enqueue_blocks<A: Allocator>(before: A, after: A, pooled: bool) -> bool {
    if pooled {
        after == before
    } else {
        one_more(before.blocks(), after.blocks(), CACHE_LINE_SIZE)
    }
}

/// What a step, or a run of steps, does to the allocator: nothing, unless it
/// completes a dequeue with an item for a handle that holds a recycled node
/// already, in which case it gives the block of the node that carried the
/// item back.
pub open spec fn dequeue_blocks<T, A: Allocator>(
    before: A,
    after: A,
    progress: Progress<T>,
    pooled: bool,
) -> bool {
    if progress matches Progress::Dequeued(Some(_)) && pooled {
        one_less(before.blocks(), after.blocks(), CACHE_LINE_SIZE)
    } else {
        after == before
    }
}

/// The state of a queue and of its per-thread handles.
pub struct QueueView<T> {
    /// The items in the queue, the oldest first.
    pub items: Seq<T>,
    /// The protocol on the enqueue side. A request is the item to add.
    pub enq: SynchView<Option<T>>,
    /// The protocol on the dequeue side. A result is the item removed, or
    /// none.
    pub deq: SynchView<Option<T>>,
    /// For every handle, whether it holds a recycled node.
    pub pooled: Map<usize, bool>,
}

/// Removes the oldest item, if there is one: the items left and the item
/// removed.
pub open spec fn serial_dequeue<T>(items: Seq<T>) -> (Seq<T>, Option<T>) {
    if items.len() > 0 {
        (items.drop_first(), Some(items[0]))
    } else {
        (items, None)
    }
}

/// Adds `item` as the newest.
pub open spec fn serial_enqueue<T>(items: Seq<T>, item: T) -> Seq<T> {
    items.push(item)
}

impl<T> QueueView<T> {
    /// The empty queue without handles.
    pub open spec fn empty() -> Self {
        QueueView {
            items: Seq::empty(),
            enq: SynchView::quiescent(),
            deq: SynchView::quiescent(),
            pooled: Map::empty(),
        }
    }

    /// What holds of every state: both sides of the protocol are consistent,
    /// operations are in flight for handles of this queue only, and for a
    /// handle on one side at most. An enqueue carries its item until it is
    /// applied, a dequeue carries nothing until then.
    pub open spec fn wf(self) -> bool {
        &&& self.enq.wf()
        &&& self.deq.wf()
        &&& self.pooled.dom().finite()
        &&& forall|h: usize| #[trigger] self.enq.ops.contains_key(h) ==> self.pooled.contains_key(h)
        &&& forall|h: usize| #[trigger] self.deq.ops.contains_key(h) ==> self.pooled.contains_key(h)
        &&& forall|h: usize| !(self.enq.ops.contains_key(h) && self.deq.ops.contains_key(h))
        &&& forall|h: usize| #[trigger]
            self.enq.ops.contains_key(h) ==> (self.enq.ops[h].applied()
                <==> self.enq.ops[h].payload() is None)
        &&& forall|h: usize| #[trigger]
            self.deq.ops.contains_key(h) ==> (!self.deq.ops[h].applied()
                ==> self.deq.ops[h].payload() is None)
    }

    /// Whether `handle` has no operation in flight.
    pub open spec fn idle(self, handle: usize) -> bool {
        self.enq.idle(handle) && self.deq.idle(handle)
    }

    /// Whether no operation is in flight at all.
    pub open spec fn quiescent(self) -> bool {
        self.enq == SynchView::<Option<T>>::quiescent() && self.deq == SynchView::<
            Option<T>,
        >::quiescent()
    }

    /// A new handle joins. It holds a recycled node from the start.
    pub open spec fn add_handle(self, handle: usize) -> Self {
        QueueView { pooled: self.pooled.insert(handle, true), ..self }
    }

    /// A handle leaves.
    pub open spec fn remove_handle(self, handle: usize) -> Self {
        QueueView { pooled: self.pooled.remove(handle), ..self }
    }

    /// `handle` registers an enqueue of `item`. The node for the item is the
    /// handle's recycled node if it holds one.
    pub open spec fn begin_enqueue(self, handle: usize, item: T) -> Self {
        QueueView {
            enq: self.enq.register(handle, Some(item)),
            pooled: self.pooled.insert(handle, false),
            ..self
        }
    }

    /// `handle` registers a dequeue.
    pub open spec fn begin_dequeue(self, handle: usize) -> Self {
        QueueView { deq: self.deq.register(handle, None), ..self }
    }

    /// One step of an enqueue in flight.
    pub open spec fn step_enqueue(self, handle: usize) -> (Self, Progress<T>) {
        let (enq, turn) = self.enq.turn(handle);
        match turn {
            Turn::Moved => (QueueView { enq, ..self }, Progress::Advanced),
            Turn::Blocked => (self, Progress::Waiting),
            Turn::Finished(_) => (QueueView { enq, ..self }, Progress::Enqueued),
            Turn::ApplyOwn(request) => (
                QueueView {
                    items: serial_enqueue(self.items, request->0),
                    enq: self.enq.apply_own(handle, None),
                    ..self
                },
                Progress::Advanced,
            ),
            Turn::Serve(request) => (
                QueueView {
                    items: serial_enqueue(self.items, request->0),
                    enq: self.enq.help(None),
                    ..self
                },
                Progress::Advanced,
            ),
        }
    }

    /// One step of a dequeue in flight. A dequeue that completes with an item
    /// leaves the handle with a recycled node.
    pub open spec fn step_dequeue(self, handle: usize) -> (Self, Progress<T>) {
        let (deq, turn) = self.deq.turn(handle);
        let (rest, first) = serial_dequeue(self.items);
        match turn {
            Turn::Moved => (QueueView { deq, ..self }, Progress::Advanced),
            Turn::Blocked => (self, Progress::Waiting),
            Turn::Finished(result) => (
                QueueView {
                    deq,
                    pooled: self.pooled.insert(handle, self.pooled[handle] || result is Some),
                    ..self
                },
                Progress::Dequeued(result),
            ),
            Turn::ApplyOwn(_) => (
                QueueView { items: rest, deq: self.deq.apply_own(handle, first), ..self },
                Progress::Advanced,
            ),
            Turn::Serve(_) => (
                QueueView { items: rest, deq: self.deq.help(first), ..self },
                Progress::Advanced,
            ),
        }
    }

    /// One step of `handle`: of its operation in flight, if it has one.
    pub open spec fn step(self, handle: usize) -> (Self, Progress<T>) {
        if self.enq.ops.contains_key(handle) {
            self.step_enqueue(handle)
        } else if self.deq.ops.contains_key(handle) {
            self.step_dequeue(handle)
        } else {
            (self, Progress::Idle)
        }
    }

    /// A bound on the number of steps that `handle` takes before its
    /// operation completes or has to wait.
    pub open spec fn budget(self, handle: usize) -> nat {
        let side = if self.enq.ops.contains_key(handle) {
            self.enq
        } else {
            self.deq
        };
        if !side.ops.contains_key(handle) {
            0
        } else {
            match side.ops[handle] {
                Op::Registered(_) => 5 + CCSYNCH_HELP_BOUND as nat,
                Op::Staged(_) => 4 + CCSYNCH_HELP_BOUND as nat,
                Op::Waiting(_) => 3 + CCSYNCH_HELP_BOUND as nat,
                Op::Served(_) => 0,
                Op::Elected(_) => 2 + CCSYNCH_HELP_BOUND as nat,
                Op::Helping(_) => (1 + CCSYNCH_HELP_BOUND - side.helped) as nat,
            }
        }
    }

    /// The steps of `handle`, one after the other, until its operation
    /// completes or has to wait. The comparison of the budgets is there for
    /// the definition to end; it holds of every step that leaves the operation
    /// in flight, by [`Self::lemma_step_decreases`].
    pub open spec fn run(self, handle: usize) -> (Self, Progress<T>)
        decreases self.budget(handle),
    {
        let (next, progress) = self.step(handle);
        if progress is Advanced && next.budget(handle) < self.budget(handle) {
            next.run(handle)
        } else {
            (next, progress)
        }
    }

    /// A step after which the operation is still in flight brings it nearer
    /// to its end.
    pub proof fn lemma_step_decreases(self, handle: usize)
        requires
            self.wf(),
            self.step(handle).1 is Advanced,
        ensures
            self.step(handle).0.budget(handle) < self.budget(handle),
    {
    }

    /// No step adds or removes a handle.
    pub proof fn lemma_step_handles(self, handle: usize)
        requires
            self.pooled.contains_key(handle),
        ensures
            self.step(handle).0.pooled.dom() == self.pooled.dom(),
            !(self.step(handle).1 is Dequeued) ==> self.step(handle).0.pooled == self.pooled,
    {
        assert(self.step(handle).0.pooled.dom() =~= self.pooled.dom());
        if !(self.step(handle).1 is Dequeued) {
            assert(self.step(handle).0.pooled =~= self.pooled);
        }
    }

    /// An enqueue that registers while the enqueue side is unlocked
    /// completes without waiting: the item is the newest in the queue, and
    /// the enqueue side is as it was.
    pub proof fn lemma_enqueue_unlocked(self, handle: usize, item: T)
        requires
            self.wf(),
            self.pooled.contains_key(handle),
            self.idle(handle),
            self.enq.unlocked(),
        ensures
            self.begin_enqueue(handle, item).run(handle) == (
                QueueView {
                    items: self.items.push(item),
                    pooled: self.pooled.insert(handle, false),
                    ..self
                },
                Progress::<T>::Enqueued,
            ),
    {
        let begun = self.begin_enqueue(handle, item);
        assert(begun.enq.line =~= seq![handle]);
        let (elected, first) = begun.step(handle);
        assert(elected.enq.line =~= Seq::<usize>::empty());
        let (applied, second) = elected.step(handle);
        let (released, third) = applied.step(handle);
        assert(first is Advanced && second is Advanced && third is Enqueued);
        assert(released.enq.ops =~= self.enq.ops);
        assert(released.enq.line =~= self.enq.line);
        assert(begun.run(handle) == elected.run(handle));
        assert(elected.run(handle) == applied.run(handle));
        assert(applied.run(handle) == (released, third));
    }

    /// A dequeue that registers while the dequeue side is unlocked completes
    /// without waiting: it removes the oldest item, or finds the queue
    /// empty, and the dequeue side is as it was. If it removed an item, the
    /// handle holds a recycled node afterwards.
    pub proof fn lemma_dequeue_unlocked(self, handle: usize)
        requires
            self.wf(),
            self.pooled.contains_key(handle),
            self.idle(handle),
            self.deq.unlocked(),
        ensures
            self.begin_dequeue(handle).run(handle) == (
                QueueView {
                    items: serial_dequeue(self.items).0,
                    pooled: self.pooled.insert(
                        handle,
                        self.pooled[handle] || self.items.len() > 0,
                    ),
                    ..self
                },
                Progress::Dequeued(serial_dequeue(self.items).1),
            ),
    {
        let begun = self.begin_dequeue(handle);
        assert(begun.deq.line =~= seq![handle]);
        let (elected, first) = begun.step(handle);
        assert(elected.deq.line =~= Seq::<usize>::empty());
        let (applied, second) = elected.step(handle);
        let (released, third) = applied.step(handle);
        assert(first is Advanced && second is Advanced && third is Dequeued);
        assert(released.deq.ops =~= self.deq.ops);
        assert(released.deq.line =~= self.deq.line);
        assert(begun.run(handle) == elected.run(handle));
        assert(elected.run(handle) == applied.run(handle));
        assert(applied.run(handle) == (released, third));
    }
}

} // verus!
