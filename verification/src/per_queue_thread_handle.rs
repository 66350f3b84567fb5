use crate::allocators::allocator::Allocator;
use crate::cc_queue::CcQueue;
use crate::queue_view::serial_dequeue;
use crate::queue_view::dequeue_blocks;
use crate::queue_view::enqueue_blocks;
use crate::queue_view::Progress;
use crate::queue_view::QueueView;
use vstd::prelude::*;

verus! {

/// This structure is made for each thread that wants to access a queue. It
/// is the thread's own: it is not shared, and every operation on the queue
/// goes through it.
///
/// A handle has one operation in flight at most. An operation that has to
/// wait for a combiner stays in flight; the thread pauses and calls
/// [`Self::resume`] until the operation is complete.
pub struct PerQueueThreadHandle {
    this: usize,
}

impl PerQueueThreadHandle {
    /// The identity of the handle in its queue.
    pub closed spec fn id(&self) -> usize {
        self.this
    }

    pub(crate) fn from_id(this: usize) -> (handle: Self)
        ensures
            handle.id() == this,
    {
        PerQueueThreadHandle { this }
    }

    pub(crate) fn this(&self) -> (this: usize)
        ensures
            this == self.id(),
    {
        self.this
    }

    /// Whether the handle has an operation in flight.
    pub fn in_flight<T, A: Allocator>(&self, queue: &CcQueue<T, A>) -> (busy: bool)
        requires
            queue.wf(),
            queue.has_handle(self),
        ensures
            busy == !queue@.idle(self.id()),
    {
        !queue.is_idle(self)
    }

    /// Enqueue data. The item is in the queue when the result is
    /// [`Progress::Enqueued`]; while the result is [`Progress::Waiting`] the
    /// enqueue is in flight.
    pub fn enqueue<T, A: Allocator>(&mut self, queue: &mut CcQueue<T, A>, data: T) -> (progress:
        Progress<T>)
        requires
            old(queue).wf(),
            old(queue).has_handle(old(self)),
            old(queue)@.idle(old(self).id()),
        ensures
            final(self).id() == old(self).id(),
            final(queue).wf(),
            (final(queue)@, progress) == old(queue)@.begin_enqueue(old(self).id(), data).run(
                old(self).id(),
            ),
            final(queue)@.pooled.dom() == old(queue)@.pooled.dom(),
            progress is Enqueued || progress is Waiting,
            old(queue)@.enq.unlocked() ==> progress is Enqueued && final(queue)@ == (QueueView {
                items: old(queue)@.items.push(data),
                pooled: old(queue)@.pooled.insert(old(self).id(), false),
                ..old(queue)@
            }),
            final(queue).base() == old(queue).base(),
            enqueue_blocks(
                old(queue).allocator(),
                final(queue).allocator(),
                old(queue)@.pooled[old(self).id()],
            ),
    {
        queue.internal_enqueue(self.this, data)
    }

    /// Dequeue data. The result [`Progress::Dequeued`] carries the oldest
    /// item, or none if the queue was empty; while the result is
    /// [`Progress::Waiting`] the dequeue is in flight.
    pub fn dequeue<T, A: Allocator>(&mut self, queue: &mut CcQueue<T, A>) -> (progress: Progress<T>)
        requires
            old(queue).wf(),
            old(queue).has_handle(old(self)),
            old(queue)@.idle(old(self).id()),
        ensures
            final(self).id() == old(self).id(),
            final(queue).wf(),
            (final(queue)@, progress) == old(queue)@.begin_dequeue(old(self).id()).run(
                old(self).id(),
            ),
            final(queue)@.pooled.dom() == old(queue)@.pooled.dom(),
            progress is Dequeued || progress is Waiting,
            old(queue)@.deq.unlocked() ==> progress == Progress::Dequeued(
                serial_dequeue(old(queue)@.items).1,
            ) && final(queue)@ == (QueueView {
                items: serial_dequeue(old(queue)@.items).0,
                pooled: old(queue)@.pooled.insert(
                    old(self).id(),
                    old(queue)@.pooled[old(self).id()] || old(queue)@.items.len() > 0,
                ),
                ..old(queue)@
            }),
            final(queue).base() == old(queue).base(),
            dequeue_blocks(
                old(queue).allocator(),
                final(queue).allocator(),
                progress,
                old(queue)@.pooled[old(self).id()],
            ),
    {
        queue.internal_dequeue(self.this)
    }

    /// Registers an enqueue of `data` and takes no step of it yet.
    pub fn begin_enqueue<T, A: Allocator>(&mut self, queue: &mut CcQueue<T, A>, data: T)
        requires
            old(queue).wf(),
            old(queue).has_handle(old(self)),
            old(queue)@.idle(old(self).id()),
        ensures
            final(self).id() == old(self).id(),
            final(queue).wf(),
            final(queue)@ == old(queue)@.begin_enqueue(old(self).id(), data),
            final(queue).base() == old(queue).base(),
            enqueue_blocks(
                old(queue).allocator(),
                final(queue).allocator(),
                old(queue)@.pooled[old(self).id()],
            ),
    {
        queue.internal_begin_enqueue(self.this, data)
    }

    /// Registers a dequeue and takes no step of it yet.
    pub fn begin_dequeue<T, A: Allocator>(&mut self, queue: &mut CcQueue<T, A>)
        requires
            old(queue).wf(),
            old(queue).has_handle(old(self)),
            old(queue)@.idle(old(self).id()),
        ensures
            final(self).id() == old(self).id(),
            final(queue).wf(),
            final(queue)@ == old(queue)@.begin_dequeue(old(self).id()),
            final(queue).base() == old(queue).base(),
            final(queue).allocator() == old(queue).allocator(),
    {
        queue.internal_begin_dequeue(self.this)
    }

    /// Takes one step of the operation in flight: one atomic action of the
    /// combining protocol.
    pub fn advance<T, A: Allocator>(&mut self, queue: &mut CcQueue<T, A>) -> (progress: Progress<T>)
        requires
            old(queue).wf(),
            old(queue).has_handle(old(self)),
        ensures
            final(self).id() == old(self).id(),
            final(queue).wf(),
            (final(queue)@, progress) == old(queue)@.step(old(self).id()),
            final(queue)@.pooled.dom() == old(queue)@.pooled.dom(),
            final(queue).base() == old(queue).base(),
            dequeue_blocks(
                old(queue).allocator(),
                final(queue).allocator(),
                progress,
                old(queue)@.pooled[old(self).id()],
            ),
    {
        queue.internal_advance(self.this)
    }

    /// Takes the steps of the operation in flight, one after the other,
    /// until it completes or has to wait for a combiner.
    pub fn resume<T, A: Allocator>(&mut self, queue: &mut CcQueue<T, A>) -> (progress: Progress<T>)
        requires
            old(queue).wf(),
            old(queue).has_handle(old(self)),
        ensures
            final(self).id() == old(self).id(),
            final(queue).wf(),
            (final(queue)@, progress) == old(queue)@.run(old(self).id()),
            final(queue)@.pooled.dom() == old(queue)@.pooled.dom(),
            !(progress is Advanced),
            final(queue).base() == old(queue).base(),
            dequeue_blocks(
                old(queue).allocator(),
                final(queue).allocator(),
                progress,
                old(queue)@.pooled[old(self).id()],
            ),
    {
        queue.internal_resume(self.this)
    }
}

} // verus!
