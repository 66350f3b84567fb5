use crate::allocators::allocator::Allocator;
use crate::allocators::allocator_opened::AllocatorOpened;
use crate::cc_queue::CcQueue;
use crate::per_queue_thread_handle::PerQueueThreadHandle;
use crate::queue_view::combining_blocks_renewed;
use crate::queue_view::handle_blocks;
use crate::queue_view::handle_blocks_back;
use crate::queue_view::queue_blocks;
use crate::queue_view::QueueView;
use vstd::prelude::*;

verus! {

/// This is the queue object for items that need no care when the queue goes
/// away: a cc queue that is never cleared.
///
/// Each thread accessing the queue makes a handle with
/// `new_per_thread_handle` and works on the queue through `cc_queue`.
pub struct Queue<T, A: Allocator>(CcQueue<T, A>);

impl<T, A: Allocator> View for Queue<T, A> {
    type V = QueueView<T>;

    closed spec fn view(&self) -> QueueView<T> {
        self.0@
    }
}

impl<T, A: Allocator> Queue<T, A> {
    /// The cc queue inside.
    pub closed spec fn inner(&self) -> CcQueue<T, A> {
        self.0
    }

    /// The consistency of the queue.
    pub open spec fn wf(&self) -> bool {
        self.inner().wf()
    }

    /// A queue without handles can be reopened with an allocator that knows
    /// the live blocks that the queue's allocator knows.
    pub proof fn lemma_reopens_with(&self, allocator: &A)
        requires
            self.wf(),
            self.inner().no_handles(),
            allocator.wf(),
            allocator.blocks() == self.inner().allocator().blocks(),
        ensures
            self.reopens_with(allocator),
    {
        self.0.lemma_reopens_with(allocator);
    }

    /// Create a new queue.
    pub fn new(allocator: A) -> (queue: Self)
        requires
            allocator.wf(),
        ensures
            queue.wf(),
            queue.inner()@ == QueueView::<T>::empty(),
            queue.inner().base() == allocator.blocks(),
            queue_blocks(allocator.blocks(), queue.inner().allocator().blocks()),
    {
        Queue(CcQueue::new(allocator))
    }

    /// Create a new per-thread handle.
    pub fn new_per_thread_handle(&mut self) -> (handle: PerQueueThreadHandle)
        requires
            old(self).wf(),
        ensures
            final(self).wf(),
            !old(self).inner().has_handle(&handle),
            final(self).inner()@ == old(self).inner()@.add_handle(handle.id()),
            final(self).inner().base() == old(self).inner().base(),
            handle_blocks(
                old(self).inner().allocator().blocks(),
                final(self).inner().allocator().blocks(),
                handle.id(),
            ),
    {
        self.0.new_per_thread_handle()
    }

    /// Gives a per-thread handle back: frees what the handle holds. The
    /// handle must have no operation in flight.
    pub fn drop_per_thread_handle(&mut self, handle: PerQueueThreadHandle)
        requires
            old(self).wf(),
            old(self).inner().has_handle(&handle),
            old(self).inner()@.idle(handle.id()),
        ensures
            final(self).wf(),
            final(self).inner()@ == old(self).inner()@.remove_handle(handle.id()),
            final(self).inner().base() == old(self).inner().base(),
            handle_blocks_back(
                old(self).inner().allocator().blocks(),
                final(self).inner().allocator().blocks(),
                handle.id(),
                old(self).inner()@.pooled[handle.id()],
            ),
    {
        self.0.drop_per_thread_handle(handle)
    }

    /// Tears the queue down and hands the allocator back: every block of the
    /// queue is freed. Items that are still in the queue are dropped.
    /// Only works on a queue without handles.
    pub fn destroy(self) -> (allocator: A)
        requires
            self.wf(),
            self.inner().no_handles(),
        ensures
            allocator.wf(),
            allocator.blocks() == self.inner().base(),
    {
        self.0.destroy()
    }

    /// The cc queue inside, for the handles to work on.
    pub fn cc_queue(&mut self) -> (queue: &mut CcQueue<T, A>)
        ensures
            *queue == old(self).inner(),
            final(self).inner() == *final(queue),
    {
        &mut self.0
    }

    /// Turns the queue into the cc queue inside.
    pub fn into_cc_queue(self) -> (queue: CcQueue<T, A>)
        ensures
            queue == self.inner(),
    {
        self.0
    }
}

impl<T, A: Allocator> AllocatorOpened<A> for Queue<T, A> {
    closed spec fn reopens_with(&self, allocator: &A) -> bool {
        self.0.reopens_with(allocator)
    }

    fn allocator_opened(&mut self, allocator: A)
        ensures
            final(self).wf(),
            final(self).inner().no_handles(),
            final(self).inner()@ == old(self).inner()@,
            final(self).inner().base() == old(self).inner().base(),
            combining_blocks_renewed(
                allocator.blocks(),
                final(self).inner().allocator().blocks(),
            ),
    {
        self.0.allocator_opened(allocator)
    }
}

} // verus!
