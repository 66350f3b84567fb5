use crate::allocators::allocator::Allocator;
use crate::allocators::allocator_opened::AllocatorOpened;
use crate::per_queue_thread_handle::PerQueueThreadHandle;
use crate::per_queue_thread_handle_internal::PerQueueThreadHandleInternal;
use crate::queue_internal::QueueInternal;
use crate::queue_view::serial_dequeue;
use crate::queue_view::combining_blocks_renewed;
use crate::queue_view::dequeue_blocks;
use crate::queue_view::handle_blocks;
use crate::queue_view::handle_blocks_back;
use crate::queue_view::list_blocks_renewed;
use crate::queue_view::queue_blocks;
use crate::queue_view::enqueue_blocks;
use crate::queue_view::Progress;
use crate::queue_view::QueueView;
use vstd::prelude::*;

verus! {

/// This is the cc queue object.
///
/// Each thread accessing the queue makes a handle with
/// `new_per_thread_handle` and gives it back with `drop_per_thread_handle`.
/// The queue can be torn down with `destroy`, which drops the items that
/// are still in it; to do something else with them, call `clear` with a
/// callback first. Both work only on a queue without handles.
pub struct CcQueue<T, A: Allocator>(QueueInternal<T, A>);

impl<T, A: Allocator> View for CcQueue<T, A> {
    type V = QueueView<T>;

    closed spec fn view(&self) -> QueueView<T> {
        self.0@
    }
}

impl<T, A: Allocator> CcQueue<T, A> {
    /// The consistency of the queue.
    pub closed spec fn wf(&self) -> bool {
        self.0.wf()
    }

    /// The allocator of the queue, as it is.
    pub closed spec fn allocator(&self) -> A {
        self.0.allocator()
    }

    /// The blocks that were live in the allocator before the queue was made.
    pub closed spec fn base(&self) -> Map<usize, usize> {
        self.0.base()
    }

    /// Whether `handle` is a handle of this queue.
    pub open spec fn has_handle(&self, handle: &PerQueueThreadHandle) -> bool {
        self@.pooled.contains_key(handle.id())
    }

    /// Whether the queue has no handle. No operation is in flight then.
    pub open spec fn no_handles(&self) -> bool {
        self@.pooled.dom().is_empty()
    }

    /// The state machine's invariant holds of every consistent queue. In
    /// particular there is at most one combiner on each side.
    pub proof fn lemma_view_wf(&self)
        requires
            self.wf(),
        ensures
            self@.wf(),
    {
        self.0.lemma_view_wf();
    }

    /// The blocks that were live before the queue was made are live, with
    /// the class that they had: the queue frees its own blocks only.
    pub proof fn lemma_base_live(&self)
        requires
            self.wf(),
        ensures
            self.base().submap_of(self.allocator().blocks()),
    {
        self.0.lemma_base_live();
    }

    /// A queue without handles can be reopened with an allocator that knows
    /// the live blocks that the queue's allocator knows.
    pub proof fn lemma_reopens_with(&self, allocator: &A)
        requires
            self.wf(),
            self.no_handles(),
            allocator.wf(),
            allocator.blocks() == self.allocator().blocks(),
        ensures
            self.reopens_with(allocator),
    {
        self.0.lemma_reopens_with(allocator);
    }

    /// Create a new queue.
    /// Specify an allocator which provides the blocks for the queue and its
    /// nodes.
    pub fn new(allocator: A) -> (queue: Self)
        requires
            allocator.wf(),
        ensures
            queue.wf(),
            queue@ == QueueView::<T>::empty(),
            queue.base() == allocator.blocks(),
            queue_blocks(allocator.blocks(), queue.allocator().blocks()),
    {
        CcQueue(QueueInternal::new(allocator))
    }

    /// Create a new per-thread handle.
    pub fn new_per_thread_handle(&mut self) -> (handle: PerQueueThreadHandle)
        requires
            old(self).wf(),
        ensures
            final(self).wf(),
            !old(self).has_handle(&handle),
            final(self)@ == old(self)@.add_handle(handle.id()),
            final(self).base() == old(self).base(),
            handle_blocks(
                old(self).allocator().blocks(),
                final(self).allocator().blocks(),
                handle.id(),
            ),
    {
        let this = PerQueueThreadHandleInternal::new(&mut self.0);
        PerQueueThreadHandle::from_id(this)
    }

    /// Gives a per-thread handle back: frees what the handle holds. The
    /// handle must have no operation in flight.
    pub fn drop_per_thread_handle(&mut self, handle: PerQueueThreadHandle)
        requires
            old(self).wf(),
            old(self).has_handle(&handle),
            old(self)@.idle(handle.id()),
        ensures
            final(self).wf(),
            final(self)@ == old(self)@.remove_handle(handle.id()),
            final(self).base() == old(self).base(),
            handle_blocks_back(
                old(self).allocator().blocks(),
                final(self).allocator().blocks(),
                handle.id(),
                old(self)@.pooled[handle.id()],
            ),
    {
        PerQueueThreadHandleInternal::destroy(handle.this(), &mut self.0)
    }

    /// Clear the queue: every item in it is handed to `free_data`.
    /// Only works on a queue that is acquiescent: one without handles.
    pub fn clear<FreeData: Fn(T)>(&mut self, free_data: FreeData)
        requires
            old(self).wf(),
            old(self).no_handles(),
            forall|item: T| call_requires(free_data, (item,)),
        ensures
            final(self).wf(),
            final(self)@ == (QueueView { items: Seq::<T>::empty(), ..old(self)@ }),
            forall|i: int|
                0 <= i < old(self)@.items.len() ==> call_ensures(
                    free_data,
                    (#[trigger] old(self)@.items[i],),
                    (),
                ),
            final(self).base() == old(self).base(),
            list_blocks_renewed(
                old(self).allocator().blocks(),
                final(self).allocator().blocks(),
                old(self)@.items.len() + 1,
            ),
    {
        self.0.clear(&free_data)
    }

    /// Tears the queue down and hands the allocator back: every block of the
    /// queue is freed. Items that are still in the queue are dropped.
    /// Only works on a queue without handles.
    pub fn destroy(self) -> (allocator: A)
        requires
            self.wf(),
            self.no_handles(),
        ensures
            allocator.wf(),
            allocator.blocks() == self.base(),
    {
        self.0.destroy()
    }

    /// The allocator of the queue.
    pub fn allocator_ref(&self) -> (allocator: &A)
        ensures
            *allocator == self.allocator(),
            self.wf() ==> allocator.wf(),
    {
        self.0.allocator_ref()
    }

    /// Whether `handle` is a handle of this queue.
    pub fn owns(&self, handle: &PerQueueThreadHandle) -> (present: bool)
        ensures
            present == self.has_handle(handle),
    {
        self.0.is_handle(handle.this())
    }

    /// Whether the queue has no handle.
    pub fn is_without_handles(&self) -> (none: bool)
        ensures
            none == self.no_handles(),
    {
        self.0.is_without_handles()
    }

    /// Whether `handle` has no operation in flight.
    pub fn is_idle(&self, handle: &PerQueueThreadHandle) -> (idle: bool)
        requires
            self.wf(),
            self.has_handle(handle),
        ensures
            idle == self@.idle(handle.id()),
    {
        self.0.is_idle(handle.this())
    }

    pub(crate) fn internal_enqueue(&mut self, handle: usize, data: T) -> (progress: Progress<T>)
        requires
            old(self).wf(),
            old(self)@.pooled.contains_key(handle),
            old(self)@.idle(handle),
        ensures
            final(self).wf(),
            (final(self)@, progress) == old(self)@.begin_enqueue(handle, data).run(handle),
            final(self)@.pooled.dom() == old(self)@.pooled.dom(),
            progress is Enqueued || progress is Waiting,
            old(self)@.enq.unlocked() ==> progress is Enqueued && final(self)@ == (QueueView {
                items: old(self)@.items.push(data),
                pooled: old(self)@.pooled.insert(handle, false),
                ..old(self)@
            }),
            final(self).base() == old(self).base(),
            enqueue_blocks(
                old(self).allocator(),
                final(self).allocator(),
                old(self)@.pooled[handle],
            ),
    {
        self.0.enqueue(handle, data)
    }

    pub(crate) fn internal_dequeue(&mut self, handle: usize) -> (progress: Progress<T>)
        requires
            old(self).wf(),
            old(self)@.pooled.contains_key(handle),
            old(self)@.idle(handle),
        ensures
            final(self).wf(),
            (final(self)@, progress) == old(self)@.begin_dequeue(handle).run(handle),
            final(self)@.pooled.dom() == old(self)@.pooled.dom(),
            progress is Dequeued || progress is Waiting,
            old(self)@.deq.unlocked() ==> progress == Progress::Dequeued(
                serial_dequeue(old(self)@.items).1,
            ) && final(self)@ == (QueueView {
                items: serial_dequeue(old(self)@.items).0,
                pooled: old(self)@.pooled.insert(
                    handle,
                    old(self)@.pooled[handle] || old(self)@.items.len() > 0,
                ),
                ..old(self)@
            }),
            final(self).base() == old(self).base(),
            dequeue_blocks(
                old(self).allocator(),
                final(self).allocator(),
                progress,
                old(self)@.pooled[handle],
            ),
    {
        self.0.dequeue(handle)
    }

    pub(crate) fn internal_begin_enqueue(&mut self, handle: usize, data: T)
        requires
            old(self).wf(),
            old(self)@.pooled.contains_key(handle),
            old(self)@.idle(handle),
        ensures
            final(self).wf(),
            final(self)@ == old(self)@.begin_enqueue(handle, data),
            final(self).base() == old(self).base(),
            enqueue_blocks(
                old(self).allocator(),
                final(self).allocator(),
                old(self)@.pooled[handle],
            ),
    {
        self.0.begin_enqueue(handle, data)
    }

    pub(crate) fn internal_begin_dequeue(&mut self, handle: usize)
        requires
            old(self).wf(),
            old(self)@.pooled.contains_key(handle),
            old(self)@.idle(handle),
        ensures
            final(self).wf(),
            final(self)@ == old(self)@.begin_dequeue(handle),
            final(self).base() == old(self).base(),
            final(self).allocator() == old(self).allocator(),
    {
        self.0.begin_dequeue(handle)
    }

    pub(crate) fn internal_advance(&mut self, handle: usize) -> (progress: Progress<T>)
        requires
            old(self).wf(),
            old(self)@.pooled.contains_key(handle),
        ensures
            final(self).wf(),
            (final(self)@, progress) == old(self)@.step(handle),
            final(self)@.pooled.dom() == old(self)@.pooled.dom(),
            final(self).base() == old(self).base(),
            dequeue_blocks(
                old(self).allocator(),
                final(self).allocator(),
                progress,
                old(self)@.pooled[handle],
            ),
    {
        self.0.advance(handle)
    }

    pub(crate) fn internal_resume(&mut self, handle: usize) -> (progress: Progress<T>)
        requires
            old(self).wf(),
            old(self)@.pooled.contains_key(handle),
        ensures
            final(self).wf(),
            (final(self)@, progress) == old(self)@.run(handle),
            final(self)@.pooled.dom() == old(self)@.pooled.dom(),
            !(progress is Advanced),
            final(self).base() == old(self).base(),
            dequeue_blocks(
                old(self).allocator(),
                final(self).allocator(),
                progress,
                old(self)@.pooled[handle],
            ),
    {
        self.0.ccsynch_apply(handle)
    }
}

impl<T, A: Allocator> AllocatorOpened<A> for CcQueue<T, A> {
    closed spec fn reopens_with(&self, allocator: &A) -> bool {
        self.0.reopens_with(allocator)
    }

    fn allocator_opened(&mut self, allocator: A)
        ensures
            final(self).wf(),
            final(self).no_handles(),
            final(self)@ == old(self)@,
            final(self).base() == old(self).base(),
            combining_blocks_renewed(allocator.blocks(), final(self).allocator().blocks()),
    {
        self.0.allocator_opened(allocator)
    }
}

} // verus!
