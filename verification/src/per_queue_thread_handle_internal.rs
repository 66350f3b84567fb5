use crate::allocators::allocator::Allocator;
use crate::allocators::allocator::CACHE_LINE_SIZE;
use crate::allocators::allocator::PAGE_SIZE;
use crate::synch_handle::SynchHandle;
use vstd::prelude::*;

verus! {

/// What a thread keeps for one queue: its handle into the combining object of
/// each side, and at most one recycled queue node.
pub struct PerQueueThreadHandleInternal<T> {
    /// The handle into the combining object of the enqueue side.
    pub enq: SynchHandle<T>,
    /// The handle into the combining object of the dequeue side.
    pub deq: SynchHandle<T>,
    /// Used for object pooling: a node that a dequeue took out of the queue,
    /// for the next enqueue to use. Can be none.
    pub next: Option<usize>,
}

impl<T> Clone for PerQueueThreadHandleInternal<T> {
    fn clone(&self) -> (copy: Self)
        ensures
            copy == *self,
    {
        *self
    }
}

impl<T> Copy for PerQueueThreadHandleInternal<T> {

}

impl<T> PerQueueThreadHandleInternal<T> {
    /// Allocates the block of a queue node for this handle.
    pub fn allocate_next_node<A: Allocator>(&self, allocator: &mut A) -> (node: usize)
        requires
            old(allocator).wf(),
        ensures
            final(allocator).wf(),
            node != 0,
            !old(allocator).blocks().contains_key(node),
            final(allocator).blocks() == old(allocator).blocks().insert(node, CACHE_LINE_SIZE),
    {
        Self::allocate_next_node_(allocator)
    }

    /// Allocates the block of a queue node.
    pub fn allocate_next_node_<A: Allocator>(allocator: &mut A) -> (node: usize)
        requires
            old(allocator).wf(),
        ensures
            final(allocator).wf(),
            node != 0,
            !old(allocator).blocks().contains_key(node),
            final(allocator).blocks() == old(allocator).blocks().insert(node, CACHE_LINE_SIZE),
    {
        allocator.align_malloc_cache_line_size()
    }

    /// Gives the block of a handle that left its queue back to the allocator.
    pub fn free_after_drop<A: Allocator>(this: usize, allocator: &mut A)
        requires
            old(allocator).wf(),
            old(allocator).blocks().contains_pair(this, PAGE_SIZE),
        ensures
            final(allocator).wf(),
            final(allocator).blocks() == old(allocator).blocks().remove(this),
    {
        allocator.free_page_size(this)
    }
}

} // verus!
