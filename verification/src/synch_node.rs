use crate::allocators::allocator::Allocator;
use crate::allocators::allocator::CACHE_LINE_SIZE;
use crate::arena::Arena;
use crate::payload::Payload;
use crate::status::Status;
use vstd::prelude::*;

verus! {

/// A combining node: the record through which one registered operation is
/// handed to the combiner.
///
/// The handle that registers after the node's owner stages its request in
/// `data` and publishes its own node in `next`; the combiner reads both and
/// answers through `data` and `status`.
pub struct SynchNode<T> {
    /// The node published as this node's successor, if any.
    pub next: Option<usize>,
    /// The payload slot.
    pub data: Payload<T>,
    /// The status of the request staged in this node.
    pub status: Status,
}

impl<T> SynchNode<T> {
    /// Allocates a node that is ready, has no successor and carries nothing,
    /// and stores it in `nodes`. Returns its address.
    pub fn ccsynch_init_node<A: Allocator>(allocator: &mut A, nodes: &mut Arena<Self>) -> (this:
        usize)
        requires
            old(allocator).wf(),
        ensures
            final(allocator).wf(),
            !old(allocator).blocks().contains_key(this),
            final(allocator).blocks() == old(allocator).blocks().insert(this, CACHE_LINE_SIZE),
            final(nodes)@.dom() == old(nodes)@.dom().insert(this),
            final(nodes)@ == old(nodes)@.insert(this, final(nodes)@[this]),
            final(nodes)@[this].next is None,
            final(nodes)@[this].status == Status::Ready,
            final(nodes)@[this].data.node() is None,
            final(nodes)@[this].data@ is None,
    {
        let this = allocator.align_malloc_cache_line_size();
        let node = SynchNode { next: None, data: Payload::null(), status: Status::Ready };
        nodes.put(this, node);
        this
    }

    /// Gives the block of a node that left its arena back to the allocator.
    pub fn free_after_drop<A: Allocator>(this: usize, allocator: &mut A)
        requires
            old(allocator).wf(),
            old(allocator).blocks().contains_pair(this, CACHE_LINE_SIZE),
        ensures
            final(allocator).wf(),
            final(allocator).blocks() == old(allocator).blocks().remove(this),
    {
        allocator.free_cache_line_size(this)
    }

    /// Reads the successor. The result can be none.
    pub fn acquire_next(&self) -> (next: Option<usize>)
        ensures
            next == self.next,
    {
        self.next
    }

    /// Publishes `next` as the successor.
    pub fn release_next(&mut self, next: usize)
        ensures
            final(self).next == Some(next),
            final(self).data == old(self).data,
            final(self).status == old(self).status,
    {
        self.next = Some(next);
    }

    /// Reads the status.
    pub fn acquire_status(&self) -> (status: Status)
        ensures
            status == self.status,
    {
        self.status
    }

    /// Marks the staged request as applied.
    pub fn release_status_done(&mut self)
        ensures
            final(self).status == Status::Done,
            final(self).next == old(self).next,
            final(self).data == old(self).data,
    {
        self.release_status(Status::Done);
    }

    /// Marks the node as the place where a combiner's walk ended.
    pub fn release_status_ready(&mut self)
        ensures
            final(self).status == Status::Ready,
            final(self).next == old(self).next,
            final(self).data == old(self).data,
    {
        self.release_status(Status::Ready);
    }

    /// Writes the status.
    pub fn release_status(&mut self, status: Status)
        ensures
            final(self).status == status,
            final(self).next == old(self).next,
            final(self).data == old(self).data,
    {
        self.status = status;
    }
}

} // verus!
