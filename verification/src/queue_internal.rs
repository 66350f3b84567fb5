use crate::allocators::allocator::Allocator;
use crate::allocators::allocator_opened::AllocatorOpened;
use crate::allocators::allocator::CACHE_LINE_SIZE;
use crate::allocators::allocator::PAGE_SIZE;
use crate::arena::Arena;
use crate::node::Node;
use crate::payload::Payload;
use crate::per_queue_thread_handle_internal::PerQueueThreadHandleInternal;
use crate::queue_view::combining_blocks_renewed;
use crate::queue_view::dequeue_blocks;
use crate::queue_view::handle_blocks;
use crate::queue_view::handle_blocks_back;
use crate::queue_view::list_blocks_renewed;
use crate::queue_view::queue_blocks;
use crate::queue_view::enqueue_blocks;
use crate::queue_view::Progress;
use crate::queue_view::QueueView;
use crate::synch::Synch;
use crate::synch_handle::SynchHandle;
use crate::synch_view::Op;
use crate::synch_view::Turn;
use vstd::prelude::*;

verus! {

/// What a queue node is at the moment. Every node is exactly one of these.
pub enum Role {
    /// The node stands in the list, at this place counted from the node that
    /// the queue was made with.
    Chain(nat),
    /// The node carries the item of an enqueue of this handle that was not
    /// applied yet.
    Request(usize),
    /// The node left the list with the item that a dequeue of this handle
    /// removed, and was not collected yet.
    Result(usize),
    /// The node is the recycled node of this handle.
    Pooled(usize),
}

/// The number of holders of the block at `p`: the blocks that were live
/// before the queue was made, the queue itself, its handles, its queue nodes
/// and the combining nodes of either side.
pub open spec fn holders(
    base: Map<usize, usize>,
    this: usize,
    handles: Set<usize>,
    nodes: Set<usize>,
    enq: Set<usize>,
    deq: Set<usize>,
    p: usize,
) -> int {
    (if base.contains_key(p) {
        1int
    } else {
        0int
    }) + (if p == this {
        1int
    } else {
        0int
    }) + (if handles.contains(p) {
        1int
    } else {
        0int
    }) + (if nodes.contains(p) {
        1int
    } else {
        0int
    }) + (if enq.contains(p) {
        1int
    } else {
        0int
    }) + (if deq.contains(p) {
        1int
    } else {
        0int
    })
}

/// Every live block has exactly one holder, every holder's block is live, and
/// each block has the alignment class of what it holds.
pub open spec fn accounted(
    blocks: Map<usize, usize>,
    base: Map<usize, usize>,
    this: usize,
    handles: Set<usize>,
    nodes: Set<usize>,
    enq: Set<usize>,
    deq: Set<usize>,
) -> bool {
    &&& forall|p: usize|
        #![trigger blocks.contains_key(p)]
        holders(base, this, handles, nodes, enq, deq, p) == if blocks.contains_key(p) {
            1int
        } else {
            0int
        }
    &&& forall|p: usize|
        #![trigger blocks.contains_key(p)]
        blocks.contains_key(p) ==> blocks[p] == if base.contains_key(p) {
            base[p]
        } else if p == this || handles.contains(p) {
            PAGE_SIZE
        } else {
            CACHE_LINE_SIZE
        }
}

/// The serial mutator of the enqueue side: links `node` behind the last node
/// and makes it the last.
pub fn serial_enqueue<T>(tail: &mut usize, nodes: &mut Arena<Node<T>>, node: usize)
    requires
        old(nodes)@.contains_key(*old(tail)),
    ensures
        *final(tail) == node,
        final(nodes)@ == old(nodes)@.insert(
            *old(tail),
            Node { next: Some(node), data: old(nodes)@[*old(tail)].data },
        ),
{
    let last = *tail;
    let mut record = nodes.take(last);
    record.next = Some(node);
    nodes.put(last, record);
    *tail = node;
}

/// The serial mutator of the dequeue side. If the sentinel has a successor,
/// the successor's item moves into the sentinel, the successor becomes the
/// sentinel, and the node that was the sentinel is returned: it has left the
/// list and carries the oldest item. If the sentinel has no successor, the
/// queue is empty and nothing changes.
pub fn serial_dequeue<T>(head: &mut usize, nodes: &mut Arena<Node<T>>) -> (result: Option<usize>)
    requires
        old(nodes)@.contains_key(*old(head)),
        old(nodes)@[*old(head)].next matches Some(next) ==> old(nodes)@.contains_key(next) && next
            != *old(head),
    ensures
        match old(nodes)@[*old(head)].next {
            Some(next) => {
                &&& result == Some(*old(head))
                &&& *final(head) == next
                &&& final(nodes)@ == old(nodes)@.insert(
                    next,
                    Node { next: old(nodes)@[next].next, data: None },
                ).insert(
                    *old(head),
                    Node { next: Some(next), data: old(nodes)@[next].data },
                )
            },
            None => {
                &&& result is None
                &&& *final(head) == *old(head)
                &&& final(nodes)@ == old(nodes)@
            },
        },
{
    let node = *head;
    let next = nodes.get(node).next;
    match next {
        Some(next) => {
            let mut successor = nodes.take(next);
            let data = successor.data.take();
            nodes.put(next, successor);
            let mut departing = nodes.take(node);
            departing.data = data;
            nodes.put(node, departing);
            *head = next;
            Some(node)
        },
        None => None,
    }
}

/// The queue core: the list of queue nodes between `head` and `tail`, and the
/// two combining objects through which the list is changed.
///
/// `head` and `tail` are changed only by the combiner of their side: `tail`
/// by the one of the enqueue side, `head` by the one of the dequeue side.
pub struct QueueInternal<T, A: Allocator> {
    enq: Synch<T>,
    deq: Synch<T>,
    /// Never dangling: the sentinel.
    head: usize,
    /// Never dangling: the last node of the list.
    tail: usize,
    nodes: Arena<Node<T>>,
    handles: Arena<PerQueueThreadHandleInternal<T>>,
    allocator: A,
    /// The block that stands for the queue itself.
    this: usize,
    /// The node at every place of the list from `popped` to `pushed`.
    chain: Ghost<Map<nat, usize>>,
    /// The number of nodes that left the list so far: the place of `head`.
    popped: Ghost<nat>,
    /// The number of nodes that were linked so far: the place of `tail`.
    pushed: Ghost<nat>,
    role: Ghost<Map<usize, Role>>,
    /// The blocks that were live in the allocator before the queue was made.
    base: Ghost<Map<usize, usize>>,
}

impl<T, A: Allocator> View for QueueInternal<T, A> {
    type V = QueueView<T>;

    closed spec fn view(&self) -> QueueView<T> {
        QueueView {
            items: Seq::new(
                (self.pushed@ - self.popped@) as nat,
                |i: int| self.nodes@[self.chain@[(self.popped@ + 1 + i) as nat]].data->0,
            ),
            enq: self.enq@.map(|p: Payload<T>| p@),
            deq: self.deq@.map(|p: Payload<T>| p@),
            pooled: Map::new(
                |h: usize| self.handles@.contains_key(h),
                |h: usize| self.handles@[h].next is Some,
            ),
        }
    }
}

impl<T, A: Allocator> QueueInternal<T, A> {
    /// The allocator of the queue, as it is.
    pub closed spec fn allocator(&self) -> A {
        self.allocator
    }

    /// The blocks that were live in the allocator before the queue was made.
    pub closed spec fn base(&self) -> Map<usize, usize> {
        self.base@
    }

    spec fn wf_mirrors(&self) -> bool {
        &&& forall|h: usize|
            #![trigger self.enq.mirror().contains_key(h)]
            self.handles@.contains_key(h) <==> self.enq.mirror().contains_key(h)
        &&& forall|h: usize|
            #![trigger self.deq.mirror().contains_key(h)]
            self.handles@.contains_key(h) <==> self.deq.mirror().contains_key(h)
        &&& forall|h: usize| #[trigger]
            self.handles@.contains_key(h) ==> {
                &&& self.enq.mirror()[h] == self.handles@[h].enq
                &&& self.deq.mirror()[h] == self.handles@[h].deq
                &&& self.handles@[h].enq.id == h
                &&& self.handles@[h].deq.id == h
                &&& self.handles@[h].enq.phase is Idle || self.handles@[h].deq.phase is Idle
            }
    }

    /// The node at place `i` of the list is linked to the node at the next
    /// place, and carries an item unless it is the sentinel.
    spec fn link_ok(&self, i: nat) -> bool {
        let a = self.chain@[i];
        &&& self.nodes@.contains_key(a)
        &&& self.role@[a] == Role::Chain(i)
        &&& self.nodes@[a].next == if i < self.pushed@ {
            Some(self.chain@[i + 1])
        } else {
            None
        }
        &&& self.nodes@[a].data is Some <==> i > self.popped@
    }

    spec fn wf_fifo(&self) -> bool {
        &&& self.popped@ <= self.pushed@
        &&& self.head == self.chain@[self.popped@]
        &&& self.tail == self.chain@[self.pushed@]
        &&& forall|i: nat| self.popped@ <= i <= self.pushed@ ==> #[trigger] self.link_ok(i)
    }

    spec fn role_ok(&self, a: usize) -> bool {
        match self.role@[a] {
            Role::Chain(i) => self.popped@ <= i <= self.pushed@ && self.chain@[i] == a,
            Role::Request(h) => {
                &&& self.enq@.ops.contains_key(h)
                &&& !self.enq@.ops[h].applied()
                &&& self.enq@.ops[h].payload().node() == Some(a)
                &&& self.nodes@[a].next is None
                &&& self.nodes@[a].data is Some
                &&& self.nodes@[a].data == self.enq@.ops[h].payload()@
            },
            Role::Result(h) => {
                &&& self.deq@.ops.contains_key(h)
                &&& self.deq@.ops[h].applied()
                &&& self.deq@.ops[h].payload().node() == Some(a)
                &&& self.nodes@[a].data is Some
                &&& self.nodes@[a].data == self.deq@.ops[h].payload()@
            },
            Role::Pooled(h) => self.handles@.contains_key(h) && self.handles@[h].next == Some(a),
        }
    }

    spec fn pool_ok(&self, h: usize) -> bool {
        self.handles@[h].next matches Some(a) ==> self.nodes@.contains_key(a) && self.role@[a]
            == Role::Pooled(h)
    }

    spec fn enq_op_ok(&self, h: usize) -> bool {
        let p = self.enq@.ops[h].payload();
        if self.enq@.ops[h].applied() {
            p.node() is None && p@ is None
        } else {
            p.node() matches Some(a) && self.nodes@.contains_key(a) && self.role@[a]
                == Role::Request(h)
        }
    }

    spec fn deq_op_ok(&self, h: usize) -> bool {
        let p = self.deq@.ops[h].payload();
        if self.deq@.ops[h].applied() {
            match p.node() {
                Some(a) => self.nodes@.contains_key(a) && self.role@[a] == Role::Result(h),
                None => p@ is None,
            }
        } else {
            p.node() is None && p@ is None
        }
    }

    spec fn wf_roles(&self) -> bool {
        &&& forall|a: usize| #[trigger] self.nodes@.contains_key(a) ==> self.role_ok(a)
        &&& forall|h: usize| #[trigger] self.handles@.contains_key(h) ==> self.pool_ok(h)
        &&& forall|h: usize| #[trigger] self.enq@.ops.contains_key(h) ==> self.enq_op_ok(h)
        &&& forall|h: usize| #[trigger] self.deq@.ops.contains_key(h) ==> self.deq_op_ok(h)
    }

    spec fn wf_blocks(&self) -> bool {
        accounted(
            self.allocator.blocks(),
            self.base@,
            self.this,
            self.handles@.dom(),
            self.nodes@.dom(),
            self.enq.addresses(),
            self.deq.addresses(),
        )
    }

    /// The consistency of the queue core: of its list, of its two combining
    /// objects, of what its nodes are held for, and of its blocks in the
    /// allocator.
    pub closed spec fn wf(&self) -> bool {
        &&& self.allocator.wf()
        &&& self.enq.inv()
        &&& self.deq.inv()
        &&& self.wf_mirrors()
        &&& self.wf_fifo()
        &&& self.wf_roles()
        &&& self.wf_blocks()
    }

    /// What the accounting of the blocks says of the address `p`.
    proof fn lemma_block(&self, p: usize)
        requires
            self.wf_blocks(),
        ensures
            holders(
                self.base@,
                self.this,
                self.handles@.dom(),
                self.nodes@.dom(),
                self.enq.addresses(),
                self.deq.addresses(),
                p,
            ) == if self.allocator.blocks().contains_key(p) {
                1int
            } else {
                0int
            },
            self.allocator.blocks().contains_key(p) ==> self.allocator.blocks()[p]
                == if self.base@.contains_key(p) {
                self.base@[p]
            } else if p == self.this || self.handles@.contains_key(p) {
                PAGE_SIZE
            } else {
                CACHE_LINE_SIZE
            },
    {
    }

    /// The blocks that were live before the queue was made are live, with
    /// the class that they had: the queue frees its own blocks only.
    pub proof fn lemma_base_live(&self)
        requires
            self.wf(),
        ensures
            self.base().submap_of(self.allocator().blocks()),
    {
        assert forall|p: usize| #[trigger] self.base@.contains_key(p) implies
            self.allocator.blocks().contains_pair(p, self.base@[p]) by {
            self.lemma_block(p);
        }
    }

    /// The state machine's invariant holds of the view.
    pub proof fn lemma_view_wf(&self)
        requires
            self.wf(),
        ensures
            self@.wf(),
    {
        self.enq.lemma_view_wf();
        self.deq.lemma_view_wf();
        self.enq@.lemma_map_wf(|p: Payload<T>| p@);
        self.deq@.lemma_map_wf(|p: Payload<T>| p@);
        self.handles.lemma_finite();
        assert(self@.pooled.dom() =~= self.handles@.dom());
        assert forall|h: usize| #[trigger] self@.enq.ops.contains_key(h) implies
            self@.pooled.contains_key(h) by {
            self.enq.lemma_view_ops(h);
            assert(self.enq.mirror().contains_key(h));
        }
        assert forall|h: usize| #[trigger] self@.deq.ops.contains_key(h) implies
            self@.pooled.contains_key(h) by {
            self.deq.lemma_view_ops(h);
            assert(self.deq.mirror().contains_key(h));
        }
        assert forall|h: usize| #[trigger] self@.enq.ops.contains_key(h) implies
            (self@.enq.ops[h].applied() <==> self@.enq.ops[h].payload() is None) by {
            assert(self.enq@.ops.contains_key(h));
            assert(self.enq_op_ok(h));
            if let Some(a) = self.enq@.ops[h].payload().node() {
                if self.nodes@.contains_key(a) {
                    assert(self.role_ok(a));
                }
            }
        }
        assert forall|h: usize|
            #[trigger] self@.deq.ops.contains_key(h) && !self@.deq.ops[h].applied() implies
            self@.deq.ops[h].payload() is None by {
            assert(self.deq@.ops.contains_key(h));
            assert(self.deq_op_ok(h));
        }
        assert forall|h: usize|
            !(self@.enq.ops.contains_key(h) && self@.deq.ops.contains_key(h)) by {
            self.enq.lemma_view_ops(h);
            self.deq.lemma_view_ops(h);
            if self@.enq.ops.contains_key(h) {
                assert(self.enq.mirror().contains_key(h));
                assert(self.handles@.contains_key(h));
            }
        }
    }

    /// An empty queue without handles, with its blocks in `allocator`.
    pub fn new(allocator: A) -> (queue: Self)
        requires
            allocator.wf(),
        ensures
            queue.wf(),
            queue@ == QueueView::<T>::empty(),
            queue.base() == allocator.blocks(),
            queue_blocks(allocator.blocks(), queue.allocator().blocks()),
    {
        let ghost base = allocator.blocks();
        let mut allocator = allocator;
        let this = allocator.align_malloc_page_size();
        let enq = Synch::ccsynch_init(&mut allocator);
        let deq = Synch::ccsynch_init(&mut allocator);
        let mut nodes = Arena::new();
        let dummy = Node::dummy_node(&mut allocator, &mut nodes);
        let queue = QueueInternal {
            enq,
            deq,
            head: dummy,
            tail: dummy,
            nodes,
            handles: Arena::new(),
            allocator,
            this,
            chain: Ghost(Map::empty().insert(0nat, dummy)),
            popped: Ghost(0),
            pushed: Ghost(0),
            role: Ghost(Map::empty().insert(dummy, Role::Chain(0))),
            base: Ghost(base),
        };
        proof {
            assert(queue.nodes@.dom() =~= set![dummy]);
            assert(queue.link_ok(0));
            assert(queue@.items =~= Seq::<T>::empty());
            assert(queue@.pooled =~= Map::<usize, bool>::empty());
            assert(queue@.enq.ops =~= Map::<usize, Op<Option<T>>>::empty());
            assert(queue@.deq.ops =~= Map::<usize, Op<Option<T>>>::empty());
            assert(queue.allocator.blocks() == base.insert(this, PAGE_SIZE).insert(
                queue.enq.tail_address(),
                CACHE_LINE_SIZE,
            ).insert(queue.deq.tail_address(), CACHE_LINE_SIZE).insert(dummy, CACHE_LINE_SIZE));
        }
        queue
    }

    /// Whether `handle` is a handle of this queue.
    pub open spec fn has_handle(&self, handle: usize) -> bool {
        self@.pooled.contains_key(handle)
    }

    /// What the consistency of the queue says of one of its handles.
    proof fn lemma_handle(&self, h: usize)
        requires
            self.wf(),
            self.has_handle(h),
        ensures
            self.handles@.contains_key(h),
            self.enq.knows(self.handles@[h].enq),
            self.deq.knows(self.handles@[h].deq),
            self.handles@[h].enq.id == h,
            self.handles@[h].deq.id == h,
            self.handles@[h].enq.phase is Idle <==> self@.enq.idle(h),
            self.handles@[h].deq.phase is Idle <==> self@.deq.idle(h),
            self@.enq.idle(h) <==> self.enq@.idle(h),
            self@.deq.idle(h) <==> self.deq@.idle(h),
            self@.enq.idle(h) || self@.deq.idle(h),
            self.pool_ok(h),
            self.allocator.blocks().contains_pair(h, PAGE_SIZE),
            self.allocator.blocks().contains_pair(self.handles@[h].enq.next, CACHE_LINE_SIZE),
            self.allocator.blocks().contains_pair(self.handles@[h].deq.next, CACHE_LINE_SIZE),
            self.enq.addresses().contains(self.handles@[h].enq.next),
            self.deq.addresses().contains(self.handles@[h].deq.next),
    {
        assert(self.handles@.contains_key(h));
        assert(self.enq.mirror().contains_key(h));
        assert(self.deq.mirror().contains_key(h));
        self.enq.lemma_view_ops(h);
        self.deq.lemma_view_ops(h);
        self.enq.lemma_handle_node(self.handles@[h].enq);
        self.deq.lemma_handle_node(self.handles@[h].deq);
        assert(self.allocator.blocks().contains_key(h));
        assert(self.allocator.blocks().contains_key(self.handles@[h].enq.next));
        assert(self.allocator.blocks().contains_key(self.handles@[h].deq.next));
    }

    /// The items are the items of the nodes behind the sentinel, in the order
    /// of the list.
    proof fn lemma_items(&self)
        requires
            self.wf_fifo(),
        ensures
            self@.items.len() == self.pushed@ - self.popped@,
            forall|i: int|
                0 <= i < self@.items.len() ==> Some(#[trigger] self@.items[i])
                    == self.nodes@[self.chain@[(self.popped@ + 1 + i) as nat]].data,
    {
        assert forall|i: int|
            0 <= i < self@.items.len() implies
            Some(#[trigger] self@.items[i])
                == self.nodes@[self.chain@[(self.popped@ + 1 + i) as nat]].data by {
            assert(self.link_ok((self.popped@ + 1 + i) as nat));
        }
    }

    /// Registers an enqueue of `data` for `handle`. The node that carries the
    /// item is the handle's recycled node, or a new one if it holds none.
    pub fn begin_enqueue(&mut self, handle: usize, data: T)
        requires
            old(self).wf(),
            old(self).has_handle(handle),
            old(self)@.idle(handle),
        ensures
            final(self).wf(),
            final(self)@ == old(self)@.begin_enqueue(handle, data),
            final(self).base() == old(self).base(),
            enqueue_blocks(
                old(self).allocator(),
                final(self).allocator(),
                old(self)@.pooled[handle],
            ),
    {
        let ghost pre = *self;
        proof {
            pre.lemma_handle(handle);
        }
        let mut record = *self.handles.get(handle);
        let node = match record.next {
            Some(node) => {
                record.next = None;
                node
            },
            None => record.allocate_next_node(&mut self.allocator),
        };
        let ghost item = data;
        self.nodes.put(node, Node { next: None, data: Some(data) });
        let payload = Payload::naming(node, Ghost(item));
        self.enq.register(&mut record.enq, payload);
        self.handles.put(handle, record);
        self.role = Ghost(pre.role@.insert(node, Role::Request(handle)));
        proof {
            let f = |p: Payload<T>| p@;
            pre.enq@.lemma_map_register(f, handle, payload);
            assert(self.handles@.dom() =~= pre.handles@.dom());
            if pre.handles@[handle].next is Some {
                assert(pre.nodes@.contains_key(node));
                assert(self.nodes@.dom() =~= pre.nodes@.dom());
            } else {
                assert(!pre.nodes@.contains_key(node));
                assert(self.allocator.blocks() == pre.allocator.blocks().insert(
                    node,
                    CACHE_LINE_SIZE,
                ));
            }
            assert forall|i: nat| self.popped@ <= i <= self.pushed@ implies
                #[trigger] self.link_ok(i) by {
                assert(pre.link_ok(i));
            }
            assert forall|a: usize| #[trigger] self.nodes@.contains_key(a) implies
                self.role_ok(a) by {
                if a != node {
                    assert(pre.nodes@.contains_key(a));
                    assert(pre.role_ok(a));
                }
            }
            assert forall|h: usize| #[trigger] self.handles@.contains_key(h) implies
                self.pool_ok(h) by {
                assert(pre.handles@.contains_key(h));
                assert(pre.pool_ok(h));
            }
            assert forall|h: usize| #[trigger] self.enq@.ops.contains_key(h) implies
                self.enq_op_ok(h) by {
                if h != handle {
                    assert(pre.enq@.ops.contains_key(h));
                    assert(pre.enq_op_ok(h));
                }
            }
            assert forall|h: usize| #[trigger] self.deq@.ops.contains_key(h) implies
                self.deq_op_ok(h) by {
                assert(pre.deq_op_ok(h));
            }
            assert(self@.items =~= pre@.items) by {
                pre.lemma_items();
                assert forall|i: int| 0 <= i < self@.items.len() implies
                    self@.items[i] == pre@.items[i] by {
                    assert(pre.link_ok((self.popped@ + 1 + i) as nat));
                }
            }
            assert(self@.pooled =~= pre@.pooled.insert(handle, false));
            if !pre@.pooled[handle] {
                assert(!pre.allocator().blocks().contains_key(node));
                assert(self.allocator().blocks() == pre.allocator().blocks().insert(
                    node,
                    CACHE_LINE_SIZE,
                ));
            }
        }
    }

    /// Registers a dequeue for `handle`.
    pub fn begin_dequeue(&mut self, handle: usize)
        requires
            old(self).wf(),
            old(self).has_handle(handle),
            old(self)@.idle(handle),
        ensures
            final(self).wf(),
            final(self)@ == old(self)@.begin_dequeue(handle),
            final(self).base() == old(self).base(),
            final(self).allocator() == old(self).allocator(),
    {
        let ghost pre = *self;
        proof {
            pre.lemma_handle(handle);
        }
        let mut record = *self.handles.get(handle);
        let payload = Payload::null();
        self.deq.register(&mut record.deq, payload);
        self.handles.put(handle, record);
        proof {
            let f = |p: Payload<T>| p@;
            pre.deq@.lemma_map_register(f, handle, payload);
            assert(self.handles@.dom() =~= pre.handles@.dom());
            assert forall|i: nat| self.popped@ <= i <= self.pushed@ implies
                #[trigger] self.link_ok(i) by {
                assert(pre.link_ok(i));
            }
            assert forall|a: usize| #[trigger] self.nodes@.contains_key(a) implies
                self.role_ok(a) by {
                assert(pre.role_ok(a));
            }
            assert forall|h: usize| #[trigger] self.handles@.contains_key(h) implies
                self.pool_ok(h) by {
                assert(pre.handles@.contains_key(h));
                assert(pre.pool_ok(h));
            }
            assert forall|h: usize| #[trigger] self.enq@.ops.contains_key(h) implies
                self.enq_op_ok(h) by {
                assert(pre.enq_op_ok(h));
            }
            assert forall|h: usize| #[trigger] self.deq@.ops.contains_key(h) implies
                self.deq_op_ok(h) by {
                if h != handle {
                    assert(pre.deq@.ops.contains_key(h));
                    assert(pre.deq_op_ok(h));
                }
            }
            assert(self@.pooled =~= pre@.pooled);
        }
    }

    /// Whether everything but the enqueue side and the handles is the same
    /// in `pre` and `post`.
    spec fn same_but_enq(pre: Self, post: Self) -> bool {
        &&& post.deq == pre.deq
        &&& post.head == pre.head
        &&& post.tail == pre.tail
        &&& post.nodes == pre.nodes
        &&& post.allocator == pre.allocator
        &&& post.this == pre.this
        &&& post.chain == pre.chain
        &&& post.popped == pre.popped
        &&& post.pushed == pre.pushed
        &&& post.role == pre.role
        &&& post.base == pre.base
    }

    /// Whether everything but the dequeue side and the handles is the same
    /// in `pre` and `post`.
    spec fn same_but_deq(pre: Self, post: Self) -> bool {
        &&& post.enq == pre.enq
        &&& post.head == pre.head
        &&& post.tail == pre.tail
        &&& post.nodes == pre.nodes
        &&& post.allocator == pre.allocator
        &&& post.this == pre.this
        &&& post.chain == pre.chain
        &&& post.popped == pre.popped
        &&& post.pushed == pre.pushed
        &&& post.role == pre.role
        &&& post.base == pre.base
    }

    /// A turn on the enqueue side that applies nothing keeps the queue
    /// consistent and is a step of the state machine.
    proof fn lemma_enq_turn(pre: Self, post: Self, h: usize)
        requires
            pre.wf(),
            pre.has_handle(h),
            !pre@.enq.idle(h),
            Self::same_but_enq(pre, post),
            post.enq.inv(),
            post.enq.addresses() == pre.enq.addresses(),
            post.handles@.contains_key(h),
            post.handles@ == pre.handles@.insert(h, post.handles@[h]),
            post.enq.mirror() == pre.enq.mirror().insert(h, post.handles@[h].enq),
            post.handles@[h].enq.id == h,
            post.handles@[h].deq == pre.handles@[h].deq,
            post.handles@[h].next == pre.handles@[h].next,
            post.enq@ == pre.enq@.turn(h).0,
            !(pre.enq@.turn(h).1 is ApplyOwn),
            !(pre.enq@.turn(h).1 is Serve),
        ensures
            post.wf(),
            (post@, pre@.step_enqueue(h).1) == pre@.step_enqueue(h),
            pre@.enq.turn(h).1 == pre.enq@.turn(h).1.map(|p: Payload<T>| p@),
    {
        let f = |p: Payload<T>| p@;
        pre.lemma_handle(h);
        pre.enq.lemma_view_wf();
        pre.enq@.lemma_map_turn(f, h);
        if pre.enq@.line.len() > 0 {
            assert(pre.enq@.ops.contains_key(pre.enq@.line[0]));
        }
        assert(post.handles@.dom() =~= pre.handles@.dom());
        assert forall|i: nat| post.popped@ <= i <= post.pushed@ implies
            #[trigger] post.link_ok(i) by {
            assert(pre.link_ok(i));
        }
        assert forall|a: usize| #[trigger] post.nodes@.contains_key(a) implies post.role_ok(a) by {
            assert(pre.role_ok(a));
        }
        assert forall|k: usize| #[trigger] post.handles@.contains_key(k) implies
            post.pool_ok(k) by {
            assert(pre.handles@.contains_key(k));
            assert(pre.pool_ok(k));
        }
        assert forall|k: usize| #[trigger] post.enq@.ops.contains_key(k) implies
            post.enq_op_ok(k) by {
            assert(pre.enq@.ops.contains_key(k));
            assert(pre.enq_op_ok(k));
        }
        assert forall|k: usize| #[trigger] post.deq@.ops.contains_key(k) implies
            post.deq_op_ok(k) by {
            assert(pre.deq_op_ok(k));
        }
        assert(post@.pooled =~= pre@.pooled);
        assert(post@.items =~= pre@.items);
    }

    /// The same on the dequeue side, for a turn that does not complete the
    /// dequeue either.
    proof fn lemma_deq_turn(pre: Self, post: Self, h: usize)
        requires
            pre.wf(),
            pre.has_handle(h),
            !pre@.deq.idle(h),
            Self::same_but_deq(pre, post),
            post.deq.inv(),
            post.deq.addresses() == pre.deq.addresses(),
            post.handles@.contains_key(h),
            post.handles@ == pre.handles@.insert(h, post.handles@[h]),
            post.deq.mirror() == pre.deq.mirror().insert(h, post.handles@[h].deq),
            post.handles@[h].deq.id == h,
            post.handles@[h].enq == pre.handles@[h].enq,
            post.handles@[h].next == pre.handles@[h].next,
            post.deq@ == pre.deq@.turn(h).0,
            pre.deq@.turn(h).1 is Moved || pre.deq@.turn(h).1 is Blocked,
        ensures
            post.wf(),
            (post@, pre@.step_dequeue(h).1) == pre@.step_dequeue(h),
            pre@.deq.turn(h).1 == pre.deq@.turn(h).1.map(|p: Payload<T>| p@),
    {
        let f = |p: Payload<T>| p@;
        pre.lemma_handle(h);
        pre.deq.lemma_view_wf();
        pre.deq@.lemma_map_turn(f, h);
        if pre.deq@.line.len() > 0 {
            assert(pre.deq@.ops.contains_key(pre.deq@.line[0]));
        }
        assert(post.handles@.dom() =~= pre.handles@.dom());
        assert forall|i: nat| post.popped@ <= i <= post.pushed@ implies
            #[trigger] post.link_ok(i) by {
            assert(pre.link_ok(i));
        }
        assert forall|a: usize| #[trigger] post.nodes@.contains_key(a) implies post.role_ok(a) by {
            assert(pre.role_ok(a));
        }
        assert forall|k: usize| #[trigger] post.handles@.contains_key(k) implies
            post.pool_ok(k) by {
            assert(pre.handles@.contains_key(k));
            assert(pre.pool_ok(k));
        }
        assert forall|k: usize| #[trigger] post.enq@.ops.contains_key(k) implies
            post.enq_op_ok(k) by {
            assert(pre.enq_op_ok(k));
        }
        assert forall|k: usize| #[trigger] post.deq@.ops.contains_key(k) implies
            post.deq_op_ok(k) by {
            assert(pre.deq@.ops.contains_key(k));
            assert(pre.deq_op_ok(k));
        }
        assert(post@.pooled =~= pre@.pooled);
        assert(post@.items =~= pre@.items);
    }

    /// Whether everything that an enqueue does not touch when it is applied
    /// is the same in `pre` and `post`, and the list has grown by `node`.
    spec fn enqueue_applied(pre: Self, post: Self, node: usize) -> bool {
        &&& post.deq == pre.deq
        &&& post.head == pre.head
        &&& post.allocator == pre.allocator
        &&& post.this == pre.this
        &&& post.popped == pre.popped
        &&& post.base == pre.base
        &&& post.tail == node
        &&& post.nodes@ == pre.nodes@.insert(
            pre.tail,
            Node { next: Some(node), data: pre.nodes@[pre.tail].data },
        )
        &&& post.pushed@ == pre.pushed@ + 1
        &&& post.chain@ == pre.chain@.insert(pre.pushed@ + 1, node)
        &&& post.role@ == pre.role@.insert(node, Role::Chain(pre.pushed@ + 1))
    }

    /// The combiner of the enqueue side applies a request, its own or that
    /// of the handle `r` at the front of the line: the queue stays consistent
    /// and the step is one of the state machine.
    proof fn lemma_enq_apply(
        pre: Self,
        post: Self,
        h: usize,
        r: usize,
        request: Payload<T>,
        node: usize,
        null: Payload<T>,
    )
        requires
            pre.wf(),
            pre.has_handle(h),
            pre.enq@.ops.contains_key(h),
            null.node() is None,
            null@ is None,
            request.node() == Some(node),
            pre.enq@.turn(h).1 == Turn::ApplyOwn(request) && r == h && post.enq@
                == pre.enq@.apply_own(h, null) || pre.enq@.turn(h).1 == Turn::Serve(request) && r
                == pre.enq@.line[0] && post.enq@ == pre.enq@.help(null),
            Self::enqueue_applied(pre, post, node),
            post.enq.inv(),
            post.enq.addresses() == pre.enq.addresses(),
            post.handles@.contains_key(h),
            post.handles@ == pre.handles@.insert(h, post.handles@[h]),
            post.enq.mirror() == pre.enq.mirror().insert(h, post.handles@[h].enq),
            post.handles@[h].enq.id == h,
            !(post.handles@[h].enq.phase is Idle),
            post.handles@[h].deq == pre.handles@[h].deq,
            post.handles@[h].next == pre.handles@[h].next,
        ensures
            post.wf(),
            (post@, Progress::<T>::Advanced) == pre@.step_enqueue(h),
    {
        let f = |p: Payload<T>| p@;
        pre.lemma_handle(h);
        pre.enq.lemma_view_wf();
        pre.enq@.lemma_map_turn(f, h);
        pre.enq@.lemma_map_apply_own(f, h, null);
        pre.enq@.lemma_map_help(f, null);
        if pre.enq@.line.len() > 0 {
            assert(pre.enq@.ops.contains_key(pre.enq@.line[0]));
        }
        assert(pre.enq@.ops.contains_key(r));
        assert(pre.enq_op_ok(r));
        assert(pre.role_ok(node));
        assert(pre.link_ok(pre.pushed@));
        assert(post.handles@.dom() =~= pre.handles@.dom());
        assert(post.nodes@.dom() =~= pre.nodes@.dom());
        assert forall|i: nat| post.popped@ <= i <= post.pushed@ implies
            #[trigger] post.link_ok(i) by {
            if i <= pre.pushed@ {
                assert(pre.link_ok(i));
            }
        }
        assert forall|a: usize| #[trigger] post.nodes@.contains_key(a) implies post.role_ok(a) by {
            assert(pre.role_ok(a));
        }
        assert forall|k: usize| #[trigger] post.handles@.contains_key(k) implies
            post.pool_ok(k) by {
            assert(pre.handles@.contains_key(k));
            assert(pre.pool_ok(k));
        }
        assert forall|k: usize| #[trigger] post.enq@.ops.contains_key(k) implies
            post.enq_op_ok(k) by {
            assert(pre.enq@.ops.contains_key(k));
            assert(pre.enq_op_ok(k));
        }
        assert forall|k: usize| #[trigger] post.deq@.ops.contains_key(k) implies
            post.deq_op_ok(k) by {
            assert(pre.deq_op_ok(k));
        }
        assert(post@.pooled =~= pre@.pooled);
        pre.lemma_items();
        assert(post@.items =~= pre@.items.push(request@->0)) by {
            assert forall|i: int| 0 <= i < post@.items.len() implies
                post@.items[i] == pre@.items.push(request@->0)[i] by {
                if pre.popped@ + 1 + i <= pre.pushed@ {
                    assert(pre.link_ok((pre.popped@ + 1 + i) as nat));
                }
                assert(post.link_ok((pre.popped@ + 1 + i) as nat));
            }
        }
    }

    /// Whether everything that a dequeue does not touch when it is applied is
    /// the same in `pre` and `post`, and the list has lost its sentinel to
    /// the handle `r`, with `result` naming it, unless the list was empty.
    spec fn dequeue_applied(pre: Self, post: Self, r: usize, result: Payload<T>) -> bool {
        &&& post.enq == pre.enq
        &&& post.tail == pre.tail
        &&& post.allocator == pre.allocator
        &&& post.this == pre.this
        &&& post.chain == pre.chain
        &&& post.pushed == pre.pushed
        &&& post.base == pre.base
        &&& match pre.nodes@[pre.head].next {
            Some(next) => {
                &&& post.head == next
                &&& post.nodes@ == pre.nodes@.insert(
                    next,
                    Node { next: pre.nodes@[next].next, data: None },
                ).insert(pre.head, Node { next: Some(next), data: pre.nodes@[next].data })
                &&& post.popped@ == pre.popped@ + 1
                &&& post.role@ == pre.role@.insert(pre.head, Role::Result(r))
                &&& result.node() == Some(pre.head)
                &&& result@ == pre.nodes@[next].data
            },
            None => {
                &&& post.head == pre.head
                &&& post.nodes@ == pre.nodes@
                &&& post.popped == pre.popped
                &&& post.role == pre.role
                &&& result.node() is None
                &&& result@ is None
            },
        }
    }

    /// The combiner of the dequeue side applies a request, its own or that
    /// of the handle `r` at the front of the line.
    proof fn lemma_deq_apply(pre: Self, post: Self, h: usize, r: usize, result: Payload<T>)
        requires
            pre.wf(),
            pre.has_handle(h),
            pre.deq@.ops.contains_key(h),
            pre.deq@.turn(h).1 is ApplyOwn && r == h && post.deq@ == pre.deq@.apply_own(h, result)
                || pre.deq@.turn(h).1 is Serve && r == pre.deq@.line[0] && post.deq@
                == pre.deq@.help(result),
            Self::dequeue_applied(pre, post, r, result),
            post.deq.inv(),
            post.deq.addresses() == pre.deq.addresses(),
            post.handles@.contains_key(h),
            post.handles@ == pre.handles@.insert(h, post.handles@[h]),
            post.deq.mirror() == pre.deq.mirror().insert(h, post.handles@[h].deq),
            post.handles@[h].deq.id == h,
            !(post.handles@[h].deq.phase is Idle),
            post.handles@[h].enq == pre.handles@[h].enq,
            post.handles@[h].next == pre.handles@[h].next,
        ensures
            post.wf(),
            (post@, Progress::<T>::Advanced) == pre@.step_dequeue(h),
    {
        let f = |p: Payload<T>| p@;
        pre.lemma_handle(h);
        pre.deq.lemma_view_wf();
        pre.deq@.lemma_map_turn(f, h);
        pre.deq@.lemma_map_apply_own(f, h, result);
        pre.deq@.lemma_map_help(f, result);
        if pre.deq@.line.len() > 0 {
            assert(pre.deq@.ops.contains_key(pre.deq@.line[0]));
        }
        assert(pre.deq@.ops.contains_key(r));
        assert(pre.deq_op_ok(r));
        assert(pre.link_ok(pre.popped@));
        assert(post.handles@.dom() =~= pre.handles@.dom());
        assert(post.nodes@.dom() =~= pre.nodes@.dom()) by {
            if pre.popped@ < pre.pushed@ {
                assert(pre.link_ok(pre.popped@ + 1));
            }
        }
        pre.lemma_items();
        if pre.popped@ < pre.pushed@ {
            assert(pre.link_ok(pre.popped@ + 1));
        }
        assert forall|i: nat| post.popped@ <= i <= post.pushed@ implies
            #[trigger] post.link_ok(i) by {
            assert(pre.link_ok(i));
        }
        assert forall|a: usize| #[trigger] post.nodes@.contains_key(a) implies post.role_ok(a) by {
            assert(pre.role_ok(a));
        }
        assert forall|k: usize| #[trigger] post.handles@.contains_key(k) implies
            post.pool_ok(k) by {
            assert(pre.handles@.contains_key(k));
            assert(pre.pool_ok(k));
        }
        assert forall|k: usize| #[trigger] post.enq@.ops.contains_key(k) implies
            post.enq_op_ok(k) by {
            assert(pre.enq_op_ok(k));
        }
        assert forall|k: usize| #[trigger] post.deq@.ops.contains_key(k) implies
            post.deq_op_ok(k) by {
            assert(pre.deq@.ops.contains_key(k));
            assert(pre.deq_op_ok(k));
        }
        assert(post@.pooled =~= pre@.pooled);
        let (rest, first) = crate::queue_view::serial_dequeue(pre@.items);
        assert(first == result@);
        assert(post@.items =~= rest) by {
            assert forall|i: int| 0 <= i < post@.items.len() implies post@.items[i] == rest[i] by {
                assert(pre.link_ok((post.popped@ + 1 + i) as nat));
                assert(post.link_ok((post.popped@ + 1 + i) as nat));
            }
        }
    }

    /// The node that an applied dequeue left for its handle is a node of the
    /// queue that carries the item removed.
    proof fn lemma_result_node(&self, h: usize)
        requires
            self.wf(),
            self.deq@.ops.contains_key(h),
            self.deq@.ops[h].applied(),
        ensures
            match self.deq@.ops[h].payload().node() {
                Some(node) => {
                    &&& self.nodes@.contains_key(node)
                    &&& self.role@[node] == Role::Result(h)
                    &&& self.nodes@[node].data == self.deq@.ops[h].payload()@
                    &&& self.nodes@[node].data is Some
                    &&& self.allocator.blocks().contains_pair(node, CACHE_LINE_SIZE)
                },
                None => self.deq@.ops[h].payload()@ is None,
            },
    {
        assert(self.deq_op_ok(h));
        if let Some(node) = self.deq@.ops[h].payload().node() {
            assert(self.role_ok(node));
            assert(self.allocator.blocks().contains_key(node));
        }
    }

    /// Whether `post` is `pre` after the handle `h` has collected `result`:
    /// the node that it names, if any, has become the handle's recycled node,
    /// or was freed if the handle held one already.
    spec fn dequeue_collected(pre: Self, post: Self, h: usize, result: Payload<T>) -> bool {
        &&& post.enq == pre.enq
        &&& post.head == pre.head
        &&& post.tail == pre.tail
        &&& post.this == pre.this
        &&& post.chain == pre.chain
        &&& post.popped == pre.popped
        &&& post.pushed == pre.pushed
        &&& post.base == pre.base
        &&& post.allocator.wf()
        &&& match result.node() {
            Some(node) => if pre.handles@[h].next is Some {
                &&& post.nodes@ == pre.nodes@.remove(node)
                &&& post.allocator.blocks() == pre.allocator.blocks().remove(node)
                &&& post.role == pre.role
                &&& post.handles@[h].next == pre.handles@[h].next
            } else {
                &&& post.nodes@ == pre.nodes@.insert(node, Node { next: None, data: None })
                &&& post.allocator == pre.allocator
                &&& post.role@ == pre.role@.insert(node, Role::Pooled(h))
                &&& post.handles@[h].next == Some(node)
            },
            None => {
                &&& post.nodes == pre.nodes
                &&& post.allocator == pre.allocator
                &&& post.role == pre.role
                &&& post.handles@[h].next == pre.handles@[h].next
            },
        }
    }

    /// A dequeue completes: its handle becomes idle and collects the result.
    proof fn lemma_deq_finish(pre: Self, post: Self, h: usize, result: Payload<T>)
        requires
            pre.wf(),
            pre.has_handle(h),
            !pre@.deq.idle(h),
            pre.deq@.turn(h).1 == Turn::Finished(result),
            post.deq@ == pre.deq@.turn(h).0,
            Self::dequeue_collected(pre, post, h, result),
            post.deq.inv(),
            post.deq.addresses() == pre.deq.addresses(),
            post.handles@.contains_key(h),
            post.handles@ == pre.handles@.insert(h, post.handles@[h]),
            post.deq.mirror() == pre.deq.mirror().insert(h, post.handles@[h].deq),
            post.handles@[h].deq.id == h,
            post.handles@[h].deq.phase is Idle,
            post.handles@[h].enq == pre.handles@[h].enq,
        ensures
            post.wf(),
            (post@, Progress::Dequeued(result@)) == pre@.step_dequeue(h),
    {
        let f = |p: Payload<T>| p@;
        pre.lemma_handle(h);
        pre.deq.lemma_view_wf();
        pre.deq@.lemma_map_turn(f, h);
        pre.lemma_result_node(h);
        if pre.deq@.line.len() > 0 {
            assert(pre.deq@.ops.contains_key(pre.deq@.line[0]));
        }
        assert(post.handles@.dom() =~= pre.handles@.dom());
        assert forall|i: nat| post.popped@ <= i <= post.pushed@ implies
            #[trigger] post.link_ok(i) by {
            assert(pre.link_ok(i));
        }
        assert forall|a: usize| #[trigger] post.nodes@.contains_key(a) implies post.role_ok(a) by {
            if result.node() != Some(a) {
                assert(pre.nodes@.contains_key(a));
                assert(pre.role_ok(a));
            }
        }
        assert forall|k: usize| #[trigger] post.handles@.contains_key(k) implies
            post.pool_ok(k) by {
            assert(pre.handles@.contains_key(k));
            assert(pre.pool_ok(k));
        }
        assert forall|k: usize| #[trigger] post.enq@.ops.contains_key(k) implies
            post.enq_op_ok(k) by {
            assert(pre.enq_op_ok(k));
        }
        assert forall|k: usize| #[trigger] post.deq@.ops.contains_key(k) implies
            post.deq_op_ok(k) by {
            assert(pre.deq@.ops.contains_key(k));
            assert(pre.deq_op_ok(k));
        }
        assert(post@.pooled =~= pre@.pooled.insert(h, pre@.pooled[h] || result@ is Some));
        pre.lemma_items();
        assert(post@.items =~= pre@.items) by {
            assert forall|i: int| 0 <= i < post@.items.len() implies
                post@.items[i] == pre@.items[i] by {
                assert(pre.link_ok((pre.popped@ + 1 + i) as nat));
            }
        }
    }

    /// One step of the enqueue that `handle` has in flight.
    fn advance_enqueue(&mut self, handle: usize) -> (progress: Progress<T>)
        requires
            old(self).wf(),
            old(self).has_handle(handle),
            !old(self)@.enq.idle(handle),
        ensures
            final(self).wf(),
            (final(self)@, progress) == old(self)@.step_enqueue(handle),
            final(self).allocator() == old(self).allocator(),
            final(self).base() == old(self).base(),
    {
        let ghost pre = *self;
        proof {
            pre.lemma_handle(handle);
            pre.enq.lemma_view_wf();
            assert(pre.link_ok(pre.pushed@));
        }
        let mut record = *self.handles.get(handle);
        let turn = self.enq.turn(&mut record.enq);
        match turn {
            Turn::Moved => {
                self.handles.put(handle, record);
                proof {
                    Self::lemma_enq_turn(pre, *self, handle);
                }
                Progress::Advanced
            },
            Turn::Blocked => {
                self.handles.put(handle, record);
                proof {
                    Self::lemma_enq_turn(pre, *self, handle);
                }
                Progress::Waiting
            },
            Turn::Finished(_) => {
                self.handles.put(handle, record);
                proof {
                    Self::lemma_enq_turn(pre, *self, handle);
                }
                Progress::Enqueued
            },
            Turn::ApplyOwn(request) => {
                proof {
                    assert(pre.enq_op_ok(handle));
                }
                match request.target() {
                    Some(node) => {
                        serial_enqueue(&mut self.tail, &mut self.nodes, node);
                        let null = Payload::null();
                        self.enq.apply_own(&mut record.enq, null);
                        self.handles.put(handle, record);
                        self.pushed = Ghost(pre.pushed@ + 1);
                        self.chain = Ghost(pre.chain@.insert(pre.pushed@ + 1, node));
                        self.role = Ghost(pre.role@.insert(node, Role::Chain(pre.pushed@ + 1)));
                        proof {
                            assert(self.enq.mirror() =~= pre.enq.mirror().insert(
                                handle,
                                record.enq,
                            ));
                            Self::lemma_enq_apply(pre, *self, handle, handle, request, node, null);
                        }
                    },
                    // The request of an enqueue names the node of its item.
                    None => {},
                }
                Progress::Advanced
            },
            Turn::Serve(request) => {
                proof {
                    assert(pre.enq@.ops.contains_key(pre.enq@.line[0]));
                    assert(pre.enq_op_ok(pre.enq@.line[0]));
                }
                match request.target() {
                    Some(node) => {
                        serial_enqueue(&mut self.tail, &mut self.nodes, node);
                        let null = Payload::null();
                        self.enq.help(&mut record.enq, null);
                        self.handles.put(handle, record);
                        self.pushed = Ghost(pre.pushed@ + 1);
                        self.chain = Ghost(pre.chain@.insert(pre.pushed@ + 1, node));
                        self.role = Ghost(pre.role@.insert(node, Role::Chain(pre.pushed@ + 1)));
                        proof {
                            assert(self.enq.mirror() =~= pre.enq.mirror().insert(
                                handle,
                                record.enq,
                            ));
                            Self::lemma_enq_apply(
                                pre,
                                *self,
                                handle,
                                pre.enq@.line[0],
                                request,
                                node,
                                null,
                            );
                        }
                    },
                    // The request of an enqueue names the node of its item.
                    None => {},
                }
                Progress::Advanced
            },
        }
    }

    /// Applies a dequeue for the handle `r`: runs the serial mutator and
    /// names the node that left the list, if one did.
    fn apply_dequeue(&mut self, Ghost(r): Ghost<usize>) -> (result: Payload<T>)
        requires
            old(self).wf_fifo(),
        ensures
            Self::dequeue_applied(*old(self), *final(self), r, result),
            final(self).deq == old(self).deq,
            final(self).handles == old(self).handles,
    {
        let ghost pre = *self;
        proof {
            assert(pre.link_ok(pre.popped@));
            if pre.popped@ < pre.pushed@ {
                assert(pre.link_ok(pre.popped@ + 1));
            }
        }
        let ghost item = pre.nodes@[pre.nodes@[pre.head].next->0].data->0;
        let departed = serial_dequeue(&mut self.head, &mut self.nodes);
        match departed {
            Some(node) => {
                self.popped = Ghost(pre.popped@ + 1);
                self.role = Ghost(pre.role@.insert(node, Role::Result(r)));
                Payload::naming(node, Ghost(item))
            },
            None => Payload::null(),
        }
    }

    /// One step of the dequeue that `handle` has in flight.
    fn advance_dequeue(&mut self, handle: usize) -> (progress: Progress<T>)
        requires
            old(self).wf(),
            old(self).has_handle(handle),
            !old(self)@.deq.idle(handle),
        ensures
            final(self).wf(),
            (final(self)@, progress) == old(self)@.step_dequeue(handle),
            final(self).base() == old(self).base(),
            dequeue_blocks(
                old(self).allocator(),
                final(self).allocator(),
                progress,
                old(self)@.pooled[handle],
            ),
    {
        let ghost pre = *self;
        proof {
            pre.lemma_handle(handle);
            pre.deq.lemma_view_wf();
        }
        let mut record = *self.handles.get(handle);
        let turn = self.deq.turn(&mut record.deq);
        match turn {
            Turn::Moved => {
                self.handles.put(handle, record);
                proof {
                    Self::lemma_deq_turn(pre, *self, handle);
                }
                Progress::Advanced
            },
            Turn::Blocked => {
                self.handles.put(handle, record);
                proof {
                    Self::lemma_deq_turn(pre, *self, handle);
                }
                Progress::Waiting
            },
            Turn::Finished(result) => {
                proof {
                    pre.lemma_result_node(handle);
                }
                let data = match result.target() {
                    Some(node) => {
                        let departed = self.nodes.take(node);
                        if record.next.is_some() {
                            Node::<T>::free_after_drop(node, &mut self.allocator);
                            proof {
                                assert(self.allocator().blocks() == pre.allocator().blocks().remove(
                                    node,
                                ));
                            }
                        } else {
                            self.nodes.put(node, Node { next: None, data: None });
                            record.next = Some(node);
                            self.role = Ghost(pre.role@.insert(node, Role::Pooled(handle)));
                            proof {
                                assert(self.nodes@ =~= pre.nodes@.insert(
                                    node,
                                    Node { next: None, data: None },
                                ));
                            }
                        }
                        departed.data
                    },
                    None => None,
                };
                self.handles.put(handle, record);
                proof {
                    Self::lemma_deq_finish(pre, *self, handle, result);
                }
                Progress::Dequeued(data)
            },
            Turn::ApplyOwn(_) => {
                proof {
                    assert forall|i: nat| self.popped@ <= i <= self.pushed@ implies
                        #[trigger] self.link_ok(i) by {
                        assert(pre.link_ok(i));
                    }
                }
                let result = self.apply_dequeue(Ghost(handle));
                self.deq.apply_own(&mut record.deq, result);
                self.handles.put(handle, record);
                proof {
                    assert(self.deq.mirror() =~= pre.deq.mirror().insert(handle, record.deq));
                    Self::lemma_deq_apply(pre, *self, handle, handle, result);
                }
                Progress::Advanced
            },
            Turn::Serve(_) => {
                proof {
                    assert forall|i: nat| self.popped@ <= i <= self.pushed@ implies
                        #[trigger] self.link_ok(i) by {
                        assert(pre.link_ok(i));
                    }
                }
                let result = self.apply_dequeue(Ghost(pre.deq@.line[0]));
                self.deq.help(&mut record.deq, result);
                self.handles.put(handle, record);
                proof {
                    assert(self.deq.mirror() =~= pre.deq.mirror().insert(handle, record.deq));
                    Self::lemma_deq_apply(pre, *self, handle, pre.deq@.line[0], result);
                }
                Progress::Advanced
            },
        }
    }

    /// One step of `handle`: the next atomic action of its operation in
    /// flight. Without an operation in flight nothing happens.
    pub fn advance(&mut self, handle: usize) -> (progress: Progress<T>)
        requires
            old(self).wf(),
            old(self).has_handle(handle),
        ensures
            final(self).wf(),
            (final(self)@, progress) == old(self)@.step(handle),
            final(self)@.pooled.dom() == old(self)@.pooled.dom(),
            final(self).base() == old(self).base(),
            dequeue_blocks(
                old(self).allocator(),
                final(self).allocator(),
                progress,
                old(self)@.pooled[handle],
            ),
    {
        proof {
            old(self).lemma_handle(handle);
        }
        let record = self.handles.get(handle);
        if !record.enq.is_idle() {
            self.advance_enqueue(handle)
        } else if !record.deq.is_idle() {
            self.advance_dequeue(handle)
        } else {
            Progress::Idle
        }
    }

    /// Drives the operation that `handle` has in flight through the
    /// combining protocol, step by step, until it completes or has to wait
    /// for a combiner. In the latter case the caller pauses and calls again.
    pub fn ccsynch_apply(&mut self, handle: usize) -> (progress: Progress<T>)
        requires
            old(self).wf(),
            old(self).has_handle(handle),
        ensures
            final(self).wf(),
            (final(self)@, progress) == old(self)@.run(handle),
            final(self)@.pooled.dom() == old(self)@.pooled.dom(),
            !(progress is Advanced),
            !old(self)@.enq.idle(handle) ==> progress is Enqueued || progress is Waiting,
            !old(self)@.deq.idle(handle) ==> progress is Dequeued || progress is Waiting,
            final(self).base() == old(self).base(),
            dequeue_blocks(
                old(self).allocator(),
                final(self).allocator(),
                progress,
                old(self)@.pooled[handle],
            ),
    {
        loop
            invariant
                self.wf(),
                self.has_handle(handle),
                self@.run(handle) == old(self)@.run(handle),
                self@.pooled.dom() == old(self)@.pooled.dom(),
                self.base() == old(self).base(),
                self.allocator() == old(self).allocator(),
                self@.pooled[handle] == old(self)@.pooled[handle],
                !old(self)@.enq.idle(handle) ==> !self@.enq.idle(handle),
                !old(self)@.deq.idle(handle) ==> !self@.deq.idle(handle),
            decreases self@.budget(handle),
        {
            proof {
                self.lemma_view_wf();
                self@.lemma_step_handles(handle);
                if self@.step(handle).1 is Advanced {
                    self@.lemma_step_decreases(handle);
                }
            }
            let progress = self.advance(handle);
            match progress {
                Progress::Advanced => {},
                Progress::Idle => {
                    return Progress::Idle;
                },
                Progress::Waiting => {
                    return Progress::Waiting;
                },
                Progress::Enqueued => {
                    return Progress::Enqueued;
                },
                Progress::Dequeued(data) => {
                    return Progress::Dequeued(data);
                },
            }
        }
    }

    /// Enqueues `data` for `handle`: takes the handle's recycled node, or a
    /// new one, for the item, registers the request and drives it. An
    /// enqueue always succeeds; while it has to wait for a combiner it stays
    /// in flight, and [`Self::ccsynch_apply`] drives it on.
    pub fn enqueue(&mut self, handle: usize, data: T) -> (progress: Progress<T>)
        requires
            old(self).wf(),
            old(self).has_handle(handle),
            old(self)@.idle(handle),
        ensures
            final(self).wf(),
            (final(self)@, progress) == old(self)@.begin_enqueue(handle, data).run(handle),
            final(self)@.pooled.dom() == old(self)@.pooled.dom(),
            progress is Enqueued || progress is Waiting,
            old(self)@.enq.unlocked() ==> progress is Enqueued && final(self)@ == (QueueView {
                items: old(self)@.items.push(data),
                pooled: old(self)@.pooled.insert(handle, false),
                ..old(self)@
            }),
            final(self).base() == old(self).base(),
            enqueue_blocks(
                old(self).allocator(),
                final(self).allocator(),
                old(self)@.pooled[handle],
            ),
    {
        proof {
            old(self).lemma_view_wf();
            if old(self)@.enq.unlocked() {
                old(self)@.lemma_enqueue_unlocked(handle, data);
            }
        }
        self.begin_enqueue(handle, data);
        proof {
            assert(self@.pooled.dom() =~= old(self)@.pooled.dom());
        }
        self.ccsynch_apply(handle)
    }

    /// Dequeues for `handle`: registers the request and drives it. A dequeue
    /// that completes returns the oldest item, or none if the queue was
    /// empty. The node that carried the item becomes the handle's recycled
    /// node, or is freed if the handle holds one already.
    pub fn dequeue(&mut self, handle: usize) -> (progress: Progress<T>)
        requires
            old(self).wf(),
            old(self).has_handle(handle),
            old(self)@.idle(handle),
        ensures
            final(self).wf(),
            (final(self)@, progress) == old(self)@.begin_dequeue(handle).run(handle),
            final(self)@.pooled.dom() == old(self)@.pooled.dom(),
            progress is Dequeued || progress is Waiting,
            old(self)@.deq.unlocked() ==> progress == Progress::Dequeued(
                crate::queue_view::serial_dequeue(old(self)@.items).1,
            ) && final(self)@ == (QueueView {
                items: crate::queue_view::serial_dequeue(old(self)@.items).0,
                pooled: old(self)@.pooled.insert(
                    handle,
                    old(self)@.pooled[handle] || old(self)@.items.len() > 0,
                ),
                ..old(self)@
            }),
            final(self).base() == old(self).base(),
            dequeue_blocks(
                old(self).allocator(),
                final(self).allocator(),
                progress,
                old(self)@.pooled[handle],
            ),
    {
        proof {
            old(self).lemma_view_wf();
            if old(self)@.deq.unlocked() {
                old(self)@.lemma_dequeue_unlocked(handle);
            }
        }
        self.begin_dequeue(handle);
        proof {
            assert(self@.pooled.dom() =~= old(self)@.pooled.dom());
        }
        self.ccsynch_apply(handle)
    }

    /// Whether the queue has no handle. No operation is in flight then.
    pub open spec fn no_handles(&self) -> bool {
        self@.pooled.dom().is_empty()
    }

    /// The nodes of the list, from the sentinel to the last.
    spec fn list(&self) -> Seq<usize> {
        Seq::new(
            (self.pushed@ - self.popped@ + 1) as nat,
            |j: int| self.chain@[(self.popped@ + j) as nat],
        )
    }

    /// Without handles both sides are quiescent and every node of the queue
    /// stands in the list.
    proof fn lemma_no_handles(&self)
        requires
            self.wf(),
            self.no_handles(),
        ensures
            self@.quiescent(),
            self.enq.mirror().dom().is_empty(),
            self.deq.mirror().dom().is_empty(),
            self.handles@.dom().is_empty(),
            crate::node::is_chain(self.nodes@, self.list()),
            self.list()[0] == self.head,
            self.nodes@.dom() == self.list().to_set(),
            forall|j: int|
                0 <= j < self.list().len() ==> self.allocator.blocks().contains_pair(
                    #[trigger] self.list()[j],
                    CACHE_LINE_SIZE,
                ),
            forall|i: int|
                0 <= i < self@.items.len() ==> self.nodes@[self.list()[i + 1]].data == Some(
                    #[trigger] self@.items[i],
                ),
            self.nodes@[self.list()[0]].data is None,
            self.list().len() == self@.items.len() + 1,
            self.allocator.blocks().contains_pair(self.this, PAGE_SIZE),
            self.allocator.blocks().contains_pair(self.enq.tail_address(), CACHE_LINE_SIZE),
            self.allocator.blocks().contains_pair(self.deq.tail_address(), CACHE_LINE_SIZE),
            self.enq.addresses() == set![self.enq.tail_address()],
            self.deq.addresses() == set![self.deq.tail_address()],
    {
        let f = |p: Payload<T>| p@;
        assert forall|h: usize| !self.handles@.contains_key(h) by {
            if self.handles@.contains_key(h) {
                assert(self@.pooled.dom().contains(h));
            }
        }
        assert(self.handles@.dom() =~= Set::<usize>::empty());
        assert(self.enq.mirror().dom() =~= Set::<usize>::empty());
        assert(self.deq.mirror().dom() =~= Set::<usize>::empty());
        self.enq.lemma_lone_tail();
        self.deq.lemma_lone_tail();
        assert(self@.enq.ops =~= Map::<usize, Op<Option<T>>>::empty());
        assert(self@.deq.ops =~= Map::<usize, Op<Option<T>>>::empty());
        let list = self.list();
        assert forall|j: int| 0 <= j < list.len() implies
            #[trigger] crate::node::linked(self.nodes@, list, j) by {
            assert(self.link_ok((self.popped@ + j) as nat));
        }
        assert forall|j: int, k: int| 0 <= j < list.len() && 0 <= k < list.len() && j != k implies
            list[j] != list[k] by {
            assert(self.link_ok((self.popped@ + j) as nat));
            assert(self.link_ok((self.popped@ + k) as nat));
        }
        assert forall|a: usize| self.nodes@.contains_key(a) implies list.contains(a) by {
            assert(self.role_ok(a));
            match self.role@[a] {
                Role::Chain(i) => {
                    assert(list[i - self.popped@] == a);
                },
                Role::Request(h) => {
                    self.enq.lemma_view_ops(h);
                },
                Role::Result(h) => {
                    self.deq.lemma_view_ops(h);
                },
                Role::Pooled(h) => {},
            }
        }
        assert forall|a: usize| list.contains(a) implies self.nodes@.contains_key(a) by {
            let j = choose|j: int| 0 <= j < list.len() && list[j] == a;
            assert(self.link_ok((self.popped@ + j) as nat));
        }
        assert(self.nodes@.dom() =~= list.to_set());
        assert forall|j: int| 0 <= j < list.len() implies
            self.allocator.blocks().contains_pair(#[trigger] list[j], CACHE_LINE_SIZE) by {
            assert(self.link_ok((self.popped@ + j) as nat));
            assert(self.allocator.blocks().contains_key(list[j]));
        }
        self.lemma_items();
        assert(self.link_ok(self.popped@));
        assert(self.allocator.blocks().contains_key(self.this));
        assert(self.allocator.blocks().contains_key(self.enq.tail_address()));
        assert(self.allocator.blocks().contains_key(self.deq.tail_address()));
    }

    /// Clears the queue: hands every item in it to `free_data`, frees the
    /// nodes of the list and starts the list anew. Only works on a queue
    /// without handles.
    pub fn clear<FreeData: Fn(T)>(&mut self, free_data: &FreeData)
        requires
            old(self).wf(),
            old(self).no_handles(),
            forall|item: T| call_requires(free_data, (item,)),
        ensures
            final(self).wf(),
            final(self)@ == (QueueView { items: Seq::<T>::empty(), ..old(self)@ }),
            forall|i: int|
                0 <= i < old(self)@.items.len() ==> call_ensures(
                    free_data,
                    (#[trigger] old(self)@.items[i],),
                    (),
                ),
            final(self).base() == old(self).base(),
            list_blocks_renewed(
                old(self).allocator().blocks(),
                final(self).allocator().blocks(),
                old(self)@.items.len() + 1,
            ),
    {
        let ghost pre = *self;
        let ghost list = pre.list();
        proof {
            pre.lemma_no_handles();
        }
        Node::clearing_queue_drop(
            self.head,
            &mut self.nodes,
            &mut self.allocator,
            free_data,
            Ghost(list),
        );
        proof {
            assert(self.nodes@ =~= Map::<usize, Node<T>>::empty());
        }
        let dummy = Node::dummy_node(&mut self.allocator, &mut self.nodes);
        self.head = dummy;
        self.tail = dummy;
        self.chain = Ghost(Map::empty().insert(0nat, dummy));
        self.popped = Ghost(0);
        self.pushed = Ghost(0);
        self.role = Ghost(Map::empty().insert(dummy, Role::Chain(0)));
        proof {
            list.unique_seq_to_set();
            vstd::seq_lib::seq_to_set_is_finite(list);
            assert forall|p: usize| list.to_set().contains(p) implies
                pre.allocator.blocks().contains_pair(p, CACHE_LINE_SIZE) by {
                let j = choose|j: int| 0 <= j < list.len() && list[j] == p;
                assert(pre.allocator.blocks().contains_pair(list[j], CACHE_LINE_SIZE));
            }
            assert(self.allocator.blocks() == pre.allocator.blocks().remove_keys(
                list.to_set(),
            ).insert(dummy, CACHE_LINE_SIZE));
            assert(self.nodes@.dom() =~= set![dummy]);
            assert(self.link_ok(0));
            assert(self@.items =~= Seq::<T>::empty());
            assert(self@.pooled =~= pre@.pooled);
            assert forall|h: usize| #[trigger] self.enq@.ops.contains_key(h) implies
                self.enq_op_ok(h) by {
                self.enq.lemma_view_ops(h);
            }
            assert forall|h: usize| #[trigger] self.deq@.ops.contains_key(h) implies
                self.deq_op_ok(h) by {
                self.deq.lemma_view_ops(h);
            }
            assert forall|i: int| 0 <= i < pre@.items.len() implies
                call_ensures(free_data, (#[trigger] pre@.items[i],), ()) by {
                assert(pre.nodes@[list[i + 1]].data == Some(pre@.items[i]));
            }
            assert(self.wf_blocks()) by {
                assert forall|p: usize|
                    #![trigger self.allocator.blocks().contains_key(p)]
                    holders(
                        self.base@,
                        self.this,
                        self.handles@.dom(),
                        self.nodes@.dom(),
                        self.enq.addresses(),
                        self.deq.addresses(),
                        p,
                    ) == if self.allocator.blocks().contains_key(p) {
                        1int
                    } else {
                        0int
                    } by {
                    pre.lemma_block(p);
                    assert(list.to_set().contains(p) == pre.nodes@.contains_key(p));
                }
                assert forall|p: usize|
                    #![trigger self.allocator.blocks().contains_key(p)]
                    self.allocator.blocks().contains_key(p) implies self.allocator.blocks()[p]
                    == if self.base@.contains_key(p) {
                    self.base@[p]
                } else if p == self.this || self.handles@.dom().contains(p) {
                    PAGE_SIZE
                } else {
                    CACHE_LINE_SIZE
                } by {
                    pre.lemma_block(p);
                    assert(list.to_set().contains(p) == pre.nodes@.contains_key(p));
                }
            }
        }
    }

    /// A queue without handles can be reopened with an allocator that knows
    /// the live blocks that the queue's allocator knows.
    pub proof fn lemma_reopens_with(&self, allocator: &A)
        requires
            self.wf(),
            self.no_handles(),
            allocator.wf(),
            allocator.blocks() == self.allocator().blocks(),
        ensures
            self.reopens_with(allocator),
    {
    }

    /// Gives the block that stands for the queue itself back to the
    /// allocator.
    pub fn free_after_drop(this: usize, allocator: &mut A)
        requires
            old(allocator).wf(),
            old(allocator).blocks().contains_pair(this, PAGE_SIZE),
        ensures
            final(allocator).wf(),
            final(allocator).blocks() == old(allocator).blocks().remove(this),
    {
        allocator.free_page_size(this)
    }

    /// Tears the queue down: frees the nodes of the list, the two combining
    /// objects and the queue itself, and hands the allocator back. Items
    /// that are still in the queue are dropped. Only works on a queue without
    /// handles.
    pub fn destroy(self) -> (allocator: A)
        requires
            self.wf(),
            self.no_handles(),
        ensures
            allocator.wf(),
            allocator.blocks() == self.base(),
    {
        let ghost list = self.list();
        proof {
            self.lemma_no_handles();
        }
        let mut queue = self;
        let ignore = |item: T| {};
        Node::clearing_queue_drop(
            queue.head,
            &mut queue.nodes,
            &mut queue.allocator,
            &ignore,
            Ghost(list),
        );
        queue.enq.destroy(&mut queue.allocator);
        queue.deq.destroy(&mut queue.allocator);
        Self::free_after_drop(queue.this, &mut queue.allocator);
        proof {
            assert(queue.allocator.blocks() =~= self.base@) by {
                assert forall|p: usize|
                    queue.allocator.blocks().contains_key(p) <==> self.base@.contains_key(p) by {
                    self.lemma_block(p);
                    assert(list.to_set().contains(p) == self.nodes@.contains_key(p));
                }
                assert forall|p: usize| queue.allocator.blocks().contains_key(p) implies
                    queue.allocator.blocks()[p] == self.base@[p] by {
                    assert(self.allocator.blocks().contains_key(p));
                }
            }
        }
        queue.allocator
    }

    /// The allocator of the queue.
    pub fn allocator_ref(&self) -> (allocator: &A)
        ensures
            *allocator == self.allocator(),
            self.wf() ==> allocator.wf(),
    {
        &self.allocator
    }

    /// Whether `handle` is a handle of this queue.
    pub fn is_handle(&self, handle: usize) -> (present: bool)
        ensures
            present == self.has_handle(handle),
    {
        self.handles.contains(handle)
    }

    /// Whether the queue has no handle.
    pub fn is_without_handles(&self) -> (none: bool)
        ensures
            none == self.no_handles(),
    {
        proof {
            assert(self@.pooled.dom() =~= self.handles@.dom());
        }
        self.handles.is_empty()
    }

    /// Whether `handle` has no operation in flight.
    pub fn is_idle(&self, handle: usize) -> (idle: bool)
        requires
            self.wf(),
            self.has_handle(handle),
        ensures
            idle == self@.idle(handle),
    {
        proof {
            self.lemma_handle(handle);
        }
        let record = self.handles.get(handle);
        record.enq.is_idle() && record.deq.is_idle()
    }
}

impl<T, A: Allocator> AllocatorOpened<A> for QueueInternal<T, A> {
    /// A queue without handles is reopened with an allocator that knows the
    /// live blocks that the queue's allocator knows.
    closed spec fn reopens_with(&self, allocator: &A) -> bool {
        &&& self.wf()
        &&& self.no_handles()
        &&& allocator.wf()
        &&& allocator.blocks() == self.allocator.blocks()
    }

    /// Makes the two combining objects anew, frees the nodes of the former
    /// ones, and adopts `allocator`. The items in the queue stay.
    fn allocator_opened(&mut self, allocator: A)
        ensures
            final(self).wf(),
            final(self).no_handles(),
            final(self)@ == old(self)@,
            final(self).base() == old(self).base(),
            combining_blocks_renewed(allocator.blocks(), final(self).allocator().blocks()),
    {
        let ghost pre = *self;
        let ghost before = allocator.blocks();
        proof {
            pre.lemma_no_handles();
        }
        let mut allocator = allocator;
        let mut enq = Synch::ccsynch_init(&mut allocator);
        let mut deq = Synch::ccsynch_init(&mut allocator);
        std::mem::swap(&mut self.enq, &mut enq);
        std::mem::swap(&mut self.deq, &mut deq);
        enq.destroy(&mut allocator);
        deq.destroy(&mut allocator);
        self.allocator = allocator;
        proof {
            let f = |p: Payload<T>| p@;
            assert(self.allocator.blocks() == before.insert(
                self.enq.tail_address(),
                CACHE_LINE_SIZE,
            ).insert(self.deq.tail_address(), CACHE_LINE_SIZE).remove(
                pre.enq.tail_address(),
            ).remove(pre.deq.tail_address()));
            assert(self@.enq.ops =~= pre@.enq.ops);
            assert(self@.deq.ops =~= pre@.deq.ops);
            assert(self@.pooled =~= pre@.pooled);
            assert(self@.items =~= pre@.items);
            assert forall|i: nat| self.popped@ <= i <= self.pushed@ implies
                #[trigger] self.link_ok(i) by {
                assert(pre.link_ok(i));
            }
            assert forall|a: usize| #[trigger] self.nodes@.contains_key(a) implies
                self.role_ok(a) by {
                assert(pre.role_ok(a));
                match pre.role@[a] {
                    Role::Request(h) => {
                        pre.enq.lemma_view_ops(h);
                    },
                    Role::Result(h) => {
                        pre.deq.lemma_view_ops(h);
                    },
                    _ => {},
                }
            }
            assert forall|h: usize| #[trigger] self.enq@.ops.contains_key(h) implies
                self.enq_op_ok(h) by {
                self.enq.lemma_view_ops(h);
            }
            assert forall|h: usize| #[trigger] self.deq@.ops.contains_key(h) implies
                self.deq_op_ok(h) by {
                self.deq.lemma_view_ops(h);
            }
            assert(self.wf_blocks()) by {
                assert forall|p: usize|
                    #![trigger self.allocator.blocks().contains_key(p)]
                    holders(
                        self.base@,
                        self.this,
                        self.handles@.dom(),
                        self.nodes@.dom(),
                        self.enq.addresses(),
                        self.deq.addresses(),
                        p,
                    ) == if self.allocator.blocks().contains_key(p) {
                        1int
                    } else {
                        0int
                    } by {
                    pre.lemma_block(p);
                }
                assert forall|p: usize|
                    #![trigger self.allocator.blocks().contains_key(p)]
                    self.allocator.blocks().contains_key(p) implies self.allocator.blocks()[p]
                    == if self.base@.contains_key(p) {
                    self.base@[p]
                } else if p == self.this || self.handles@.dom().contains(p) {
                    PAGE_SIZE
                } else {
                    CACHE_LINE_SIZE
                } by {
                    pre.lemma_block(p);
                }
            }
        }
    }
}

impl<T> PerQueueThreadHandleInternal<T> {
    /// Makes the handle of a thread that joins `queue`: one handle into each
    /// of the two combining objects, and one queue node set aside for the
    /// thread's first enqueue. Returns the address of the handle. Happens once
    /// per thread.
    pub fn new<A: Allocator>(queue: &mut QueueInternal<T, A>) -> (this: usize)
        requires
            old(queue).wf(),
        ensures
            final(queue).wf(),
            !old(queue).has_handle(this),
            final(queue)@ == old(queue)@.add_handle(this),
            final(queue).base() == old(queue).base(),
            handle_blocks(
                old(queue).allocator().blocks(),
                final(queue).allocator().blocks(),
                this,
            ),
    {
        let ghost pre = *queue;
        let this = queue.allocator.align_malloc_page_size();
        proof {
            assert(!pre.allocator.blocks().contains_key(this));
            assert(!pre.handles@.contains_key(this));
            assert(!pre.enq.mirror().contains_key(this));
            assert(!pre.deq.mirror().contains_key(this));
            assert forall|p: usize| pre.enq.addresses().contains(p) implies
                queue.allocator.blocks().contains_key(p) by {
                assert(pre.allocator.blocks().contains_key(p));
            }
        }
        let enq = SynchHandle::ccsynch_handle_init(&mut queue.enq, &mut queue.allocator, this);
        proof {
            assert forall|p: usize| pre.deq.addresses().contains(p) implies
                queue.allocator.blocks().contains_key(p) by {
                assert(pre.allocator.blocks().contains_key(p));
            }
        }
        let deq = SynchHandle::ccsynch_handle_init(&mut queue.deq, &mut queue.allocator, this);
        let node = Self::allocate_next_node_(&mut queue.allocator);
        queue.nodes.put(node, Node { next: None, data: None });
        queue.handles.put(this, PerQueueThreadHandleInternal { enq, deq, next: Some(node) });
        queue.role = Ghost(pre.role@.insert(node, Role::Pooled(this)));
        proof {
            assert(!pre.nodes@.contains_key(node)) by {
                if pre.nodes@.contains_key(node) {
                    assert(pre.allocator.blocks().contains_key(node));
                }
            }
            assert forall|i: nat| queue.popped@ <= i <= queue.pushed@ implies
                #[trigger] queue.link_ok(i) by {
                assert(pre.link_ok(i));
            }
            assert forall|a: usize| #[trigger] queue.nodes@.contains_key(a) implies
                queue.role_ok(a) by {
                if a != node {
                    assert(pre.nodes@.contains_key(a));
                    assert(pre.role_ok(a));
                }
            }
            assert forall|h: usize| #[trigger] queue.handles@.contains_key(h) implies
                queue.pool_ok(h) by {
                if h != this {
                    assert(pre.handles@.contains_key(h));
                    assert(pre.pool_ok(h));
                }
            }
            assert forall|h: usize| #[trigger] queue.enq@.ops.contains_key(h) implies
                queue.enq_op_ok(h) by {
                assert(pre.enq_op_ok(h));
            }
            assert forall|h: usize| #[trigger] queue.deq@.ops.contains_key(h) implies
                queue.deq_op_ok(h) by {
                assert(pre.deq_op_ok(h));
            }
            assert(queue.wf_blocks()) by {
                assert forall|p: usize|
                    #![trigger queue.allocator.blocks().contains_key(p)]
                    holders(
                        queue.base@,
                        queue.this,
                        queue.handles@.dom(),
                        queue.nodes@.dom(),
                        queue.enq.addresses(),
                        queue.deq.addresses(),
                        p,
                    ) == if queue.allocator.blocks().contains_key(p) {
                        1int
                    } else {
                        0int
                    } by {
                    pre.lemma_block(p);
                }
            }
            assert(queue@.items =~= pre@.items) by {
                pre.lemma_items();
                assert forall|i: int| 0 <= i < queue@.items.len() implies
                    queue@.items[i] == pre@.items[i] by {
                    assert(pre.link_ok((queue.popped@ + 1 + i) as nat));
                }
            }
            assert(queue@.pooled =~= pre@.pooled.insert(this, true));
            assert(queue.allocator.blocks() == pre.allocator.blocks().insert(
                this,
                PAGE_SIZE,
            ).insert(enq.next, CACHE_LINE_SIZE).insert(deq.next, CACHE_LINE_SIZE).insert(
                node,
                CACHE_LINE_SIZE,
            ));
        }
        this
    }

    /// Takes the handle at `this` out of `queue`, for a thread that leaves:
    /// frees its recycled node, if it holds one, the combining node that it
    /// holds on each side, and the handle itself.
    pub fn destroy<A: Allocator>(this: usize, queue: &mut QueueInternal<T, A>)
        requires
            old(queue).wf(),
            old(queue).has_handle(this),
            old(queue)@.idle(this),
        ensures
            final(queue).wf(),
            final(queue)@ == old(queue)@.remove_handle(this),
            final(queue).base() == old(queue).base(),
            handle_blocks_back(
                old(queue).allocator().blocks(),
                final(queue).allocator().blocks(),
                this,
                old(queue)@.pooled[this],
            ),
    {
        let ghost pre = *queue;
        proof {
            pre.lemma_handle(this);
        }
        let record = queue.handles.take(this);
        match record.next {
            Some(node) => {
                proof {
                    assert(pre.allocator.blocks().contains_key(node));
                }
                let _ = queue.nodes.take(node);
                Node::<T>::free_after_drop(node, &mut queue.allocator);
            },
            None => {},
        }
        proof {
            assert(queue.allocator.blocks().contains_key(record.enq.next));
        }
        record.enq.destroy(&mut queue.enq, &mut queue.allocator);
        proof {
            assert(queue.allocator.blocks().contains_key(record.deq.next));
        }
        record.deq.destroy(&mut queue.deq, &mut queue.allocator);
        proof {
            assert(queue.allocator.blocks().contains_key(this));
        }
        Self::free_after_drop(this, &mut queue.allocator);
        proof {
            assert forall|i: nat| queue.popped@ <= i <= queue.pushed@ implies
                #[trigger] queue.link_ok(i) by {
                assert(pre.link_ok(i));
                assert(pre.role_ok(pre.chain@[i]));
            }
            assert forall|a: usize| #[trigger] queue.nodes@.contains_key(a) implies
                queue.role_ok(a) by {
                assert(pre.nodes@.contains_key(a));
                assert(pre.role_ok(a));
            }
            assert forall|h: usize| #[trigger] queue.handles@.contains_key(h) implies
                queue.pool_ok(h) by {
                assert(pre.handles@.contains_key(h));
                assert(pre.pool_ok(h));
                if let Some(a) = pre.handles@[h].next {
                    assert(pre.role_ok(a));
                }
            }
            assert forall|h: usize| #[trigger] queue.enq@.ops.contains_key(h) implies
                queue.enq_op_ok(h) by {
                assert(pre.enq_op_ok(h));
                if let Some(a) = pre.enq@.ops[h].payload().node() {
                    if pre.nodes@.contains_key(a) {
                        assert(pre.role_ok(a));
                    }
                }
            }
            assert forall|h: usize| #[trigger] queue.deq@.ops.contains_key(h) implies
                queue.deq_op_ok(h) by {
                assert(pre.deq_op_ok(h));
                if let Some(a) = pre.deq@.ops[h].payload().node() {
                    if pre.nodes@.contains_key(a) {
                        assert(pre.role_ok(a));
                    }
                }
            }
            assert(queue@.items =~= pre@.items) by {
                pre.lemma_items();
                assert forall|i: int| 0 <= i < queue@.items.len() implies
                    queue@.items[i] == pre@.items[i] by {
                    assert(pre.link_ok((queue.popped@ + 1 + i) as nat));
                    assert(pre.role_ok(pre.chain@[(queue.popped@ + 1 + i) as nat]));
                }
            }
            assert(queue@.pooled =~= pre@.pooled.remove(this));
            let node = match record.next {
                Some(node) => node,
                None => 0,
            };
            assert(queue.allocator.blocks() == crate::queue_view::without_pooled(
                pre.allocator.blocks(),
                node,
                pre@.pooled[this],
            ).remove(record.enq.next).remove(record.deq.next).remove(this));
        }
    }
}

} // verus!
