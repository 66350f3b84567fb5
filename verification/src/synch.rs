//! The combining object and the steps of the combining protocol.
//!
//! The steps, and what each of them does to memory that other threads see:
//! * `register` swaps the handle's node in as the tail. The node is the
//!   handle's own until then.
//! * `observe` reads the status of the predecessor once.
//! * `publish` writes the request into the predecessor and then the handle's
//!   node as the predecessor's successor. Nobody reads the request before it
//!   sees the successor.
//! * `spin` reads the status of the predecessor once, and the result if the
//!   status is done.
//! * `pending` with `help` is one round of the combiner's walk: it reads the
//!   successor of the node at which the combiner stands, and the request
//!   staged there, and writes the result and the status done. Successor and
//!   request do not change once they are published.
//! * `pending` with `release` ends the walk: it reads the successor and
//!   writes the status ready. A successor published in between changes
//!   nothing that the release writes, and is elected by the status ready.
//!
//! [`Synch::turn`] picks the step that is due.
use crate::allocators::allocator::Allocator;
use crate::allocators::allocator::CACHE_LINE_SIZE;
use crate::arena::Arena;
use crate::payload::Payload;
use crate::status::Status;
use crate::synch_handle::Phase;
use crate::synch_handle::SynchHandle;
use crate::synch_node::SynchNode;
use crate::synch_view::Op;
use crate::synch_view::SynchView;
use crate::synch_view::Turn;
use crate::synch_view::CCSYNCH_HELP_BOUND;
use vstd::prelude::*;

verus! {

/// A combining object: the tail of a list of combining nodes, with the nodes
/// themselves.
///
/// Every registration swaps a node in as the new tail and receives the node
/// that was the tail before. Registrations are numbered in this order by
/// tickets, starting at 1; ticket 0 stands for the node that the object was
/// made with. The node swapped in by ticket `t` is the predecessor of ticket
/// `t + 1`.
pub struct Synch<T> {
    nodes: Arena<SynchNode<T>>,
    /// Never dangling: the node that the latest registration swapped in.
    tail: usize,
    /// The number of registrations so far.
    registered: Ghost<nat>,
    /// The number of registrations that were elected or served so far. The
    /// tickets after it stand in line.
    served: Ghost<nat>,
    /// For every ticket from `served` on, the node that it swapped in.
    chain: Ghost<Map<nat, usize>>,
    /// For every ticket in line, the handle that drew it.
    holder: Ghost<Map<nat, usize>>,
    /// For every node but the tail, the handle that holds it.
    owner: Ghost<Map<usize, usize>>,
    /// The handles registered with this object, as they are.
    handles: Ghost<Map<usize, SynchHandle<T>>>,
    combiner: Ghost<Option<usize>>,
}

impl<T> View for Synch<T> {
    type V = SynchView<Payload<T>>;

    closed spec fn view(&self) -> SynchView<Payload<T>> {
        SynchView {
            line: Seq::new(
                (self.registered@ - self.served@) as nat,
                |i: int| self.holder@[(self.served@ + 1 + i) as nat],
            ),
            combiner: self.combiner@,
            helped: match self.combiner@ {
                Some(c) => match self.handles@[c].phase {
                    Phase::Helping { count, .. } => count as nat,
                    _ => 0,
                },
                None => 0,
            },
            ops: Map::new(
                |h: usize| self.handles@.contains_key(h) && !(self.handles@[h].phase is Idle),
                |h: usize| self.op_of(h),
            ),
        }
    }
}

impl<T> Synch<T> {
    /// The handles registered with this object, by identity.
    pub closed spec fn mirror(&self) -> Map<usize, SynchHandle<T>> {
        self.handles@
    }

    /// The addresses of the object's combining nodes.
    pub closed spec fn addresses(&self) -> Set<usize> {
        self.nodes@.dom()
    }

    /// Whether `handle` is registered with this object and is known to it as
    /// it is.
    pub open spec fn knows(&self, handle: SynchHandle<T>) -> bool {
        self.mirror().contains_pair(handle.id, handle)
    }

    spec fn op_of(&self, h: usize) -> Op<Payload<T>> {
        match self.handles@[h].phase {
            Phase::Registered { request, .. } => Op::Registered(request),
            Phase::Staged { request, .. } => Op::Staged(request),
            Phase::Waiting { request, ticket, .. } => if ticket@ > self.served@ {
                Op::Waiting(request)
            } else {
                Op::Served(self.nodes@[self.handles@[h].next].data)
            },
            Phase::Elected { request, .. } => Op::Elected(request),
            Phase::Helping { result, .. } => Op::Helping(result),
            Phase::Idle => arbitrary(),
        }
    }

    /// Every handle holds one node, no two hold the same, and the tail is
    /// held by none.
    spec fn inv_ownership(&self) -> bool {
        &&& forall|h: usize|
            self.handles@.contains_key(h) ==> {
                &&& (#[trigger] self.handles@[h]).id == h
                &&& self.nodes@.contains_key(self.handles@[h].next)
                &&& self.handles@[h].next != self.tail
                &&& self.owner@[self.handles@[h].next] == h
            }
        &&& forall|a: usize|
            self.nodes@.contains_key(a) && a != self.tail ==> self.handles@.contains_key(
                #[trigger] self.owner@[a],
            ) && self.handles@[self.owner@[a]].next == a
    }

    /// The ticket `t` stands in line: its holder has not been elected, holds
    /// the node of the ticket before as predecessor, and its own node waits.
    spec fn in_line(&self, t: nat, h: usize) -> bool {
        let me = self.handles@[h];
        let prev = self.nodes@[self.chain@[(t - 1) as nat]];
        &&& self.handles@.contains_key(h)
        &&& me.phase.queued()
        &&& me.phase.ticket() == t
        &&& me.phase.mine() == self.chain@[t]
        &&& me.next == self.chain@[(t - 1) as nat]
        &&& self.nodes@.contains_key(self.chain@[t])
        &&& self.nodes@[self.chain@[t]].status == Status::Wait
        &&& if me.phase is Waiting {
            prev.next == Some(self.chain@[t]) && prev.data == me.phase.payload()
        } else {
            prev.next is None
        }
    }

    spec fn inv_line(&self) -> bool {
        forall|t: nat|
            self.served@ < t <= self.registered@ ==> self.in_line(t, #[trigger] self.holder@[t])
    }

    spec fn inv_handle(&self, h: usize) -> bool {
        let me = self.handles@[h];
        match me.phase {
            Phase::Idle => true,
            Phase::Registered { ticket, .. } => self.served@ < ticket@ <= self.registered@
                && self.holder@[ticket@] == h,
            Phase::Staged { ticket, .. } => self.served@ < ticket@ <= self.registered@
                && self.holder@[ticket@] == h,
            Phase::Waiting { ticket, .. } => {
                &&& 1 <= ticket@ <= self.registered@
                &&& ticket@ > self.served@ ==> self.holder@[ticket@] == h
                &&& ticket@ <= self.served@ ==> self.nodes@[me.next].status == Status::Done
            },
            Phase::Elected { mine, .. } => self.combiner@ == Some(h) && mine
                == self.chain@[self.served@],
            Phase::Helping { current, count, .. } => self.combiner@ == Some(h) && current
                == self.chain@[self.served@] && count <= CCSYNCH_HELP_BOUND,
        }
    }

    spec fn inv_handles(&self) -> bool {
        forall|h: usize| #[trigger] self.handles@.contains_key(h) ==> self.inv_handle(h)
    }

    /// The node at the front waits while a combiner is active and is ready
    /// otherwise.
    spec fn inv_combiner(&self) -> bool {
        let front = self.nodes@[self.chain@[self.served@]];
        match self.combiner@ {
            Some(c) => self.handles@.contains_key(c) && self.handles@[c].phase.combining()
                && front.status == Status::Wait,
            None => front.status == Status::Ready,
        }
    }

    /// The consistency of the list of combining nodes with the handles.
    pub closed spec fn inv(&self) -> bool {
        &&& self.handles@.dom().finite()
        &&& self.served@ <= self.registered@
        &&& self.chain@[self.registered@] == self.tail
        &&& self.nodes@.contains_key(self.tail)
        &&& self.nodes@[self.tail].next is None
        &&& self.inv_ownership()
        &&& self.inv_line()
        &&& self.inv_handles()
        &&& self.inv_combiner()
    }

    /// The handles that are registered are those that the mirror knows.
    pub proof fn lemma_view_ops(&self, h: usize)
        ensures
            self@.ops.contains_key(h) <==> self.mirror().contains_key(h) && !(
            self.mirror()[h].phase is Idle),
            self@.ops.contains_key(h) ==> (self@.ops[h].in_line()
                ==> self.mirror()[h].phase.queued()),
            self@.ops.contains_key(h) ==> (self@.ops[h].combining()
                <==> self.mirror()[h].phase.combining()),
            self@.ops.dom().subset_of(self.mirror().dom()),
    {
    }

    /// A combining object in which nothing is registered. Its one node is
    /// ready, so that the first registration is elected at once.
    pub fn ccsynch_init<A: Allocator>(allocator: &mut A) -> (synch: Self)
        requires
            old(allocator).wf(),
        ensures
            final(allocator).wf(),
            synch.inv(),
            synch@ == SynchView::<Payload<T>>::quiescent(),
            synch.mirror() == Map::<usize, SynchHandle<T>>::empty(),
            synch.addresses() == set![synch.tail_address()],
            !old(allocator).blocks().contains_key(synch.tail_address()),
            final(allocator).blocks() == old(allocator).blocks().insert(
                synch.tail_address(),
                CACHE_LINE_SIZE,
            ),
    {
        let mut nodes = Arena::new();
        let tail = SynchNode::ccsynch_init_node(allocator, &mut nodes);
        let synch = Synch {
            nodes,
            tail,
            registered: Ghost(0),
            served: Ghost(0),
            chain: Ghost(Map::empty().insert(0nat, tail)),
            holder: Ghost(Map::empty()),
            owner: Ghost(Map::empty()),
            handles: Ghost(Map::empty()),
            combiner: Ghost(None),
        };
        proof {
            assert(synch.nodes@.dom() =~= Set::<usize>::empty().insert(tail));
            assert(synch@.line =~= Seq::<usize>::empty());
            assert(synch@.ops =~= Map::<usize, Op<Payload<T>>>::empty());
        }
        synch
    }

    /// What the invariant says of a ticket in line.
    proof fn lemma_line(&self, t: nat)
        requires
            self.inv(),
            self.served@ < t <= self.registered@,
        ensures
            self.in_line(t, self.holder@[t]),
            self.inv_handle(self.holder@[t]),
            self.owner@[self.chain@[(t - 1) as nat]] == self.holder@[t],
            self.chain@[(t - 1) as nat] != self.tail,
            self.nodes@.contains_key(self.chain@[(t - 1) as nat]),
    {
        assert(self.in_line(t, self.holder@[t]));
        assert(self.handles@.contains_key(self.holder@[t]));
    }

    /// The nodes from the front to the tail are in the arena.
    proof fn lemma_chain_node(&self, t: nat)
        requires
            self.inv(),
            self.served@ <= t <= self.registered@,
        ensures
            self.nodes@.contains_key(self.chain@[t]),
            t < self.registered@ ==> self.owner@[self.chain@[t]] == self.holder@[t + 1]
                && self.chain@[t] != self.tail,
            t == self.registered@ ==> self.chain@[t] == self.tail,
    {
        if t < self.registered@ {
            self.lemma_line(t + 1);
        }
    }

    /// The nodes from the front to the tail are distinct.
    proof fn lemma_chain_distinct(&self, t1: nat, t2: nat)
        requires
            self.inv(),
            self.served@ <= t1 < t2 <= self.registered@,
        ensures
            self.chain@[t1] != self.chain@[t2],
    {
        self.lemma_line(t1 + 1);
        if t2 < self.registered@ {
            self.lemma_line(t2 + 1);
        }
    }

    /// A node held by a handle that does not stand in line is none of the
    /// nodes from the front to the tail.
    proof fn lemma_private_node(&self, h: usize, t: nat)
        requires
            self.inv(),
            self.handles@.contains_key(h),
            self.served@ <= t <= self.registered@,
            !(self.handles@[h].phase.queued() && self.handles@[h].phase.ticket() > self.served@),
        ensures
            self.handles@[h].next != self.chain@[t],
    {
        assert(self.inv_handle(h));
        if t < self.registered@ {
            self.lemma_line(t + 1);
        }
    }

    /// While a handle stands in line behind the front, or a combiner is
    /// active, its predecessor waits; the one at the front finds its
    /// predecessor ready exactly if no combiner is active.
    proof fn lemma_predecessor_status(&self, h: usize)
        requires
            self.inv(),
            self.handles@.contains_key(h),
            self.handles@[h].phase.queued(),
        ensures
            ({
                let me = self.handles@[h];
                let status = self.nodes@[me.next].status;
                &&& self.nodes@.contains_key(me.next)
                &&& me.phase.ticket() > self.served@ ==> status != Status::Done && (status
                    == Status::Ready <==> self@.lock_free_for(h))
                &&& me.phase.ticket() <= self.served@ ==> status == Status::Done
                    && !self@.lock_free_for(h) && me.phase is Waiting
                &&& self@.lock_free_for(h) ==> me.phase.ticket() == self.served@ + 1
            }),
    {
        assert(self.inv_handle(h));
        let t = self.handles@[h].phase.ticket();
        if t > self.served@ {
            self.lemma_line(t);
            if t > self.served@ + 1 {
                self.lemma_line((t - 1) as nat);
                self.lemma_line(self.served@ + 1);
                assert(self@.line[0] == self.holder@[self.served@ + 1]);
            } else {
                assert(self@.line[0] == h);
            }
        } else {
            if self.served@ < self.registered@ {
                self.lemma_line(self.served@ + 1);
                assert(self@.line[0] == self.holder@[self.served@ + 1]);
            }
        }
    }

    /// The view satisfies what holds of every state of the protocol.
    pub proof fn lemma_view_wf(&self)
        requires
            self.inv(),
        ensures
            self@.wf(),
    {
        let v = self@;
        assert(v.ops.dom().subset_of(self.handles@.dom()));
        vstd::set_lib::lemma_len_subset(v.ops.dom(), self.handles@.dom());
        assert forall|i: int, j: int|
            0 <= i < v.line.len() && 0 <= j < v.line.len() && i != j implies
            v.line[i] != v.line[j] by {
            self.lemma_line((self.served@ + 1 + i) as nat);
            self.lemma_line((self.served@ + 1 + j) as nat);
        }
        assert forall|i: int| 0 <= i < v.line.len() implies
            v.ops.contains_key(#[trigger] v.line[i]) && v.ops[v.line[i]].in_line() by {
            self.lemma_line((self.served@ + 1 + i) as nat);
        }
        assert forall|h: usize| v.ops.contains_key(h) && (#[trigger] v.ops[h]).in_line() implies
            v.line.contains(h) by {
            assert(self.inv_handle(h));
            let t = self.handles@[h].phase.ticket();
            assert(v.line[t - self.served@ - 1] == h);
        }
        assert forall|h: usize| v.ops.contains_key(h) implies
            ((#[trigger] v.ops[h]).combining() <==> v.combiner == Some(h)) by {
            assert(self.inv_handle(h));
        }
        if let Some(c) = self.combiner@ {
            assert(self.inv_handle(c));
        }
    }

    /// Swaps `next` in as the tail and returns the node that was the tail.
    fn swap_tail_returning_previous(&mut self, next: usize) -> (previous: usize)
        ensures
            previous == old(self).tail,
            final(self).tail == next,
            final(self).nodes == old(self).nodes,
            final(self).registered == old(self).registered,
            final(self).served == old(self).served,
            final(self).chain == old(self).chain,
            final(self).holder == old(self).holder,
            final(self).owner == old(self).owner,
            final(self).handles == old(self).handles,
            final(self).combiner == old(self).combiner,
    {
        let previous = self.tail;
        self.tail = next;
        previous
    }

    /// Registers an operation: resets the handle's node, swaps it in as the
    /// tail, and keeps the previous tail as the handle's predecessor.
    pub fn register(&mut self, handle: &mut SynchHandle<T>, request: Payload<T>)
        requires
            old(self).inv(),
            old(self).knows(*old(handle)),
            old(handle).phase is Idle,
        ensures
            final(self).inv(),
            final(self).mirror() == old(self).mirror().insert(old(handle).id, *final(handle)),
            final(self).addresses() == old(self).addresses(),
            final(self)@ == old(self)@.register(old(handle).id, request),
            final(handle).id == old(handle).id,
            final(handle).phase is Registered,
    {
        let ghost pre = *self;
        let ghost id = handle.id;
        let mine = handle.next;
        assert(pre.handles@.contains_key(id));
        let mut node = self.nodes.take(mine);
        node.next = None;
        node.status = Status::Wait;
        self.nodes.put(mine, node);
        let previous = self.swap_tail_returning_previous(mine);
        handle.next = previous;
        let ghost ticket = (pre.registered@ + 1) as nat;
        handle.phase = Phase::Registered { mine, request, ticket: Ghost(ticket) };
        self.registered = Ghost(ticket);
        self.chain = Ghost(pre.chain@.insert(ticket, mine));
        self.holder = Ghost(pre.holder@.insert(ticket, id));
        self.owner = Ghost(pre.owner@.insert(previous, id));
        self.handles = Ghost(pre.handles@.insert(id, *handle));
        proof {
            assert(self.nodes@.dom() =~= pre.nodes@.dom());
            assert(pre.inv_handle(id));
            assert forall|t: nat| pre.served@ <= t <= pre.registered@ implies
                pre.chain@[t] != mine by {
                pre.lemma_private_node(id, t);
            }
            assert forall|h: usize| self.handles@.contains_key(h) implies {
                &&& (#[trigger] self.handles@[h]).id == h
                &&& self.nodes@.contains_key(self.handles@[h].next)
                &&& self.handles@[h].next != self.tail
                &&& self.owner@[self.handles@[h].next] == h
            } by {
                if h != id {
                    assert(pre.handles@.contains_key(h));
                }
            }
            assert forall|a: usize|
                self.nodes@.contains_key(a) && a != self.tail implies
                self.handles@.contains_key(#[trigger] self.owner@[a])
                    && self.handles@[self.owner@[a]].next == a by {
                if a != previous {
                    assert(pre.handles@.contains_key(pre.owner@[a]));
                }
            }
            assert forall|t: nat| self.served@ < t <= self.registered@ implies
                self.in_line(t, #[trigger] self.holder@[t]) by {
                if t <= pre.registered@ {
                    pre.lemma_line(t);
                }
            }
            assert forall|h: usize| #[trigger] self.handles@.contains_key(h) implies
                self.inv_handle(h) by {
                if h != id {
                    assert(pre.handles@.contains_key(h));
                    assert(pre.inv_handle(h));
                }
            }
            assert(self.inv_combiner()) by {
                if let Some(c) = pre.combiner@ {
                    assert(pre.inv_handle(c));
                }
            }
            assert(self@.line =~= pre@.line.push(id));
            assert(self@.ops =~= pre@.ops.insert(id, Op::Registered(request))) by {
                assert forall|h: usize| self@.ops.contains_key(h) && h != id implies
                    self.op_of(h) == pre.op_of(h) by {
                    assert(pre.handles@.contains_key(h));
                }
            }
        }
    }

    /// Ownership is kept where the nodes are those that they were and every
    /// handle holds the node that it held.
    proof fn lemma_ownership(pre: Self, post: Self)
        requires
            pre.inv(),
            post.tail == pre.tail,
            post.owner == pre.owner,
            post.nodes@.dom() =~= pre.nodes@.dom(),
            post.handles@.dom() =~= pre.handles@.dom(),
            forall|h: usize| #[trigger]
                post.handles@.contains_key(h) ==> post.handles@[h].id == pre.handles@[h].id
                    && post.handles@[h].next == pre.handles@[h].next,
        ensures
            post.inv_ownership(),
    {
        assert forall|h: usize| post.handles@.contains_key(h) implies {
            &&& (#[trigger] post.handles@[h]).id == h
            &&& post.nodes@.contains_key(post.handles@[h].next)
            &&& post.handles@[h].next != post.tail
            &&& post.owner@[post.handles@[h].next] == h
        } by {
            assert(pre.handles@.contains_key(h));
        }
        assert forall|a: usize|
            post.nodes@.contains_key(a) && a != post.tail implies
            post.handles@.contains_key(#[trigger] post.owner@[a])
                && post.handles@[post.owner@[a]].next == a by {
            assert(pre.handles@.contains_key(pre.owner@[a]));
        }
    }

    /// The handle at the front of the line leaves it and becomes the
    /// combiner.
    proof fn lemma_elect(pre: Self, post: Self, id: usize, mine: usize, request: Payload<T>)
        requires
            pre.inv(),
            pre.handles@.contains_key(id),
            pre.handles@[id].phase.queued(),
            pre.handles@[id].phase.mine() == mine,
            pre.handles@[id].phase.payload() == request,
            pre.nodes@[pre.handles@[id].next].status == Status::Ready,
            post.nodes == pre.nodes,
            post.tail == pre.tail,
            post.registered == pre.registered,
            post.served@ == pre.served@ + 1,
            post.chain == pre.chain,
            post.holder == pre.holder,
            post.owner == pre.owner,
            post.handles@ == pre.handles@.insert(
                id,
                SynchHandle { phase: Phase::Elected { mine, request }, ..pre.handles@[id] },
            ),
            post.combiner@ == Some(id),
        ensures
            post.inv(),
            post@ == pre@.elect(id),
            pre@.lock_free_for(id),
    {
        pre.lemma_predecessor_status(id);
        assert(pre.inv_handle(id));
        let t = pre.handles@[id].phase.ticket();
        pre.lemma_line(t);
        assert(t == pre.served@ + 1);
        assert(pre.combiner@ is None);
        Self::lemma_ownership(pre, post);
        assert forall|u: nat| post.served@ < u <= post.registered@ implies
            post.in_line(u, #[trigger] post.holder@[u]) by {
            pre.lemma_line(u);
        }
        assert forall|h: usize| #[trigger] post.handles@.contains_key(h) implies
            post.inv_handle(h) by {
            assert(pre.handles@.contains_key(h));
            assert(pre.inv_handle(h));
            if h != id && pre.handles@[h].phase.queued() && pre.handles@[h].phase.ticket() == t {
                assert(false);
            }
        }
        assert(post@.line =~= pre@.line.drop_first());
        assert(post@.ops =~= pre@.ops.insert(id, Op::Elected(request))) by {
            assert forall|h: usize| post@.ops.contains_key(h) && h != id implies
                post.op_of(h) == pre.op_of(h) by {
                assert(pre.handles@.contains_key(h));
                assert(pre.inv_handle(h));
            }
        }
        assert(pre@.ops[id].payload() == request);
    }

    /// A handle's own phase changes and nothing else does.
    proof fn lemma_local(pre: Self, post: Self, id: usize, phase: Phase<T>)
        requires
            pre.inv(),
            pre.handles@.contains_key(id),
            post.nodes == pre.nodes,
            post.tail == pre.tail,
            post.registered == pre.registered,
            post.served == pre.served,
            post.chain == pre.chain,
            post.holder == pre.holder,
            post.owner == pre.owner,
            post.handles@ == pre.handles@.insert(id, SynchHandle { phase, ..pre.handles@[id] }),
            post.combiner == pre.combiner,
            post.inv_handle(id),
            pre.handles@[id].phase.queued() && pre.handles@[id].phase.ticket() > pre.served@ ==> {
                &&& phase.queued()
                &&& phase.ticket() == pre.handles@[id].phase.ticket()
                &&& phase.mine() == pre.handles@[id].phase.mine()
                &&& phase.payload() == pre.handles@[id].phase.payload()
                &&& phase is Waiting <==> pre.handles@[id].phase is Waiting
            },
            pre.handles@[id].phase.combining() <==> phase.combining(),
        ensures
            post.inv(),
            post@.line == pre@.line,
            post@.combiner == pre@.combiner,
            forall|h: usize| h != id ==> post@.ops.contains_key(h) == pre@.ops.contains_key(h),
            forall|h: usize| h != id && pre@.ops.contains_key(h) ==> post@.ops[h] == pre@.ops[h],
    {
        Self::lemma_ownership(pre, post);
        assert forall|u: nat| post.served@ < u <= post.registered@ implies
            post.in_line(u, #[trigger] post.holder@[u]) by {
            pre.lemma_line(u);
        }
        assert forall|h: usize| #[trigger] post.handles@.contains_key(h) implies
            post.inv_handle(h) by {
            assert(pre.handles@.contains_key(h));
            assert(pre.inv_handle(h));
        }
        assert(pre.inv_handle(id));
        assert(post@.line =~= pre@.line);
    }

    /// Reads the predecessor's status for the first time: the handle is
    /// elected if the predecessor is ready, and has to stage its request if
    /// the predecessor waits. A predecessor is never done before its
    /// successor has published a request.
    pub fn observe(&mut self, handle: &mut SynchHandle<T>)
        requires
            old(self).inv(),
            old(self).knows(*old(handle)),
            old(handle).phase is Registered,
        ensures
            final(self).inv(),
            final(self).mirror() == old(self).mirror().insert(old(handle).id, *final(handle)),
            final(self).addresses() == old(self).addresses(),
            final(self)@ == old(self)@.observe(old(handle).id),
            final(handle).id == old(handle).id,
            final(handle).phase is Staged || final(handle).phase is Elected,
            final(handle).phase.payload() == old(handle).phase.payload(),
    {
        let ghost pre = *self;
        let ghost id = handle.id;
        proof {
            pre.lemma_predecessor_status(id);
            assert(pre.inv_handle(id));
        }
        let status = self.nodes.get(handle.next).acquire_status();
        match handle.phase {
            Phase::Registered { mine, request, ticket } => {
                match status {
                    Status::Wait => {
                        handle.phase = Phase::Staged { mine, request, ticket };
                        self.handles = Ghost(pre.handles@.insert(id, *handle));
                        proof {
                            Self::lemma_local(pre, *self, id, handle.phase);
                            assert(self@.ops =~= pre@.ops.insert(id, Op::Staged(request)));
                        }
                    },
                    Status::Ready => {
                        handle.phase = Phase::Elected { mine, request };
                        self.handles = Ghost(pre.handles@.insert(id, *handle));
                        self.served = Ghost(pre.served@ + 1);
                        self.combiner = Ghost(Some(id));
                        proof {
                            Self::lemma_elect(pre, *self, id, mine, request);
                        }
                    },
                    // Nobody has staged a request in this node yet.
                    Status::Done => {
                        assert(false);
                    },
                }
            },
            _ => {},
        }
    }

    /// Stages the request in the predecessor and publishes the handle's own
    /// node as the predecessor's successor, in this order.
    pub fn publish(&mut self, handle: &mut SynchHandle<T>)
        requires
            old(self).inv(),
            old(self).knows(*old(handle)),
            old(handle).phase is Staged,
        ensures
            final(self).inv(),
            final(self).mirror() == old(self).mirror().insert(old(handle).id, *final(handle)),
            final(self).addresses() == old(self).addresses(),
            final(self)@ == old(self)@.publish(old(handle).id),
            final(handle).id == old(handle).id,
            final(handle).phase is Waiting,
            final(handle).phase.payload() == old(handle).phase.payload(),
    {
        let ghost pre = *self;
        let ghost id = handle.id;
        proof {
            assert(pre.inv_handle(id));
            pre.lemma_line(handle.phase.ticket());
        }
        match handle.phase {
            Phase::Staged { mine, request, ticket } => {
                let previous = handle.next;
                let mut node = self.nodes.take(previous);
                node.data = request;
                node.release_next(mine);
                self.nodes.put(previous, node);
                handle.phase = Phase::Waiting { mine, request, ticket };
                self.handles = Ghost(pre.handles@.insert(id, *handle));
                proof {
                    assert(self.nodes@.dom() =~= pre.nodes@.dom());
                    Self::lemma_ownership(pre, *self);
                    assert forall|u: nat| self.served@ < u <= self.registered@ implies
                        self.in_line(u, #[trigger] self.holder@[u]) by {
                        pre.lemma_line(u);
                        if u != ticket@ {
                            pre.lemma_chain_node(u);
                        }
                    }
                    assert forall|h: usize| #[trigger] self.handles@.contains_key(h) implies
                        self.inv_handle(h) by {
                        assert(pre.handles@.contains_key(h));
                        assert(pre.inv_handle(h));
                    }
                    assert(self.inv_combiner()) by {
                        if let Some(c) = pre.combiner@ {
                            assert(pre.inv_handle(c));
                        }
                    }
                    assert(self@.line =~= pre@.line);
                    assert(self@.ops =~= pre@.ops.insert(id, Op::Waiting(request))) by {
                        assert forall|h: usize| self@.ops.contains_key(h) && h != id implies
                            self.op_of(h) == pre.op_of(h) by {
                            assert(pre.handles@.contains_key(h));
                        }
                    }
                }
            },
            _ => {},
        }
    }

    /// Reads the predecessor's status again. While it waits, nothing
    /// changes. If it is ready, the handle is elected. If it is done, a
    /// combiner has applied the request: the handle becomes idle and the
    /// result is returned.
    pub fn spin(&mut self, handle: &mut SynchHandle<T>) -> (result: Option<Payload<T>>)
        requires
            old(self).inv(),
            old(self).knows(*old(handle)),
            old(handle).phase is Waiting,
        ensures
            final(self).inv(),
            final(self).mirror() == old(self).mirror().insert(old(handle).id, *final(handle)),
            final(self).addresses() == old(self).addresses(),
            final(self)@ == old(self)@.spin(old(handle).id),
            final(handle).id == old(handle).id,
            final(handle).next == old(handle).next,
            result is Some <==> old(self)@.ops[old(handle).id] is Served,
            result matches Some(payload) ==> payload == old(self)@.ops[old(handle).id].payload()
                && final(handle).phase is Idle,
            result is None ==> {
                ||| final(handle).phase == old(handle).phase && !old(self)@.lock_free_for(
                    old(handle).id,
                )
                ||| final(handle).phase is Elected && final(handle).phase.payload() == old(
                    handle,
                ).phase.payload() && old(self)@.lock_free_for(old(handle).id)
            },
    {
        let ghost pre = *self;
        let ghost id = handle.id;
        proof {
            pre.lemma_predecessor_status(id);
            assert(pre.inv_handle(id));
        }
        let node = self.nodes.get(handle.next);
        let status = node.acquire_status();
        match handle.phase {
            Phase::Waiting { mine, request, ticket } => {
                match status {
                    Status::Wait => {
                        proof {
                            assert(self.handles@ =~= pre.handles@.insert(id, *handle));
                        }
                        None
                    },
                    Status::Ready => {
                        handle.phase = Phase::Elected { mine, request };
                        self.handles = Ghost(pre.handles@.insert(id, *handle));
                        self.served = Ghost(pre.served@ + 1);
                        self.combiner = Ghost(Some(id));
                        proof {
                            Self::lemma_elect(pre, *self, id, mine, request);
                        }
                        None
                    },
                    Status::Done => {
                        let result = node.data;
                        handle.phase = Phase::Idle;
                        self.handles = Ghost(pre.handles@.insert(id, *handle));
                        proof {
                            Self::lemma_local(pre, *self, id, handle.phase);
                            assert(self@.ops =~= pre@.ops.remove(id));
                        }
                        Some(result)
                    },
                }
            },
            _ => None,
        }
    }

    /// The combiner has applied its own request, with `result`, and starts
    /// its walk at the node that it swapped in.
    pub fn apply_own(&mut self, handle: &mut SynchHandle<T>, result: Payload<T>)
        requires
            old(self).inv(),
            old(self).knows(*old(handle)),
            old(handle).phase is Elected,
        ensures
            final(self).inv(),
            final(self).mirror() == old(self).mirror().insert(old(handle).id, *final(handle)),
            final(self).addresses() == old(self).addresses(),
            final(self)@ == old(self)@.apply_own(old(handle).id, result),
            final(handle).id == old(handle).id,
            final(handle).phase is Helping,
            final(handle).phase.payload() == result,
    {
        let ghost pre = *self;
        let ghost id = handle.id;
        proof {
            assert(pre.inv_handle(id));
        }
        match handle.phase {
            Phase::Elected { mine, request } => {
                handle.phase = Phase::Helping { current: mine, count: 0, result };
                self.handles = Ghost(pre.handles@.insert(id, *handle));
                proof {
                    Self::lemma_local(pre, *self, id, handle.phase);
                    assert(self@.ops =~= pre@.ops.insert(id, Op::Helping(result)));
                }
            },
            _ => {},
        }
    }

    /// The request that the combiner serves next: the one staged in the node
    /// at which it stands, if a successor was published there and the help
    /// bound is not reached. Otherwise the walk ends here.
    pub fn pending(&self, handle: &SynchHandle<T>) -> (request: Option<Payload<T>>)
        requires
            self.inv(),
            self.knows(*handle),
            handle.phase is Helping,
        ensures
            request is Some <==> self@.can_help(),
            request matches Some(payload) ==> payload == self@.ops[self@.line[0]].payload(),
    {
        proof {
            assert(self.inv_handle(handle.id));
            if self.served@ < self.registered@ {
                self.lemma_line(self.served@ + 1);
                assert(self@.line[0] == self.holder@[self.served@ + 1]);
            }
        }
        match handle.phase {
            Phase::Helping { current, count, result } => {
                let node = self.nodes.get(current);
                let next = node.acquire_next();
                if next.is_some() && count < CCSYNCH_HELP_BOUND {
                    Some(node.data)
                } else {
                    None
                }
            },
            _ => None,
        }
    }

    /// The combiner has applied the request staged in the node at which it
    /// stands, with `result`: it stores the result there, marks the node
    /// done, and moves on to the successor.
    pub fn help(&mut self, handle: &mut SynchHandle<T>, result: Payload<T>)
        requires
            old(self).inv(),
            old(self).knows(*old(handle)),
            old(handle).phase is Helping,
            old(self)@.can_help(),
        ensures
            final(self).inv(),
            final(self).mirror() == old(self).mirror().insert(old(handle).id, *final(handle)),
            final(self).addresses() == old(self).addresses(),
            final(self)@ == old(self)@.help(result),
            final(handle).id == old(handle).id,
            final(handle).phase is Helping,
            final(handle).phase.payload() == old(handle).phase.payload(),
    {
        let ghost pre = *self;
        let ghost id = handle.id;
        proof {
            assert(pre.inv_handle(id));
            pre.lemma_line(pre.served@ + 1);
            assert(pre@.line[0] == pre.holder@[pre.served@ + 1]);
            assert(pre.inv_handle(pre.holder@[pre.served@ + 1]));
        }
        match handle.phase {
            Phase::Helping { current, count, result: own } => {
                let mut node = self.nodes.take(current);
                let next = node.acquire_next();
                node.data = result;
                node.release_status_done();
                self.nodes.put(current, node);
                match next {
                    Some(successor) => {
                        handle.phase = Phase::Helping {
                            current: successor,
                            count: count + 1,
                            result: own,
                        };
                    },
                    // A request is staged in a node only together with a successor.
                    None => {},
                }
                self.handles = Ghost(pre.handles@.insert(id, *handle));
                self.served = Ghost(pre.served@ + 1);
                proof {
                    let t = (pre.served@ + 1) as nat;
                    let r = pre.holder@[t];
                    assert(self.nodes@.dom() =~= pre.nodes@.dom());
                    Self::lemma_ownership(pre, *self);
                    assert forall|u: nat| self.served@ < u <= self.registered@ implies
                        self.in_line(u, #[trigger] self.holder@[u]) by {
                        pre.lemma_line(u);
                        pre.lemma_chain_distinct(pre.served@, u);
                        pre.lemma_chain_distinct(pre.served@, (u - 1) as nat);
                    }
                    assert forall|h: usize| #[trigger] self.handles@.contains_key(h) implies
                        self.inv_handle(h) by {
                        assert(pre.handles@.contains_key(h));
                        assert(pre.inv_handle(h));
                    }
                    assert(self.inv_combiner()) by {
                        pre.lemma_chain_distinct(pre.served@, t);
                    }
                    if t < pre.registered@ {
                        pre.lemma_chain_distinct(pre.served@, pre.registered@);
                    }
                    assert(self@.line =~= pre@.line.drop_first());
                    assert(self@.ops =~= pre@.ops.insert(r, Op::Served(result))) by {
                        assert forall|h: usize| self@.ops.contains_key(h) && h != r implies
                            self.op_of(h) == pre.op_of(h) by {
                            assert(pre.handles@.contains_key(h));
                            assert(pre.inv_handle(h));
                        }
                    }
                }
            },
            _ => {},
        }
    }

    /// The combiner ends its walk: it marks the node at which it stands
    /// ready, so that whoever holds it as predecessor is elected next, and
    /// becomes idle. Returns the result of the combiner's own request.
    pub fn release(&mut self, handle: &mut SynchHandle<T>) -> (result: Payload<T>)
        requires
            old(self).inv(),
            old(self).knows(*old(handle)),
            old(handle).phase is Helping,
        ensures
            final(self).inv(),
            final(self).mirror() == old(self).mirror().insert(old(handle).id, *final(handle)),
            final(self).addresses() == old(self).addresses(),
            final(self)@ == old(self)@.release(old(handle).id),
            final(handle).id == old(handle).id,
            final(handle).next == old(handle).next,
            final(handle).phase is Idle,
            result == old(handle).phase.payload(),
    {
        let ghost pre = *self;
        let ghost id = handle.id;
        proof {
            assert(pre.inv_handle(id));
            pre.lemma_chain_node(pre.served@);
        }
        match handle.phase {
            Phase::Helping { current, count, result } => {
                let mut node = self.nodes.take(current);
                node.release_status_ready();
                self.nodes.put(current, node);
                handle.phase = Phase::Idle;
                self.handles = Ghost(pre.handles@.insert(id, *handle));
                self.combiner = Ghost(None);
                proof {
                    assert(self.nodes@.dom() =~= pre.nodes@.dom());
                    Self::lemma_ownership(pre, *self);
                    assert forall|u: nat| self.served@ < u <= self.registered@ implies
                        self.in_line(u, #[trigger] self.holder@[u]) by {
                        pre.lemma_line(u);
                        pre.lemma_chain_distinct(pre.served@, u);
                    }
                    assert forall|h: usize| #[trigger] self.handles@.contains_key(h) implies
                        self.inv_handle(h) by {
                        assert(pre.handles@.contains_key(h));
                        assert(pre.inv_handle(h));
                        if pre.handles@[h].phase is Waiting && pre.handles@[h].phase.ticket()
                            <= pre.served@ {
                            pre.lemma_private_node(h, pre.served@);
                        }
                    }
                    assert(self@.line =~= pre@.line);
                    assert(self@.ops =~= pre@.ops.remove(id)) by {
                        assert forall|h: usize| self@.ops.contains_key(h) implies
                            self.op_of(h) == pre.op_of(h) by {
                            assert(pre.handles@.contains_key(h));
                            assert(pre.inv_handle(h));
                            if pre.handles@[h].phase is Waiting && pre.handles@[h].phase.ticket()
                                <= pre.served@ {
                                pre.lemma_private_node(h, pre.served@);
                            }
                        }
                    }
                }
                result
            },
            _ => Payload::null(),
        }
    }

    /// One turn of `handle`: the step that the protocol has it take next.
    /// A request that is to be applied to the shared state is handed out;
    /// whoever took the turn applies it and reports with [`Self::apply_own`]
    /// or [`Self::help`].
    pub fn turn(&mut self, handle: &mut SynchHandle<T>) -> (turn: Turn<Payload<T>>)
        requires
            old(self).inv(),
            old(self).knows(*old(handle)),
            !(old(handle).phase is Idle),
        ensures
            final(self).inv(),
            final(self).mirror() == old(self).mirror().insert(old(handle).id, *final(handle)),
            final(self).addresses() == old(self).addresses(),
            (final(self)@, turn) == old(self)@.turn(old(handle).id),
            final(handle).id == old(handle).id,
            final(handle).phase is Idle <==> turn is Finished,
            turn is ApplyOwn ==> final(handle).phase is Elected,
            turn is Serve ==> final(handle).phase is Helping,
    {
        proof {
            assert(old(self).inv_handle(handle.id));
            if handle.phase.queued() {
                old(self).lemma_predecessor_status(handle.id);
            }
        }
        match handle.phase {
            Phase::Idle => Turn::Blocked,
            Phase::Registered { .. } => {
                self.observe(handle);
                Turn::Moved
            },
            Phase::Staged { .. } => {
                self.publish(handle);
                Turn::Moved
            },
            Phase::Waiting { .. } => {
                match self.spin(handle) {
                    Some(result) => Turn::Finished(result),
                    None => {
                        if handle.is_idle() {
                            Turn::Blocked
                        } else {
                            match handle.phase {
                                Phase::Elected { .. } => Turn::Moved,
                                _ => Turn::Blocked,
                            }
                        }
                    },
                }
            },
            Phase::Elected { request, .. } => {
                proof {
                    assert(self.handles@ =~= old(self).handles@.insert(handle.id, *handle));
                }
                Turn::ApplyOwn(request)
            },
            Phase::Helping { .. } => {
                match self.pending(handle) {
                    Some(request) => {
                        proof {
                            assert(self.handles@ =~= old(self).handles@.insert(handle.id, *handle));
                        }
                        Turn::Serve(request)
                    },
                    None => {
                        let result = self.release(handle);
                        Turn::Finished(result)
                    },
                }
            },
        }
    }
}

impl<T> SynchHandle<T> {
    /// Makes the handle of a thread that joins the combining object, under
    /// the identity `id`. The handle is idle and holds a node of its own.
    pub fn ccsynch_handle_init<A: Allocator>(
        synch: &mut Synch<T>,
        allocator: &mut A,
        id: usize,
    ) -> (handle: Self)
        requires
            old(allocator).wf(),
            old(synch).inv(),
            !old(synch).mirror().contains_key(id),
            forall|p: usize|
                old(synch).addresses().contains(p) ==> old(allocator).blocks().contains_key(p),
        ensures
            final(allocator).wf(),
            final(synch).inv(),
            handle.id == id,
            handle.phase is Idle,
            final(synch).mirror() == old(synch).mirror().insert(id, handle),
            final(synch)@ == old(synch)@,
            final(synch).addresses() == old(synch).addresses().insert(handle.next),
            !old(allocator).blocks().contains_key(handle.next),
            final(allocator).blocks() == old(allocator).blocks().insert(
                handle.next,
                CACHE_LINE_SIZE,
            ),
    {
        let ghost pre = *synch;
        let next = SynchNode::ccsynch_init_node(allocator, &mut synch.nodes);
        let handle = SynchHandle { id, next, phase: Phase::Idle };
        synch.handles = Ghost(pre.handles@.insert(id, handle));
        synch.owner = Ghost(pre.owner@.insert(next, id));
        proof {
            assert(!pre.nodes@.contains_key(next)) by {
                if pre.addresses().contains(next) {
                    assert(old(allocator).blocks().contains_key(next));
                }
            }
            assert forall|h: usize| synch.handles@.contains_key(h) implies {
                &&& (#[trigger] synch.handles@[h]).id == h
                &&& synch.nodes@.contains_key(synch.handles@[h].next)
                &&& synch.handles@[h].next != synch.tail
                &&& synch.owner@[synch.handles@[h].next] == h
            } by {
                if h != id {
                    assert(pre.handles@.contains_key(h));
                }
            }
            assert forall|a: usize|
                synch.nodes@.contains_key(a) && a != synch.tail implies
                synch.handles@.contains_key(#[trigger] synch.owner@[a])
                    && synch.handles@[synch.owner@[a]].next == a by {
                if a != next {
                    assert(pre.handles@.contains_key(pre.owner@[a]));
                }
            }
            assert forall|u: nat| synch.served@ < u <= synch.registered@ implies
                synch.in_line(u, #[trigger] synch.holder@[u]) by {
                pre.lemma_line(u);
                pre.lemma_chain_node(u);
            }
            assert forall|h: usize| #[trigger] synch.handles@.contains_key(h) implies
                synch.inv_handle(h) by {
                if h != id {
                    assert(pre.handles@.contains_key(h));
                    assert(pre.inv_handle(h));
                }
            }
            assert(synch.inv_combiner()) by {
                pre.lemma_chain_node(pre.served@);
                if let Some(c) = pre.combiner@ {
                    assert(pre.inv_handle(c));
                }
            }
            assert(synch@.line =~= pre@.line);
            assert(synch@.ops =~= pre@.ops) by {
                assert forall|h: usize| synch@.ops.contains_key(h) implies
                    synch.op_of(h) == pre.op_of(h) by {
                    assert(pre.handles@.contains_key(h));
                }
            }
        }
        handle
    }

    /// Takes the handle of a thread that leaves out of the combining object
    /// and frees the node that it holds.
    pub fn destroy<A: Allocator>(self, synch: &mut Synch<T>, allocator: &mut A)
        requires
            old(allocator).wf(),
            old(synch).inv(),
            old(synch).knows(self),
            self.phase is Idle,
            old(allocator).blocks().contains_pair(self.next, CACHE_LINE_SIZE),
        ensures
            final(allocator).wf(),
            final(synch).inv(),
            final(synch).mirror() == old(synch).mirror().remove(self.id),
            final(synch)@ == old(synch)@,
            old(synch).addresses().contains(self.next),
            final(synch).addresses() == old(synch).addresses().remove(self.next),
            final(allocator).blocks() == old(allocator).blocks().remove(self.next),
    {
        let ghost pre = *synch;
        let id = self.id;
        proof {
            assert(pre.handles@.contains_key(id));
            assert(pre.inv_handle(id));
        }
        let _ = synch.nodes.take(self.next);
        SynchNode::<T>::free_after_drop(self.next, allocator);
        synch.handles = Ghost(pre.handles@.remove(id));
        proof {
            assert forall|h: usize| synch.handles@.contains_key(h) implies {
                &&& (#[trigger] synch.handles@[h]).id == h
                &&& synch.nodes@.contains_key(synch.handles@[h].next)
                &&& synch.handles@[h].next != synch.tail
                &&& synch.owner@[synch.handles@[h].next] == h
            } by {
                assert(pre.handles@.contains_key(h));
            }
            assert forall|a: usize|
                synch.nodes@.contains_key(a) && a != synch.tail implies
                synch.handles@.contains_key(#[trigger] synch.owner@[a])
                    && synch.handles@[synch.owner@[a]].next == a by {
                assert(pre.handles@.contains_key(pre.owner@[a]));
            }
            assert forall|u: nat| synch.served@ < u <= synch.registered@ implies
                synch.in_line(u, #[trigger] synch.holder@[u]) by {
                pre.lemma_line(u);
                pre.lemma_chain_node(u);
                pre.lemma_private_node(id, u);
                pre.lemma_private_node(id, (u - 1) as nat);
            }
            assert forall|h: usize| #[trigger] synch.handles@.contains_key(h) implies
                synch.inv_handle(h) by {
                assert(pre.handles@.contains_key(h));
                assert(pre.inv_handle(h));
            }
            assert(synch.inv_combiner()) by {
                pre.lemma_private_node(id, pre.served@);
                if let Some(c) = pre.combiner@ {
                    assert(pre.inv_handle(c));
                }
            }
            assert(synch@.line =~= pre@.line);
            assert(synch@.ops =~= pre@.ops) by {
                assert forall|h: usize| synch@.ops.contains_key(h) implies
                    synch.op_of(h) == pre.op_of(h) by {
                    assert(pre.handles@.contains_key(h));
                }
            }
        }
    }
}

impl<T> Synch<T> {
    /// Without handles, the one node of the object is the tail.
    pub proof fn lemma_lone_tail(&self)
        requires
            self.inv(),
            self.mirror().dom().is_empty(),
        ensures
            self.addresses() == set![self.tail_address()],
            self@ == SynchView::<Payload<T>>::quiescent(),
    {
        assert forall|a: usize| self.nodes@.contains_key(a) implies a == self.tail by {
            if a != self.tail {
                assert(self.handles@.contains_key(self.owner@[a]));
            }
        }
        assert(self.nodes@.dom() =~= set![self.tail]);
        if self.served@ < self.registered@ {
            self.lemma_line(self.registered@);
        }
        if let Some(c) = self.combiner@ {
            assert(self.handles@.contains_key(c));
        }
        assert(self@.line =~= Seq::<usize>::empty());
        assert(self@.ops =~= Map::<usize, Op<Payload<T>>>::empty());
    }

    /// The node that a handle holds is one of the object's nodes, and not
    /// the tail.
    pub proof fn lemma_handle_node(&self, handle: SynchHandle<T>)
        requires
            self.inv(),
            self.knows(handle),
        ensures
            self.addresses().contains(handle.next),
            handle.next != self.tail_address(),
            self.addresses().contains(self.tail_address()),
    {
        assert(self.handles@.contains_key(handle.id));
    }

    /// The address of the node that the latest registration swapped in.
    pub closed spec fn tail_address(&self) -> usize {
        self.tail
    }

    /// Frees the node of a combining object that no handle is registered
    /// with.
    pub fn destroy<A: Allocator>(self, allocator: &mut A)
        requires
            old(allocator).wf(),
            self.inv(),
            self.mirror().dom().is_empty(),
            old(allocator).blocks().contains_pair(self.tail_address(), CACHE_LINE_SIZE),
        ensures
            final(allocator).wf(),
            self.addresses() == set![self.tail_address()],
            final(allocator).blocks() == old(allocator).blocks().remove(self.tail_address()),
    {
        proof {
            self.lemma_lone_tail();
        }
        SynchNode::<T>::free_after_drop(self.tail, allocator);
    }
}

} // verus!
