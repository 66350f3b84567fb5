use crate::allocators::allocator::Allocator;
use crate::allocators::allocator::CACHE_LINE_SIZE;
use crate::arena::Arena;
use vstd::prelude::*;

verus! {

/// A queue node: one element of the singly linked list that is the queue.
///
/// The node at the head of the list is a sentinel and carries no item; every
/// node behind it carries one.
pub struct Node<T> {
    /// The successor, none for the last node.
    pub next: Option<usize>,
    /// The item, none for the sentinel.
    pub data: Option<T>,
}

/// Whether the node at place `i` of `chain` is in `nodes` and is followed by
/// the node at the next place, or by none if it is the last.
pub open spec fn linked<T>(nodes: Map<usize, Node<T>>, chain: Seq<usize>, i: int) -> bool {
    &&& nodes.contains_key(chain[i])
    &&& nodes[chain[i]].next == if i + 1 < chain.len() {
        Some(chain[i + 1])
    } else {
        None
    }
}

/// Whether `chain` lists the nodes of a linked list in `nodes`, from its first
/// node to its last, each once.
pub open spec fn is_chain<T>(nodes: Map<usize, Node<T>>, chain: Seq<usize>) -> bool {
    &&& chain.len() > 0
    &&& chain.no_duplicates()
    &&& forall|i: int| 0 <= i < chain.len() ==> #[trigger] linked(nodes, chain, i)
}

impl<T> Node<T> {
    /// Allocates the sentinel of an empty queue and stores it in `nodes`.
    /// Returns its address.
    pub fn dummy_node<A: Allocator>(allocator: &mut A, nodes: &mut Arena<Self>) -> (this: usize)
        requires
            old(allocator).wf(),
        ensures
            final(allocator).wf(),
            !old(allocator).blocks().contains_key(this),
            final(allocator).blocks() == old(allocator).blocks().insert(this, CACHE_LINE_SIZE),
            final(nodes)@ == old(nodes)@.insert(this, Node { next: None, data: None }),
    {
        let this = allocator.align_malloc_cache_line_size();
        nodes.put(this, Node { next: None, data: None });
        this
    }

    /// Gives the block of a node that left its arena back to the allocator.
    pub fn free_after_drop<A: Allocator>(this: usize, allocator: &mut A)
        requires
            old(allocator).wf(),
            old(allocator).blocks().contains_pair(this, CACHE_LINE_SIZE),
        ensures
            final(allocator).wf(),
            final(allocator).blocks() == old(allocator).blocks().remove(this),
    {
        allocator.free_cache_line_size(this)
    }

    /// Walks the list that starts at `this`: hands the item of every node that
    /// carries one to `free_data`, takes the node out of `nodes` and frees its
    /// block.
    pub fn clearing_queue_drop<A: Allocator, FreeData: Fn(T)>(
        this: usize,
        nodes: &mut Arena<Self>,
        allocator: &mut A,
        free_data: &FreeData,
        Ghost(chain): Ghost<Seq<usize>>,
    )
        requires
            old(allocator).wf(),
            is_chain(old(nodes)@, chain),
            chain[0] == this,
            forall|i: int|
                0 <= i < chain.len() ==> old(allocator).blocks().contains_pair(
                    #[trigger] chain[i],
                    CACHE_LINE_SIZE,
                ),
            forall|item: T| call_requires(free_data, (item,)),
        ensures
            final(allocator).wf(),
            final(nodes)@ == old(nodes)@.remove_keys(chain.to_set()),
            final(allocator).blocks() == old(allocator).blocks().remove_keys(chain.to_set()),
            forall|i: int|
                0 <= i < chain.len() ==> (old(nodes)@[#[trigger] chain[i]].data matches Some(item)
                    ==> call_ensures(free_data, (item,), ())),
    {
        let mut current = this;
        let ghost mut index: int = 0;
        proof {
            assert forall|j: int| 0 <= j < chain.len() implies
                nodes@.contains_key(#[trigger] chain[j]) by {
                assert(linked(nodes@, chain, j));
            }
        }
        loop
            invariant_except_break
                0 <= index < chain.len(),
                current == chain[index],
            invariant
                0 <= index <= chain.len(),
                allocator.wf(),
                is_chain(old(nodes)@, chain),
                forall|item: T| call_requires(free_data, (item,)),
                forall|i: int|
                    0 <= i < chain.len() ==> old(allocator).blocks().contains_pair(
                        #[trigger] chain[i],
                        CACHE_LINE_SIZE,
                    ),
                forall|j: int|
                    index <= j < chain.len() ==> nodes@.contains_key(#[trigger] chain[j])
                        && allocator.blocks().contains_pair(chain[j], CACHE_LINE_SIZE),
                forall|j: int|
                    0 <= j < index ==> !nodes@.contains_key(#[trigger] chain[j])
                        && !allocator.blocks().contains_key(chain[j]),
                forall|a: usize|
                    #![trigger nodes@.contains_key(a)]
                    nodes@.contains_key(a) ==> old(nodes)@.contains_key(a) && nodes@[a] == old(
                        nodes,
                    )@[a],
                forall|a: usize|
                    old(nodes)@.contains_key(a) && !chain.contains(a) ==> nodes@.contains_key(a),
                forall|a: usize|
                    #![trigger allocator.blocks().contains_key(a)]
                    allocator.blocks().contains_key(a) ==> old(allocator).blocks().contains_key(a)
                        && allocator.blocks()[a] == old(allocator).blocks()[a],
                forall|a: usize|
                    old(allocator).blocks().contains_key(a) && !chain.contains(a)
                        ==> allocator.blocks().contains_key(a),
                forall|i: int|
                    0 <= i < index ==> (old(nodes)@[#[trigger] chain[i]].data matches Some(item)
                        ==> call_ensures(free_data, (item,), ())),
            ensures
                index == chain.len(),
            decreases chain.len() - index,
        {
            let ghost before = nodes@;
            let ghost blocks_before = allocator.blocks();
            assert(linked(old(nodes)@, chain, index));
            assert(nodes@.contains_key(chain[index]));
            let node = nodes.take(current);
            match node.data {
                Some(item) => {
                    free_data(item);
                },
                None => {},
            }
            Self::free_after_drop(current, allocator);
            proof {
                assert forall|j: int|
                    index + 1 <= j < chain.len() implies
                    nodes@.contains_key(#[trigger] chain[j])
                        && allocator.blocks().contains_pair(chain[j], CACHE_LINE_SIZE) by {
                    assert(before.contains_key(chain[j]));
                    assert(blocks_before.contains_pair(chain[j], CACHE_LINE_SIZE));
                }
                assert forall|a: usize| old(nodes)@.contains_key(a) && !chain.contains(a) implies
                    nodes@.contains_key(a) by {
                    assert(before.contains_key(a));
                }
                assert forall|a: usize|
                    old(allocator).blocks().contains_key(a) && !chain.contains(a) implies
                    allocator.blocks().contains_key(a) by {
                    assert(blocks_before.contains_key(a));
                }
                index = index + 1;
            }
            match node.next {
                Some(next) => {
                    current = next;
                },
                None => {
                    break ;
                },
            }
        }
        proof {
            assert forall|j: int| 0 <= j < chain.len() implies
                old(nodes)@.contains_key(#[trigger] chain[j]) by {
                assert(linked(old(nodes)@, chain, j));
            }
            assert forall|a: usize| chain.contains(a) implies
                !nodes@.contains_key(a) && !allocator.blocks().contains_key(a) by {
                let j = choose|j: int| 0 <= j < chain.len() && chain[j] == a;
                assert(!nodes@.contains_key(chain[j]));
            }
            assert(nodes@ =~= old(nodes)@.remove_keys(chain.to_set()));
            assert(allocator.blocks() =~= old(allocator).blocks().remove_keys(chain.to_set()));
        }
    }
}

} // verus!
