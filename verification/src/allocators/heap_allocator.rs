use super::allocator::Allocator;
use vstd::prelude::*;

verus! {

/// A heap allocator hands out blocks of an address space of its own.
///
/// Block number `i` lives at address `i + 1`, so that no block is at the null
/// address. Freed blocks are handed out again before the space grows.
#[derive(Debug)]
pub struct HeapAllocator {
    /// For each block ever created, its alignment class, or 0 while it is free.
    classes: Vec<usize>,
    /// The addresses of the free blocks.
    free_list: Vec<usize>,
    /// The number of blocks allocated so far.
    allocations: u64,
}

impl Clone for HeapAllocator {
    /// A copy of the allocator as it is: it knows the same live blocks, and
    /// from then on goes its own way.
    fn clone(&self) -> (copy: Self)
        ensures
            self.wf() ==> copy.wf(),
            copy.blocks() == self.blocks(),
            copy.allocation_count() == self.allocation_count(),
    {
        let copy = HeapAllocator {
            classes: self.classes.clone(),
            free_list: self.free_list.clone(),
            allocations: self.allocations,
        };
        proof {
            assert(copy.classes@ =~= self.classes@);
            assert(copy.free_list@ =~= self.free_list@);
            assert(copy.blocks() =~= self.blocks());
            if self.wf() {
                assert forall|i: int| 0 <= i < copy.free_list.len() implies
                    copy.is_free(#[trigger] copy.free_list[i]) by {
                    assert(self.is_free(self.free_list[i]));
                }
                assert forall|p: usize| copy.is_free(p) implies copy.free_list@.contains(p) by {
                    assert(self.is_free(p));
                }
            }
        }
        copy
    }
}

impl HeapAllocator {
    /// An allocator without any live block.
    pub fn new() -> (allocator: Self)
        ensures
            allocator.wf(),
            allocator.blocks() == Map::<usize, usize>::empty(),
            allocator.allocation_count() == 0,
    {
        let allocator = HeapAllocator {
            classes: Vec::new(),
            free_list: Vec::new(),
            allocations: 0,
        };
        assert(allocator.blocks() =~= Map::<usize, usize>::empty());
        allocator
    }

    /// How many blocks were allocated so far, counting each call that
    /// returned one. The count stops at the largest value it can hold.
    pub fn allocations(&self) -> (count: u64)
        ensures
            count == self.allocation_count(),
    {
        self.allocations
    }

    /// Whether no block is live: every block that was allocated was freed.
    pub fn is_unused(&self) -> (unused: bool)
        ensures
            unused == (self.blocks() == Map::<usize, usize>::empty()),
    {
        let mut index: usize = 0;
        while index < self.classes.len()
            invariant
                index <= self.classes.len(),
                forall|j: int| 0 <= j < index ==> self.classes[j] == 0,
            decreases self.classes.len() - index,
        {
            if self.classes[index] != 0 {
                proof {
                    assert(self.blocks().contains_key((index + 1) as usize));
                }
                return false;
            }
            index = index + 1;
        }
        proof {
            assert(self.blocks() =~= Map::<usize, usize>::empty());
        }
        true
    }

    /// The value that [`Self::allocations`] returns.
    pub closed spec fn allocation_count(&self) -> u64 {
        self.allocations
    }

    spec fn is_live(&self, pointer: usize) -> bool {
        1 <= pointer <= self.classes.len() && self.classes[pointer - 1] != 0
    }

    spec fn is_free(&self, pointer: usize) -> bool {
        1 <= pointer <= self.classes.len() && self.classes[pointer - 1] == 0
    }
}

impl Allocator for HeapAllocator {
    closed spec fn blocks(&self) -> Map<usize, usize> {
        Map::new(|p: usize| self.is_live(p), |p: usize| self.classes[p - 1])
    }

    closed spec fn wf(&self) -> bool {
        &&& self.free_list@.no_duplicates()
        &&& forall|i: int|
            0 <= i < self.free_list.len() ==> self.is_free(#[trigger] self.free_list[i])
        &&& forall|p: usize| self.is_free(p) ==> self.free_list@.contains(p)
    }

    fn align_malloc(&mut self, alignment: usize) -> (pointer: usize)
        ensures
            final(self).allocation_count() == if old(self).allocation_count() < u64::MAX {
                old(self).allocation_count() + 1
            } else {
                u64::MAX as int
            },
    {
        if self.allocations < u64::MAX {
            self.allocations = self.allocations + 1;
        }
        let reused = self.free_list.pop();
        let pointer: usize = match reused {
            Some(free) => {
                assert(old(self).is_free(old(self).free_list[old(self).free_list.len() - 1]));
                self.classes[free - 1] = alignment;
                free
            },
            None => {
                self.classes.push(alignment);
                self.classes.len()
            },
        };
        proof {
            assert(self.blocks() =~= old(self).blocks().insert(pointer, alignment));
            assert forall|p: usize| self.is_free(p) implies self.free_list@.contains(p) by {
                assert(old(self).is_free(p));
                let i = choose|i: int|
                    0 <= i < old(self).free_list.len() && old(self).free_list[i] == p;
                assert(self.free_list[i] == p);
            }
        }
        pointer
    }

    fn free_page_size(&mut self, pointer: usize)
        ensures
            final(self).allocation_count() == old(self).allocation_count(),
    {
        self.free(pointer)
    }

    fn free_cache_line_size(&mut self, pointer: usize)
        ensures
            final(self).allocation_count() == old(self).allocation_count(),
    {
        self.free(pointer)
    }

    fn free(&mut self, pointer: usize)
        ensures
            final(self).allocation_count() == old(self).allocation_count(),
    {
        self.classes[pointer - 1] = 0;
        self.free_list.push(pointer);
        proof {
            assert(self.blocks() =~= old(self).blocks().remove(pointer));
            assert forall|i: int| 0 <= i < self.free_list.len() implies
                self.is_free(#[trigger] self.free_list[i]) by {
                if i < old(self).free_list.len() {
                    assert(old(self).is_free(old(self).free_list[i]));
                }
            }
            assert forall|p: usize| self.is_free(p) implies self.free_list@.contains(p) by {
                if p == pointer {
                    assert(self.free_list[self.free_list.len() - 1] == p);
                } else {
                    assert(old(self).is_free(p));
                    let i = choose|i: int|
                        0 <= i < old(self).free_list.len() && old(self).free_list[i] == p;
                    assert(self.free_list[i] == p);
                }
            }
            assert(self.free_list@.no_duplicates()) by {
                assert forall|i: int, j: int|
                    0 <= i < self.free_list.len() && 0 <= j < self.free_list.len() && i != j implies
                    self.free_list[i] != self.free_list[j] by {
                    if i < old(self).free_list.len() {
                        assert(old(self).is_free(old(self).free_list[i]));
                    }
                    if j < old(self).free_list.len() {
                        assert(old(self).is_free(old(self).free_list[j]));
                    }
                }
            }
        }
    }
}

} // verus!
