//! Typed memory cells addressed by allocator-provided addresses.
use std::collections::HashMap;
use vstd::prelude::*;
use vstd::std_specs::hash::*;

verus! {

broadcast use group_hash_axioms;

/// A set of cells of one type, each living at a distinct address.
///
/// The arena does not choose addresses; whoever stores a value decides where it
/// lives. Its view is the map from occupied addresses to cell contents.
pub struct Arena<V> {
    cells: HashMap<usize, V>,
}

impl<V> View for Arena<V> {
    type V = Map<usize, V>;

    closed spec fn view(&self) -> Map<usize, V> {
        self.cells@
    }
}

impl<V> Arena<V> {
    /// An arena without any cell.
    pub fn new() -> (arena: Self)
        ensures
            arena@ == Map::<usize, V>::empty(),
    {
        Arena { cells: HashMap::new() }
    }

    /// The occupied addresses are finitely many.
    pub proof fn lemma_finite(&self)
        ensures
            self@.dom().finite(),
    {
    }

    /// Whether a cell lives at `address`.
    pub fn contains(&self, address: usize) -> (present: bool)
        ensures
            present == self@.contains_key(address),
    {
        self.cells.contains_key(&address)
    }

    /// Borrows the cell at `address`.
    pub fn get(&self, address: usize) -> (cell: &V)
        requires
            self@.contains_key(address),
        ensures
            *cell == self@[address],
    {
        let found = self.cells.get(&address);
        found.unwrap()
    }

    /// Stores `value` at `address`, replacing what was there.
    pub fn put(&mut self, address: usize, value: V)
        ensures
            final(self)@ == old(self)@.insert(address, value),
    {
        let _ = self.cells.insert(address, value);
    }

    /// Moves the cell at `address` out of the arena.
    pub fn take(&mut self, address: usize) -> (value: V)
        requires
            old(self)@.contains_key(address),
        ensures
            value == old(self)@[address],
            final(self)@ == old(self)@.remove(address),
    {
        let found = self.cells.remove(&address);
        found.unwrap()
    }

    /// Whether the arena holds no cell at all.
    pub fn is_empty(&self) -> (empty: bool)
        ensures
            empty == self@.dom().is_empty(),
    {
        proof {
            self.lemma_finite();
            if self@.dom().is_empty() {
                assert(self@.dom() =~= Set::empty());
            } else {
                assert(self@.dom().len() != 0) by {
                    if self@.dom().len() == 0 {
                        self@.dom().lemma_len0_is_empty();
                    }
                }
            }
        }
        self.cells.len() == 0
    }
}

} // verus!
