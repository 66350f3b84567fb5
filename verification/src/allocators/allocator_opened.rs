use super::allocator::Allocator;
use vstd::prelude::*;

verus! {

/// For objects that reset state when an allocator is opened.
///
/// An allocator over persistent or memory-mapped storage is opened anew when
/// the storage is attached; whatever an object kept that does not survive
/// this is rebuilt in `allocator_opened`.
pub trait AllocatorOpened<A: Allocator>: Sized {
    /// Whether `allocator` is one this object can be reopened with.
    spec fn reopens_with(&self, allocator: &A) -> bool;

    /// The allocator was opened: resets temporary state and adopts it.
    fn allocator_opened(&mut self, allocator: A)
        requires
            old(self).reopens_with(&allocator),
    ;
}

} // verus!
