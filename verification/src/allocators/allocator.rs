use vstd::prelude::*;

verus! {

/// Alignment of the blocks that hold a queue or a per-thread handle.
pub const PAGE_SIZE: usize = 4096;

/// Alignment of the blocks that hold a single node.
pub const CACHE_LINE_SIZE: usize = 64;

/// Whether `alignment` is one of the two alignment classes in use.
pub open spec fn is_alignment_class(alignment: usize) -> bool {
    alignment == PAGE_SIZE || alignment == CACHE_LINE_SIZE
}

/// Whether `after` is `before` with one more block, of the given alignment
/// class, at an address that was not live.
pub open spec fn one_more(
    before: Map<usize, usize>,
    after: Map<usize, usize>,
    alignment: usize,
) -> bool {
    exists|p: usize| !before.contains_key(p) && after == #[trigger] before.insert(p, alignment)
}

/// Whether `after` is `before` less one block of the given alignment class.
pub open spec fn one_less(
    before: Map<usize, usize>,
    after: Map<usize, usize>,
    alignment: usize,
) -> bool {
    exists|p: usize| before.contains_pair(p, alignment) && after == #[trigger] before.remove(p)
}

/// An allocator allocates and frees memory.
///
/// Its state is the map of live blocks: the address of every block that was
/// handed out and not yet freed, with the alignment class it was asked for.
/// A block must be given back with the class it was allocated with.
pub trait Allocator: Sized {
    /// The live blocks, each with its alignment class.
    spec fn blocks(&self) -> Map<usize, usize>;

    /// The allocator's own consistency.
    spec fn wf(&self) -> bool;

    /// Allocates a block aligned on page size.
    fn align_malloc_page_size(&mut self) -> (pointer: usize)
        requires
            old(self).wf(),
        ensures
            final(self).wf(),
            pointer != 0,
            !old(self).blocks().contains_key(pointer),
            final(self).blocks() == old(self).blocks().insert(pointer, PAGE_SIZE),
    {
        self.align_malloc(PAGE_SIZE)
    }

    /// Allocates a block aligned on cache line size.
    fn align_malloc_cache_line_size(&mut self) -> (pointer: usize)
        requires
            old(self).wf(),
        ensures
            final(self).wf(),
            pointer != 0,
            !old(self).blocks().contains_key(pointer),
            final(self).blocks() == old(self).blocks().insert(pointer, CACHE_LINE_SIZE),
    {
        self.align_malloc(CACHE_LINE_SIZE)
    }

    /// Allocates a block of the given alignment class. The address is never
    /// null and is not that of any live block.
    fn align_malloc(&mut self, alignment: usize) -> (pointer: usize)
        requires
            old(self).wf(),
            is_alignment_class(alignment),
        ensures
            final(self).wf(),
            pointer != 0,
            !old(self).blocks().contains_key(pointer),
            final(self).blocks() == old(self).blocks().insert(pointer, alignment),
    ;

    /// Frees a live block that was aligned on page size.
    fn free_page_size(&mut self, pointer: usize)
        requires
            old(self).wf(),
            old(self).blocks().contains_pair(pointer, PAGE_SIZE),
        ensures
            final(self).wf(),
            final(self).blocks() == old(self).blocks().remove(pointer),
    ;

    /// Frees a live block that was aligned on cache line size.
    fn free_cache_line_size(&mut self, pointer: usize)
        requires
            old(self).wf(),
            old(self).blocks().contains_pair(pointer, CACHE_LINE_SIZE),
        ensures
            final(self).wf(),
            final(self).blocks() == old(self).blocks().remove(pointer),
    ;

    /// Frees a live block of either class.
    fn free(&mut self, pointer: usize)
        requires
            old(self).wf(),
            old(self).blocks().contains_key(pointer),
        ensures
            final(self).wf(),
            final(self).blocks() == old(self).blocks().remove(pointer),
    ;
}

} // verus!
