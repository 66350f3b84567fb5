//! Allocators decide where the queue's nodes and handles live.
//!
//! An allocator hands out addresses of blocks and takes them back. The queue
//! is parametric over it, so that the backing memory can be the heap or, for
//! instance, a persistent or memory-mapped region.
pub mod allocator;
pub mod allocator_opened;
pub mod heap_allocator;

pub use allocator::one_less;
pub use allocator::one_more;
pub use allocator::Allocator;
pub use allocator::CACHE_LINE_SIZE;
pub use allocator::PAGE_SIZE;
pub use allocator_opened::AllocatorOpened;
pub use heap_allocator::HeapAllocator;
