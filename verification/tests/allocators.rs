use cc_queue::allocators::Allocator;
use cc_queue::allocators::HeapAllocator;
use cc_queue::allocators::CACHE_LINE_SIZE;
use cc_queue::allocators::PAGE_SIZE;
use cc_queue::arena::Arena;

#[test]
fn the_alignment_classes() {
    assert_eq!(PAGE_SIZE, 4096);
    assert_eq!(CACHE_LINE_SIZE, 64);
}

#[test]
fn blocks_are_at_distinct_addresses_and_never_at_null() {
    let mut allocator = HeapAllocator::new();
    let first: usize = allocator.align_malloc_page_size();
    let second: usize = allocator.align_malloc_cache_line_size();
    let third: usize = allocator.align_malloc(CACHE_LINE_SIZE);
    assert_ne!(first, 0);
    assert_ne!(second, 0);
    assert_ne!(third, 0);
    assert_ne!(first, second);
    assert_ne!(first, third);
    assert_ne!(second, third);
    assert_eq!(allocator.allocations(), 3);
    assert!(!allocator.is_unused());
}

#[test]
fn a_freed_block_is_handed_out_again() {
    let mut allocator = HeapAllocator::new();
    let first: usize = allocator.align_malloc_page_size();
    let second: usize = allocator.align_malloc_cache_line_size();
    allocator.free_page_size(first);
    let third: usize = allocator.align_malloc_cache_line_size();
    assert_eq!(third, first);
    assert_ne!(third, second);
    allocator.free_cache_line_size(second);
    allocator.free(third);
    assert!(allocator.is_unused());
    assert_eq!(allocator.allocations(), 3);
}

#[test]
fn a_new_allocator_is_unused() {
    let allocator = HeapAllocator::new();
    assert!(allocator.is_unused());
    assert_eq!(allocator.allocations(), 0);
}

#[test]
fn an_arena_keeps_cells_by_address() {
    let mut arena: Arena<String> = Arena::new();
    assert!(arena.is_empty());
    assert!(!arena.contains(7));
    arena.put(7, String::from("seven"));
    arena.put(9, String::from("nine"));
    assert!(arena.contains(7));
    assert!(!arena.is_empty());
    assert_eq!(arena.get(9), "nine");
    arena.put(9, String::from("neun"));
    assert_eq!(arena.get(9), "neun");
    assert_eq!(arena.take(7), "seven");
    assert!(!arena.contains(7));
    assert_eq!(arena.take(9), "neun");
    assert!(arena.is_empty());
}
