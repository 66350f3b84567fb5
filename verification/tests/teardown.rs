use cc_queue::allocators::AllocatorOpened;
use cc_queue::allocators::HeapAllocator;
use cc_queue::cc_queue::CcQueue;
use cc_queue::queue::Queue;
use cc_queue::queue_view::Progress;
use std::cell::RefCell;

#[test]
fn clear_hands_every_item_to_the_callback_once() {
    let mut queue: CcQueue<&'static str, HeapAllocator> = CcQueue::new(HeapAllocator::new());
    let mut handle = queue.new_per_thread_handle();
    assert!(matches!(handle.enqueue(&mut queue, "A"), Progress::Enqueued));
    assert!(matches!(handle.enqueue(&mut queue, "B"), Progress::Enqueued));
    assert!(matches!(handle.enqueue(&mut queue, "C"), Progress::Enqueued));
    queue.drop_per_thread_handle(handle);
    assert!(queue.is_without_handles());
    let seen: RefCell<Vec<&'static str>> = RefCell::new(Vec::new());
    queue.clear(|item| seen.borrow_mut().push(item));
    let mut seen = seen.into_inner();
    seen.sort();
    assert_eq!(seen, vec!["A", "B", "C"]);
    let allocator = queue.destroy();
    assert!(allocator.is_unused());
}

#[test]
fn clear_does_not_hand_out_items_that_were_dequeued() {
    let mut queue: CcQueue<u64, HeapAllocator> = CcQueue::new(HeapAllocator::new());
    let mut handle = queue.new_per_thread_handle();
    for item in 1..=4u64 {
        assert!(matches!(handle.enqueue(&mut queue, item), Progress::Enqueued));
    }
    assert!(matches!(handle.dequeue(&mut queue), Progress::Dequeued(Some(1))));
    assert!(matches!(handle.dequeue(&mut queue), Progress::Dequeued(Some(2))));
    queue.drop_per_thread_handle(handle);
    let seen: RefCell<Vec<u64>> = RefCell::new(Vec::new());
    queue.clear(|item| seen.borrow_mut().push(item));
    assert_eq!(seen.into_inner(), vec![3, 4]);
}

#[test]
fn a_cleared_queue_is_empty_and_works_on() {
    let mut queue: CcQueue<u64, HeapAllocator> = CcQueue::new(HeapAllocator::new());
    let mut handle = queue.new_per_thread_handle();
    assert!(matches!(handle.enqueue(&mut queue, 1), Progress::Enqueued));
    queue.drop_per_thread_handle(handle);
    queue.clear(|_item| {});
    let seen: RefCell<Vec<u64>> = RefCell::new(Vec::new());
    queue.clear(|item| seen.borrow_mut().push(item));
    assert!(seen.into_inner().is_empty());
    let mut handle = queue.new_per_thread_handle();
    assert!(matches!(handle.dequeue(&mut queue), Progress::Dequeued(None)));
    assert!(matches!(handle.enqueue(&mut queue, 2), Progress::Enqueued));
    assert!(matches!(handle.dequeue(&mut queue), Progress::Dequeued(Some(2))));
}

#[test]
fn destroy_frees_every_block_of_the_queue() {
    let mut allocator = HeapAllocator::new();
    assert!(allocator.is_unused());
    let queue: CcQueue<u64, HeapAllocator> = CcQueue::new(allocator);
    assert!(!queue.allocator_ref().is_unused());
    allocator = queue.destroy();
    assert!(allocator.is_unused());
    let mut queue: CcQueue<u64, HeapAllocator> = CcQueue::new(allocator);
    let mut first = queue.new_per_thread_handle();
    let mut second = queue.new_per_thread_handle();
    for item in 0..10u64 {
        assert!(matches!(first.enqueue(&mut queue, item), Progress::Enqueued));
    }
    for _ in 0..4 {
        assert!(matches!(second.dequeue(&mut queue), Progress::Dequeued(Some(_))));
    }
    queue.drop_per_thread_handle(first);
    queue.drop_per_thread_handle(second);
    let allocator = queue.destroy();
    assert!(allocator.is_unused());
}

#[test]
fn the_queue_knows_its_handles() {
    let mut queue: CcQueue<u64, HeapAllocator> = CcQueue::new(HeapAllocator::new());
    assert!(queue.is_without_handles());
    let handle = queue.new_per_thread_handle();
    let other = queue.new_per_thread_handle();
    assert!(queue.owns(&handle));
    assert!(queue.owns(&other));
    assert!(!queue.is_without_handles());
    assert!(queue.is_idle(&handle));
    queue.drop_per_thread_handle(handle);
    assert!(!queue.is_without_handles());
    assert!(queue.owns(&other));
    queue.drop_per_thread_handle(other);
    assert!(queue.is_without_handles());
}

#[test]
fn a_handle_that_left_gives_its_blocks_back() {
    let mut queue: CcQueue<u64, HeapAllocator> = CcQueue::new(HeapAllocator::new());
    let handle = queue.new_per_thread_handle();
    queue.drop_per_thread_handle(handle);
    let before: u64 = queue.allocator_ref().allocations();
    let mut handle = queue.new_per_thread_handle();
    assert_eq!(queue.allocator_ref().allocations(), before + 4);
    assert!(matches!(handle.enqueue(&mut queue, 1), Progress::Enqueued));
    assert!(matches!(handle.enqueue(&mut queue, 2), Progress::Enqueued));
    assert!(matches!(handle.dequeue(&mut queue), Progress::Dequeued(Some(1))));
    queue.drop_per_thread_handle(handle);
    let allocator = queue.destroy();
    assert!(allocator.is_unused());
}

#[test]
fn a_reopened_queue_keeps_its_items() {
    let mut queue: CcQueue<u64, HeapAllocator> = CcQueue::new(HeapAllocator::new());
    let mut handle = queue.new_per_thread_handle();
    assert!(matches!(handle.enqueue(&mut queue, 1), Progress::Enqueued));
    assert!(matches!(handle.enqueue(&mut queue, 2), Progress::Enqueued));
    queue.drop_per_thread_handle(handle);
    let reopened = queue.allocator_ref().clone();
    queue.allocator_opened(reopened);
    assert!(queue.is_without_handles());
    let mut handle = queue.new_per_thread_handle();
    assert!(matches!(handle.dequeue(&mut queue), Progress::Dequeued(Some(1))));
    assert!(matches!(handle.dequeue(&mut queue), Progress::Dequeued(Some(2))));
    assert!(matches!(handle.dequeue(&mut queue), Progress::Dequeued(None)));
    queue.drop_per_thread_handle(handle);
    let allocator = queue.destroy();
    assert!(allocator.is_unused());
}

#[test]
fn a_reopened_plain_queue_is_still_empty() {
    let mut queue: Queue<u64, HeapAllocator> = Queue::new(HeapAllocator::new());
    let reopened = queue.cc_queue().allocator_ref().clone();
    queue.allocator_opened(reopened);
    let mut handle = queue.new_per_thread_handle();
    assert!(matches!(handle.dequeue(queue.cc_queue()), Progress::Dequeued(None)));
}

#[test]
fn the_plain_queue_is_made_empty() {
    let mut queue: Queue<u64, HeapAllocator> = Queue::new(HeapAllocator::new());
    let mut handle = queue.new_per_thread_handle();
    assert!(matches!(handle.dequeue(queue.cc_queue()), Progress::Dequeued(None)));
    queue.cc_queue().drop_per_thread_handle(handle);
    let handle = queue.new_per_thread_handle();
    queue.drop_per_thread_handle(handle);
    let allocator = queue.destroy();
    assert!(allocator.is_unused());
}
