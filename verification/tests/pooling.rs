use cc_queue::allocators::HeapAllocator;
use cc_queue::cc_queue::CcQueue;
use cc_queue::queue_view::Progress;

#[test]
fn round_trips_on_one_handle_allocate_nothing() {
    let mut queue: CcQueue<u64, HeapAllocator> = CcQueue::new(HeapAllocator::new());
    let mut handle = queue.new_per_thread_handle();
    let before: u64 = queue.allocator_ref().allocations();
    for item in 0..100u64 {
        assert!(matches!(handle.enqueue(&mut queue, item), Progress::Enqueued));
        assert!(matches!(handle.dequeue(&mut queue), Progress::Dequeued(Some(_))));
        assert_eq!(queue.allocator_ref().allocations(), before);
    }
}

#[test]
fn an_enqueue_without_a_recycled_node_allocates_one_block() {
    let mut queue: CcQueue<u64, HeapAllocator> = CcQueue::new(HeapAllocator::new());
    let mut handle = queue.new_per_thread_handle();
    let before: u64 = queue.allocator_ref().allocations();
    assert!(matches!(handle.enqueue(&mut queue, 1), Progress::Enqueued));
    assert_eq!(queue.allocator_ref().allocations(), before);
    assert!(matches!(handle.enqueue(&mut queue, 2), Progress::Enqueued));
    assert_eq!(queue.allocator_ref().allocations(), before + 1);
    assert!(matches!(handle.enqueue(&mut queue, 3), Progress::Enqueued));
    assert_eq!(queue.allocator_ref().allocations(), before + 2);
}

#[test]
fn a_dequeue_keeps_one_node_and_frees_the_others() {
    let mut queue: CcQueue<u64, HeapAllocator> = CcQueue::new(HeapAllocator::new());
    let mut handle = queue.new_per_thread_handle();
    for item in 0..3u64 {
        assert!(matches!(handle.enqueue(&mut queue, item), Progress::Enqueued));
    }
    let allocated: u64 = queue.allocator_ref().allocations();
    for item in 0..3u64 {
        match handle.dequeue(&mut queue) {
            Progress::Dequeued(found) => assert_eq!(found, Some(item)),
            _ => panic!("the dequeue did not complete"),
        }
    }
    for item in 0..3u64 {
        assert!(matches!(handle.enqueue(&mut queue, item), Progress::Enqueued));
    }
    assert_eq!(queue.allocator_ref().allocations(), allocated + 2);
}

#[test]
fn a_dequeue_on_an_empty_queue_leaves_the_pool_as_it_is() {
    let mut queue: CcQueue<u64, HeapAllocator> = CcQueue::new(HeapAllocator::new());
    let mut handle = queue.new_per_thread_handle();
    assert!(matches!(handle.enqueue(&mut queue, 1), Progress::Enqueued));
    let mut other = queue.new_per_thread_handle();
    assert!(matches!(other.dequeue(&mut queue), Progress::Dequeued(Some(1))));
    assert!(matches!(handle.dequeue(&mut queue), Progress::Dequeued(None)));
    let before: u64 = queue.allocator_ref().allocations();
    assert!(matches!(handle.enqueue(&mut queue, 2), Progress::Enqueued));
    assert_eq!(queue.allocator_ref().allocations(), before + 1);
}
