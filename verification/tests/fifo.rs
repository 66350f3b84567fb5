use cc_queue::allocators::HeapAllocator;
use cc_queue::cc_queue::CcQueue;
use cc_queue::queue::Queue;
use cc_queue::queue_view::Progress;

#[test]
fn dequeues_return_items_in_the_order_of_enqueue() {
    let mut queue: CcQueue<u64, HeapAllocator> = CcQueue::new(HeapAllocator::new());
    let mut handle = queue.new_per_thread_handle();
    for item in 1..=5u64 {
        assert!(matches!(handle.enqueue(&mut queue, item), Progress::Enqueued));
    }
    for item in 1..=5u64 {
        match handle.dequeue(&mut queue) {
            Progress::Dequeued(found) => assert_eq!(found, Some(item)),
            _ => panic!("the dequeue did not complete"),
        }
    }
    assert!(matches!(handle.dequeue(&mut queue), Progress::Dequeued(None)));
}

#[test]
fn enqueues_of_several_handles_come_out_in_the_order_in_which_they_completed() {
    let mut queue: CcQueue<&'static str, HeapAllocator> = CcQueue::new(HeapAllocator::new());
    let mut first = queue.new_per_thread_handle();
    let mut second = queue.new_per_thread_handle();
    let mut third = queue.new_per_thread_handle();
    assert!(matches!(second.enqueue(&mut queue, "a"), Progress::Enqueued));
    assert!(matches!(first.enqueue(&mut queue, "b"), Progress::Enqueued));
    assert!(matches!(third.enqueue(&mut queue, "c"), Progress::Enqueued));
    assert!(matches!(second.enqueue(&mut queue, "d"), Progress::Enqueued));
    assert!(matches!(third.dequeue(&mut queue), Progress::Dequeued(Some("a"))));
    assert!(matches!(second.dequeue(&mut queue), Progress::Dequeued(Some("b"))));
    assert!(matches!(first.dequeue(&mut queue), Progress::Dequeued(Some("c"))));
    assert!(matches!(first.dequeue(&mut queue), Progress::Dequeued(Some("d"))));
    assert!(matches!(third.dequeue(&mut queue), Progress::Dequeued(None)));
}

#[test]
fn dequeue_on_an_empty_queue_returns_none_at_once() {
    let mut queue: CcQueue<u64, HeapAllocator> = CcQueue::new(HeapAllocator::new());
    let mut handle = queue.new_per_thread_handle();
    assert!(matches!(handle.dequeue(&mut queue), Progress::Dequeued(None)));
    assert!(matches!(handle.dequeue(&mut queue), Progress::Dequeued(None)));
    assert!(!handle.in_flight(&queue));
}

#[test]
fn a_queue_that_was_emptied_takes_items_again() {
    let mut queue: CcQueue<u64, HeapAllocator> = CcQueue::new(HeapAllocator::new());
    let mut handle = queue.new_per_thread_handle();
    assert!(matches!(handle.enqueue(&mut queue, 1), Progress::Enqueued));
    assert!(matches!(handle.dequeue(&mut queue), Progress::Dequeued(Some(1))));
    assert!(matches!(handle.dequeue(&mut queue), Progress::Dequeued(None)));
    assert!(matches!(handle.enqueue(&mut queue, 2), Progress::Enqueued));
    assert!(matches!(handle.enqueue(&mut queue, 3), Progress::Enqueued));
    assert!(matches!(handle.dequeue(&mut queue), Progress::Dequeued(Some(2))));
    assert!(matches!(handle.dequeue(&mut queue), Progress::Dequeued(Some(3))));
    assert!(matches!(handle.dequeue(&mut queue), Progress::Dequeued(None)));
}

#[test]
fn items_that_are_not_copied_pass_through_the_queue() {
    let mut queue: CcQueue<String, HeapAllocator> = CcQueue::new(HeapAllocator::new());
    let mut handle = queue.new_per_thread_handle();
    assert!(matches!(handle.enqueue(&mut queue, String::from("first")), Progress::Enqueued));
    assert!(matches!(handle.enqueue(&mut queue, String::from("second")), Progress::Enqueued));
    match handle.dequeue(&mut queue) {
        Progress::Dequeued(Some(item)) => assert_eq!(item, "first"),
        _ => panic!("the dequeue did not return an item"),
    }
    match handle.dequeue(&mut queue) {
        Progress::Dequeued(Some(item)) => assert_eq!(item, "second"),
        _ => panic!("the dequeue did not return an item"),
    }
}

#[test]
fn the_plain_queue_works_through_its_cc_queue() {
    let mut queue: Queue<u64, HeapAllocator> = Queue::new(HeapAllocator::new());
    let mut handle = queue.new_per_thread_handle();
    assert!(matches!(handle.enqueue(queue.cc_queue(), 4), Progress::Enqueued));
    assert!(matches!(handle.enqueue(queue.cc_queue(), 5), Progress::Enqueued));
    assert!(matches!(handle.dequeue(queue.cc_queue()), Progress::Dequeued(Some(4))));
    let mut inner = queue.into_cc_queue();
    assert!(matches!(handle.dequeue(&mut inner), Progress::Dequeued(Some(5))));
    assert!(matches!(handle.dequeue(&mut inner), Progress::Dequeued(None)));
}

#[test]
fn a_step_or_a_run_of_an_idle_handle_does_nothing() {
    let mut queue: CcQueue<u64, HeapAllocator> = CcQueue::new(HeapAllocator::new());
    let mut handle = queue.new_per_thread_handle();
    assert!(matches!(handle.advance(&mut queue), Progress::Idle));
    assert!(matches!(handle.resume(&mut queue), Progress::Idle));
    assert!(matches!(handle.enqueue(&mut queue, 1), Progress::Enqueued));
    assert!(matches!(handle.advance(&mut queue), Progress::Idle));
    assert!(matches!(handle.dequeue(&mut queue), Progress::Dequeued(Some(1))));
}
