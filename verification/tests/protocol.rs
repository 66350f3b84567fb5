use cc_queue::allocators::HeapAllocator;
use cc_queue::cc_queue::CcQueue;
use cc_queue::per_queue_thread_handle::PerQueueThreadHandle;
use cc_queue::queue_view::Progress;

fn until_waiting(handle: &mut PerQueueThreadHandle, queue: &mut CcQueue<u64, HeapAllocator>) {
    assert!(matches!(handle.advance(queue), Progress::Advanced));
    assert!(matches!(handle.advance(queue), Progress::Advanced));
    assert!(matches!(handle.advance(queue), Progress::Waiting));
}

#[test]
fn a_waiting_enqueue_is_served_by_the_combiner() {
    let mut queue: CcQueue<u64, HeapAllocator> = CcQueue::new(HeapAllocator::new());
    let mut first = queue.new_per_thread_handle();
    let mut second = queue.new_per_thread_handle();
    first.begin_enqueue(&mut queue, 1);
    second.begin_enqueue(&mut queue, 2);
    assert!(first.in_flight(&queue));
    assert!(second.in_flight(&queue));
    until_waiting(&mut second, &mut queue);
    assert!(matches!(second.advance(&mut queue), Progress::Waiting));
    assert!(matches!(second.resume(&mut queue), Progress::Waiting));
    assert!(matches!(first.resume(&mut queue), Progress::Enqueued));
    assert!(second.in_flight(&queue));
    assert!(matches!(second.advance(&mut queue), Progress::Enqueued));
    assert!(!second.in_flight(&queue));
    assert!(matches!(first.dequeue(&mut queue), Progress::Dequeued(Some(1))));
    assert!(matches!(first.dequeue(&mut queue), Progress::Dequeued(Some(2))));
    assert!(matches!(first.dequeue(&mut queue), Progress::Dequeued(None)));
}

#[test]
fn the_steps_of_an_enqueue_without_contention() {
    let mut queue: CcQueue<u64, HeapAllocator> = CcQueue::new(HeapAllocator::new());
    let mut handle = queue.new_per_thread_handle();
    let mut reader = queue.new_per_thread_handle();
    handle.begin_enqueue(&mut queue, 8);
    assert!(matches!(reader.dequeue(&mut queue), Progress::Dequeued(None)));
    assert!(matches!(handle.advance(&mut queue), Progress::Advanced));
    assert!(matches!(reader.dequeue(&mut queue), Progress::Dequeued(None)));
    assert!(matches!(handle.advance(&mut queue), Progress::Advanced));
    assert!(matches!(reader.dequeue(&mut queue), Progress::Dequeued(Some(8))));
    assert!(matches!(handle.advance(&mut queue), Progress::Enqueued));
    assert!(matches!(handle.advance(&mut queue), Progress::Idle));
}

#[test]
fn a_handle_that_published_late_becomes_the_next_combiner() {
    let mut queue: CcQueue<u64, HeapAllocator> = CcQueue::new(HeapAllocator::new());
    let mut first = queue.new_per_thread_handle();
    let mut second = queue.new_per_thread_handle();
    first.begin_enqueue(&mut queue, 1);
    second.begin_enqueue(&mut queue, 2);
    assert!(matches!(second.advance(&mut queue), Progress::Advanced));
    assert!(matches!(first.resume(&mut queue), Progress::Enqueued));
    assert!(matches!(first.dequeue(&mut queue), Progress::Dequeued(Some(1))));
    assert!(matches!(first.dequeue(&mut queue), Progress::Dequeued(None)));
    assert!(matches!(second.advance(&mut queue), Progress::Advanced));
    assert!(matches!(second.advance(&mut queue), Progress::Advanced));
    assert!(matches!(first.dequeue(&mut queue), Progress::Dequeued(None)));
    assert!(matches!(second.advance(&mut queue), Progress::Advanced));
    assert!(matches!(first.dequeue(&mut queue), Progress::Dequeued(Some(2))));
    assert!(matches!(second.advance(&mut queue), Progress::Enqueued));
}

#[test]
fn a_waiting_dequeue_receives_the_item_that_the_combiner_removed_for_it() {
    let mut queue: CcQueue<u64, HeapAllocator> = CcQueue::new(HeapAllocator::new());
    let mut first = queue.new_per_thread_handle();
    let mut second = queue.new_per_thread_handle();
    let mut third = queue.new_per_thread_handle();
    for item in 10..13u64 {
        assert!(matches!(first.enqueue(&mut queue, item), Progress::Enqueued));
    }
    first.begin_dequeue(&mut queue);
    second.begin_dequeue(&mut queue);
    third.begin_dequeue(&mut queue);
    until_waiting(&mut third, &mut queue);
    until_waiting(&mut second, &mut queue);
    assert!(matches!(first.resume(&mut queue), Progress::Dequeued(Some(10))));
    assert!(matches!(third.resume(&mut queue), Progress::Dequeued(Some(12))));
    assert!(matches!(second.resume(&mut queue), Progress::Dequeued(Some(11))));
    assert!(matches!(second.dequeue(&mut queue), Progress::Dequeued(None)));
}

#[test]
fn a_combiner_serves_dequeues_on_an_empty_queue_with_none() {
    let mut queue: CcQueue<u64, HeapAllocator> = CcQueue::new(HeapAllocator::new());
    let mut first = queue.new_per_thread_handle();
    let mut second = queue.new_per_thread_handle();
    assert!(matches!(first.enqueue(&mut queue, 1), Progress::Enqueued));
    first.begin_dequeue(&mut queue);
    second.begin_dequeue(&mut queue);
    until_waiting(&mut second, &mut queue);
    assert!(matches!(first.resume(&mut queue), Progress::Dequeued(Some(1))));
    assert!(matches!(second.resume(&mut queue), Progress::Dequeued(None)));
}

#[test]
fn enqueues_and_dequeues_combine_independently() {
    let mut queue: CcQueue<u64, HeapAllocator> = CcQueue::new(HeapAllocator::new());
    let mut producer = queue.new_per_thread_handle();
    let mut waiting = queue.new_per_thread_handle();
    let mut consumer = queue.new_per_thread_handle();
    assert!(matches!(producer.enqueue(&mut queue, 1), Progress::Enqueued));
    producer.begin_enqueue(&mut queue, 2);
    waiting.begin_enqueue(&mut queue, 3);
    until_waiting(&mut waiting, &mut queue);
    assert!(matches!(consumer.dequeue(&mut queue), Progress::Dequeued(Some(1))));
    assert!(matches!(consumer.dequeue(&mut queue), Progress::Dequeued(None)));
    assert!(matches!(producer.resume(&mut queue), Progress::Enqueued));
    assert!(matches!(consumer.dequeue(&mut queue), Progress::Dequeued(Some(2))));
    assert!(matches!(consumer.dequeue(&mut queue), Progress::Dequeued(Some(3))));
    assert!(matches!(waiting.resume(&mut queue), Progress::Enqueued));
}

#[test]
fn a_combiner_helps_256_others_and_then_hands_over() {
    let mut queue: CcQueue<u64, HeapAllocator> = CcQueue::new(HeapAllocator::new());
    let mut reader = queue.new_per_thread_handle();
    let mut handles: Vec<PerQueueThreadHandle> = Vec::new();
    for item in 0..300u64 {
        let mut handle = queue.new_per_thread_handle();
        handle.begin_enqueue(&mut queue, item);
        handles.push(handle);
    }
    for handle in handles.iter_mut().skip(1) {
        until_waiting(handle, &mut queue);
    }
    assert!(matches!(handles[0].resume(&mut queue), Progress::Enqueued));
    for item in 0..257u64 {
        match reader.dequeue(&mut queue) {
            Progress::Dequeued(found) => assert_eq!(found, Some(item)),
            _ => panic!("the dequeue did not complete"),
        }
    }
    assert!(matches!(reader.dequeue(&mut queue), Progress::Dequeued(None)));
    for handle in handles.iter_mut().skip(1).take(256) {
        assert!(matches!(handle.advance(&mut queue), Progress::Enqueued));
    }
    assert!(matches!(handles[258].advance(&mut queue), Progress::Waiting));
    assert!(matches!(handles[257].advance(&mut queue), Progress::Advanced));
    assert!(matches!(reader.dequeue(&mut queue), Progress::Dequeued(None)));
    assert!(matches!(handles[257].resume(&mut queue), Progress::Enqueued));
    for handle in handles.iter_mut().skip(258) {
        assert!(matches!(handle.advance(&mut queue), Progress::Enqueued));
    }
    for item in 257..300u64 {
        match reader.dequeue(&mut queue) {
            Progress::Dequeued(found) => assert_eq!(found, Some(item)),
            _ => panic!("the dequeue did not complete"),
        }
    }
    assert!(matches!(reader.dequeue(&mut queue), Progress::Dequeued(None)));
}

#[test]
fn no_item_is_lost_or_duplicated_when_steps_interleave() {
    let producers: usize = 4;
    let consumers: usize = 3;
    let per_producer: u64 = 50;
    let mut queue: CcQueue<u64, HeapAllocator> = CcQueue::new(HeapAllocator::new());
    let mut handles: Vec<PerQueueThreadHandle> = Vec::new();
    for _ in 0..producers + consumers {
        handles.push(queue.new_per_thread_handle());
    }
    let mut sent: Vec<u64> = vec![0; producers];
    let mut received: Vec<Vec<u64>> = vec![Vec::new(); consumers];
    let mut completed: u64 = 0;
    let mut taken: u64 = 0;
    let total: u64 = producers as u64 * per_producer;
    let mut seed: u64 = 0x2545_f491_4f6c_dd1d;
    let mut rounds: u64 = 0;
    while completed < total || taken < total {
        rounds += 1;
        assert!(rounds < 1_000_000);
        seed = seed.wrapping_mul(6364136223846793005).wrapping_add(1442695040888963407);
        let who: usize = ((seed >> 33) % (producers + consumers) as u64) as usize;
        let busy = handles[who].in_flight(&queue);
        if who < producers {
            if !busy {
                if sent[who] < per_producer {
                    let tag: u64 = who as u64 * 1000 + sent[who];
                    sent[who] += 1;
                    handles[who].begin_enqueue(&mut queue, tag);
                }
            } else if let Progress::Enqueued = handles[who].advance(&mut queue) {
                completed += 1;
            }
        } else if !busy {
            if taken < total {
                handles[who].begin_dequeue(&mut queue);
            }
        } else if let Progress::Dequeued(found) = handles[who].advance(&mut queue) {
            if let Some(tag) = found {
                received[who - producers].push(tag);
                taken += 1;
            }
        }
    }
    for list in received.iter() {
        for producer in 0..producers as u64 {
            let own: Vec<u64> = list.iter().copied().filter(|tag| tag / 1000 == producer).collect();
            let mut sorted = own.clone();
            sorted.sort();
            assert_eq!(own, sorted);
        }
    }
    let mut all: Vec<u64> = received.concat();
    all.sort();
    let mut expected: Vec<u64> = Vec::new();
    for producer in 0..producers as u64 {
        for item in 0..per_producer {
            expected.push(producer * 1000 + item);
        }
    }
    assert_eq!(all, expected);
    let mut busy: bool = true;
    while busy {
        busy = false;
        for handle in handles.iter_mut() {
            if handle.in_flight(&queue) {
                busy = true;
                assert!(!matches!(handle.advance(&mut queue), Progress::Dequeued(Some(_))));
            }
        }
    }
    let mut last = handles.pop().unwrap();
    assert!(matches!(last.dequeue(&mut queue), Progress::Dequeued(None)));
}

#[test]
fn every_block_is_freed_after_interleaved_work() {
    let count: usize = 6;
    let mut queue: CcQueue<u64, HeapAllocator> = CcQueue::new(HeapAllocator::new());
    let mut handles: Vec<PerQueueThreadHandle> = Vec::new();
    for _ in 0..count {
        handles.push(queue.new_per_thread_handle());
    }
    let mut seed: u64 = 0x9e37_79b9_7f4a_7c15;
    let mut enqueued: u64 = 0;
    let mut dequeued: u64 = 0;
    for _ in 0..20_000u64 {
        seed = seed.wrapping_mul(6364136223846793005).wrapping_add(1442695040888963407);
        let who: usize = ((seed >> 33) % count as u64) as usize;
        if handles[who].in_flight(&queue) {
            match handles[who].advance(&mut queue) {
                Progress::Enqueued => enqueued += 1,
                Progress::Dequeued(Some(_)) => dequeued += 1,
                _ => {}
            }
        } else if (seed >> 20) % 3 == 0 {
            handles[who].begin_dequeue(&mut queue);
        } else if (seed >> 20) % 3 == 1 {
            handles[who].begin_enqueue(&mut queue, seed);
        } else {
            let fresh = queue.new_per_thread_handle();
            let old = std::mem::replace(&mut handles[who], fresh);
            queue.drop_per_thread_handle(old);
        }
    }
    let mut busy: bool = true;
    while busy {
        busy = false;
        for handle in handles.iter_mut() {
            if handle.in_flight(&queue) {
                busy = true;
                match handle.advance(&mut queue) {
                    Progress::Enqueued => enqueued += 1,
                    Progress::Dequeued(Some(_)) => dequeued += 1,
                    _ => {}
                }
            }
        }
    }
    assert!(enqueued >= dequeued);
    let mut left: u64 = 0;
    while let Progress::Dequeued(Some(_)) = handles[0].dequeue(&mut queue) {
        left += 1;
    }
    assert_eq!(enqueued, dequeued + left);
    for handle in handles {
        queue.drop_per_thread_handle(handle);
    }
    let allocator = queue.destroy();
    assert!(allocator.is_unused());
}

#[test]
fn eight_handles_interleave_a_hundred_thousand_operations() {
    let count: usize = 8;
    let per_handle: u64 = 12_500;
    let mut queue: CcQueue<u64, HeapAllocator> = CcQueue::new(HeapAllocator::new());
    let mut handles: Vec<PerQueueThreadHandle> = Vec::new();
    for _ in 0..count {
        handles.push(queue.new_per_thread_handle());
    }
    let mut started: Vec<u64> = vec![0; count];
    let mut sent: Vec<u64> = vec![0; count];
    let mut received: Vec<Vec<u64>> = vec![Vec::new(); count];
    let mut seed: u64 = 0x1234_5678_9abc_def1;
    let mut running: bool = true;
    while running {
        running = false;
        for _ in 0..count {
            seed = seed.wrapping_mul(6364136223846793005).wrapping_add(1442695040888963407);
            let who: usize = ((seed >> 33) % count as u64) as usize;
            if handles[who].in_flight(&queue) {
                if let Progress::Dequeued(Some(tag)) = handles[who].advance(&mut queue) {
                    received[who].push(tag);
                }
            } else if started[who] < per_handle {
                started[who] += 1;
                if (seed >> 20) % 2 == 0 {
                    let tag: u64 = who as u64 * 1_000_000 + sent[who];
                    sent[who] += 1;
                    handles[who].begin_enqueue(&mut queue, tag);
                } else {
                    handles[who].begin_dequeue(&mut queue);
                }
            }
        }
        for who in 0..count {
            if started[who] < per_handle || handles[who].in_flight(&queue) {
                running = true;
            }
        }
    }
    while let Progress::Dequeued(Some(tag)) = handles[0].dequeue(&mut queue) {
        received[0].push(tag);
    }
    let mut all: Vec<u64> = received.concat();
    all.sort();
    let mut expected: Vec<u64> = Vec::new();
    for who in 0..count {
        for item in 0..sent[who] {
            expected.push(who as u64 * 1_000_000 + item);
        }
    }
    assert_eq!(all.len() as u64, sent.iter().sum::<u64>());
    assert_eq!(all, expected);
}
