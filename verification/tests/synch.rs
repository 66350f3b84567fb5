use cc_queue::allocators::HeapAllocator;
use cc_queue::arena::Arena;
use cc_queue::node::Node;
use cc_queue::payload::Payload;
use cc_queue::queue_internal::serial_dequeue;
use cc_queue::queue_internal::serial_enqueue;
use cc_queue::status::Status;
use cc_queue::synch::Synch;
use cc_queue::synch_handle::SynchHandle;
use cc_queue::synch_node::SynchNode;
use cc_queue::synch_view::Turn;
use cc_queue::synch_view::CCSYNCH_HELP_BOUND;

#[test]
fn the_help_bound() {
    assert_eq!(CCSYNCH_HELP_BOUND, 256);
}

#[test]
fn a_new_combining_node_is_ready_and_alone() {
    let mut allocator = HeapAllocator::new();
    let mut nodes: Arena<SynchNode<u64>> = Arena::new();
    let this: usize = SynchNode::ccsynch_init_node(&mut allocator, &mut nodes);
    let node = nodes.get(this);
    assert_eq!(node.acquire_status(), Status::Ready);
    assert_eq!(node.acquire_next(), None);
    assert_eq!(node.data.target(), None);
}

#[test]
fn the_accessors_of_a_combining_node() {
    let mut allocator = HeapAllocator::new();
    let mut nodes: Arena<SynchNode<u64>> = Arena::new();
    let this: usize = SynchNode::ccsynch_init_node(&mut allocator, &mut nodes);
    let mut node = nodes.take(this);
    node.release_next(17);
    assert_eq!(node.acquire_next(), Some(17));
    node.release_status(Status::Wait);
    assert_eq!(node.acquire_status(), Status::Wait);
    node.release_status_done();
    assert_eq!(node.acquire_status(), Status::Done);
    node.release_status_ready();
    assert_eq!(node.acquire_status(), Status::Ready);
    assert_eq!(node.acquire_next(), Some(17));
    SynchNode::<u64>::free_after_drop(this, &mut allocator);
    assert!(allocator.is_unused());
}

#[test]
fn the_turns_of_a_lone_registration() {
    let mut allocator = HeapAllocator::new();
    let mut synch: Synch<u64> = Synch::ccsynch_init(&mut allocator);
    let mut handle = SynchHandle::ccsynch_handle_init(&mut synch, &mut allocator, 1);
    assert!(handle.is_idle());
    synch.register(&mut handle, Payload::null());
    assert!(!handle.is_idle());
    assert!(matches!(synch.turn(&mut handle), Turn::Moved));
    assert!(matches!(synch.turn(&mut handle), Turn::ApplyOwn(_)));
    assert!(matches!(synch.turn(&mut handle), Turn::ApplyOwn(_)));
    synch.apply_own(&mut handle, Payload::null());
    assert!(synch.pending(&handle).is_none());
    assert!(matches!(synch.turn(&mut handle), Turn::Finished(_)));
    assert!(handle.is_idle());
    handle.destroy(&mut synch, &mut allocator);
    synch.destroy(&mut allocator);
    assert!(allocator.is_unused());
}

#[test]
fn the_turns_of_a_registration_that_is_helped() {
    let mut allocator = HeapAllocator::new();
    let mut synch: Synch<u64> = Synch::ccsynch_init(&mut allocator);
    let mut first = SynchHandle::ccsynch_handle_init(&mut synch, &mut allocator, 1);
    let mut second = SynchHandle::ccsynch_handle_init(&mut synch, &mut allocator, 2);
    synch.register(&mut first, Payload::null());
    synch.register(&mut second, Payload::null());
    synch.observe(&mut second);
    synch.publish(&mut second);
    assert!(synch.spin(&mut second).is_none());
    assert!(matches!(synch.turn(&mut second), Turn::Blocked));
    synch.observe(&mut first);
    assert!(matches!(synch.turn(&mut first), Turn::ApplyOwn(_)));
    synch.apply_own(&mut first, Payload::null());
    assert!(matches!(synch.turn(&mut first), Turn::Serve(_)));
    assert!(synch.pending(&first).is_some());
    synch.help(&mut first, Payload::null());
    assert!(synch.pending(&first).is_none());
    assert!(matches!(synch.turn(&mut second), Turn::Finished(_)));
    assert!(second.is_idle());
    let result = synch.release(&mut first);
    assert_eq!(result.target(), None);
    assert!(first.is_idle());
    first.destroy(&mut synch, &mut allocator);
    second.destroy(&mut synch, &mut allocator);
    synch.destroy(&mut allocator);
    assert!(allocator.is_unused());
}

#[test]
fn the_serial_mutators_link_and_unlink_nodes() {
    let mut allocator = HeapAllocator::new();
    let mut nodes: Arena<Node<u64>> = Arena::new();
    let dummy: usize = Node::dummy_node(&mut allocator, &mut nodes);
    let mut head: usize = dummy;
    let mut tail: usize = dummy;
    assert_eq!(serial_dequeue(&mut head, &mut nodes), None);
    assert_eq!(head, dummy);
    nodes.put(100, Node { next: None, data: Some(5) });
    serial_enqueue(&mut tail, &mut nodes, 100);
    assert_eq!(tail, 100);
    assert_eq!(nodes.get(dummy).next, Some(100));
    nodes.put(101, Node { next: None, data: Some(6) });
    serial_enqueue(&mut tail, &mut nodes, 101);
    assert_eq!(tail, 101);
    assert_eq!(nodes.get(100).next, Some(101));
    assert_eq!(serial_dequeue(&mut head, &mut nodes), Some(dummy));
    assert_eq!(head, 100);
    assert_eq!(nodes.get(dummy).data, Some(5));
    assert_eq!(nodes.get(100).data, None);
    assert_eq!(serial_dequeue(&mut head, &mut nodes), Some(100));
    assert_eq!(head, 101);
    assert_eq!(nodes.get(100).data, Some(6));
    assert_eq!(serial_dequeue(&mut head, &mut nodes), None);
    assert_eq!(head, tail);
    Node::<u64>::free_after_drop(dummy, &mut allocator);
    assert!(allocator.is_unused());
}
