use node_engine::nodes::new_node_engine;
use node_engine::queue::Queue;
use node_engine::MAX_ALLOCATED_NODES;

#[test]
fn queue_is_first_in_first_out() {
    let mut q: Queue<u32> = Queue::new(4);
    assert!(q.is_empty());
    assert!(q.try_push(1).is_none());
    assert!(q.try_push(2).is_none());
    assert!(q.try_push(3).is_none());
    assert_eq!(q.pop(), Some(1));
    assert_eq!(q.pop(), Some(2));
    assert!(q.try_push(4).is_none());
    assert_eq!(q.pop(), Some(3));
    assert_eq!(q.pop(), Some(4));
    assert_eq!(q.pop(), None);
}

#[test]
fn full_queue_hands_the_value_back() {
    let mut q: Queue<u32> = Queue::new(2);
    assert!(q.try_push(10).is_none());
    assert!(q.try_push(11).is_none());
    // the push attempt neither blocks nor grows the queue: update loss
    assert_eq!(q.try_push(12), Some(12));
    assert_eq!(q.len(), 2);
    assert_eq!(q.pop(), Some(10));
    assert!(q.try_push(13).is_none());
    assert_eq!(q.pop(), Some(11));
    assert_eq!(q.pop(), Some(13));
}

#[test]
fn engine_channels_are_sized_by_slot_count() {
    let (_conf, _exec, ch) = new_node_engine(44100);
    assert_eq!(ch.graph.capacity(), 2 * MAX_ALLOCATED_NODES);
    assert_eq!(ch.quick.capacity(), 8 * MAX_ALLOCATED_NODES);
    assert_eq!(ch.feedback.capacity(), MAX_ALLOCATED_NODES);
    assert_eq!(ch.retire.capacity(), 2 * MAX_ALLOCATED_NODES);
    assert_eq!(ch.graph.len(), 0);
    assert_eq!(ch.retire.len(), 0);
}
