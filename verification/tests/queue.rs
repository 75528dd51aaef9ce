use myqueue::queue::{LockQueue, Node, Queue, SingleVecLockQueue};
use std::collections::HashSet;

#[test]
fn node_wraps_its_value_with_no_successor() {
    let n = Node::new(42u64);
    assert_eq!(n.value, Some(42));
    assert_eq!(n.next, None);
}

#[test]
fn fifo_order_linked_queue() {
    let mut q: Queue<u64> = Queue::new();
    for v in 1..=5u64 {
        q.enqueue(v);
    }
    for v in 1..=5u64 {
        assert_eq!(q.dequeue(), Some(v));
    }
    assert_eq!(q.dequeue(), None);
}

#[test]
fn fifo_order_lock_queue() {
    let mut q: LockQueue<u64> = LockQueue::new();
    for v in 1..=5u64 {
        q.enqueue(v);
    }
    for v in 1..=5u64 {
        assert_eq!(q.dequeue(), Some(v));
    }
    assert_eq!(q.dequeue(), None);
}

#[test]
fn fifo_order_single_vec_queue() {
    let mut q: SingleVecLockQueue<u64> = SingleVecLockQueue::new();
    for v in 1..=5u64 {
        q.enqueue(v);
    }
    for v in 1..=5u64 {
        assert_eq!(q.dequeue(), Some(v));
    }
    assert_eq!(q.dequeue(), None);
}

#[test]
fn dequeue_on_fresh_queue_returns_none() {
    let mut a: Queue<String> = Queue::new();
    assert_eq!(a.dequeue(), None);
    let mut b: LockQueue<String> = LockQueue::new();
    assert_eq!(b.dequeue(), None);
    let mut c: SingleVecLockQueue<String> = SingleVecLockQueue::new();
    assert_eq!(c.dequeue(), None);
}

/// Eight producers each contribute one thousand distinct values, their
/// enqueues interleaved round-robin with consumers draining the queue; every
/// value must come out exactly once and nothing else.
#[test]
fn stress_interleaved_producers_and_consumers() {
    let producers: u64 = 8;
    let per_producer: u64 = 1000;
    let mut q: Queue<u64> = Queue::new();
    let mut seen: HashSet<u64> = HashSet::new();
    let mut dequeued: u64 = 0;
    for round in 0..per_producer {
        for p in 0..producers {
            q.enqueue(p * per_producer + round);
        }
        // A consumer keeps pace with half the producers.
        for _ in 0..producers / 2 {
            if let Some(v) = q.dequeue() {
                assert!(seen.insert(v), "value dequeued twice");
                dequeued += 1;
            }
        }
    }
    while let Some(v) = q.dequeue() {
        assert!(seen.insert(v), "value dequeued twice");
        dequeued += 1;
    }
    assert_eq!(dequeued, producers * per_producer);
    assert_eq!(seen.len() as u64, producers * per_producer);
    for p in 0..producers {
        for round in 0..per_producer {
            assert!(seen.contains(&(p * per_producer + round)));
        }
    }
}

/// One side enqueues a single marker value; the other observes either the
/// value or an empty queue, and a drain afterwards yields exactly that value.
#[test]
fn producer_consumer_handoff() {
    // The dequeue lands after the enqueue: it sees the value.
    let mut q: Queue<u64> = Queue::new();
    q.enqueue(1000000);
    assert_eq!(q.dequeue(), Some(1000000));
    assert_eq!(q.dequeue(), None);

    // The dequeue lands before the enqueue: it sees an empty queue, and a
    // later drain yields exactly the one value.
    let mut q2: Queue<u64> = Queue::new();
    assert_eq!(q2.dequeue(), None);
    q2.enqueue(1000000);
    assert_eq!(q2.dequeue(), Some(1000000));
    assert_eq!(q2.dequeue(), None);
}

/// The two-buffer queue's transfer step must keep order across the drain.
#[test]
fn lock_queue_transfer_keeps_order() {
    let mut q: LockQueue<u64> = LockQueue::new();
    q.enqueue(1);
    q.enqueue(2);
    assert_eq!(q.dequeue(), Some(1));
    q.enqueue(3);
    q.enqueue(4);
    assert_eq!(q.dequeue(), Some(2));
    assert_eq!(q.dequeue(), Some(3));
    q.enqueue(5);
    assert_eq!(q.dequeue(), Some(4));
    assert_eq!(q.dequeue(), Some(5));
    assert_eq!(q.dequeue(), None);
}

/// Slot reuse in the linked queue: long alternation of enqueues and dequeues
/// recycles retired slots and must never mix up values.
#[test]
fn linked_queue_reuses_slots_soundly() {
    let mut q: Queue<u64> = Queue::new();
    // Keep one value in flight so retired slots are recycled while the
    // chain is never empty.
    q.enqueue(5000);
    for v in 0..100u64 {
        q.enqueue(v);
        q.enqueue(v + 1000);
        if v == 0 {
            assert_eq!(q.dequeue(), Some(5000));
        } else {
            assert_eq!(q.dequeue(), Some(v + 999));
        }
        assert_eq!(q.dequeue(), Some(v));
    }
    assert_eq!(q.dequeue(), Some(1099));
    assert_eq!(q.dequeue(), None);
}
