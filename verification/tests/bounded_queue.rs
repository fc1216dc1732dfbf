use raft_rs::queue::BoundedQueue;

/// A write that would cross the ceiling is refused whole and changes nothing.
#[test]
fn refuses_a_write_that_does_not_fit() {
    let mut queue = BoundedQueue::new(4);
    assert!(queue.try_extend(&[1, 2, 3]));
    assert_eq!(queue.remaining(), 1);

    // Two bytes into one byte of room.
    assert!(!queue.try_extend(&[4, 5]));

    // The refused write left no trace.
    assert_eq!(queue.len(), 3);
    assert_eq!(queue.remaining(), 1);

    // A write that does fit still succeeds afterwards, so a refusal does not wedge the queue.
    assert!(queue.try_extend(&[6]));
    assert_eq!(queue.remaining(), 0);
}

/// One read drains a wrapped queue completely instead of stopping at the wrap.
#[test]
fn one_read_drains_across_the_wrap() {
    let mut queue = BoundedQueue::new(4);
    assert!(queue.try_extend(&[1, 2, 3, 4]));
    assert_eq!(queue.remaining(), 0);

    // Drain half, which moves the head and leaves room at the front of the ring.
    let mut dst = [0; 2];
    assert_eq!(queue.read_into(&mut dst), 2);
    assert_eq!(dst, [1, 2]);
    assert_eq!(queue.remaining(), 2);

    // Refill so the contents straddle the end of the allocation.
    assert!(queue.try_extend(&[5, 6]));

    // Guard the premise: the ring really wrapped.
    let (front, back) = queue.as_slices();
    assert!(
        !front.is_empty() && !back.is_empty(),
        "expected a wrapped ring, got front {front:?} back {back:?}"
    );

    // Room to spare, so a count below 4 means bytes were left behind rather than no space.
    let mut dst = [0; 8];
    assert_eq!(queue.read_into(&mut dst), 4);
    assert_eq!(&dst[..4], &[3, 4, 5, 6]);
    assert!(queue.is_empty());
}

/// Reading an empty queue reports zero rather than blocking or failing.
#[test]
fn reading_an_empty_queue_returns_zero() {
    let mut queue = BoundedQueue::new(4);

    let mut dst = [0; 2];
    assert_eq!(queue.read_into(&mut dst), 0);
    assert_eq!(dst, [0, 0]);
}

/// What a read gives back is what was written, in order, and a short destination leaves the
/// rest for the next read.
#[test]
fn reads_return_writes_in_order() {
    let mut queue = BoundedQueue::new(8);
    assert!(queue.try_extend(&[1, 2, 3]));
    assert!(queue.try_extend(&[4, 5]));
    let mut dst = [0; 4];
    assert_eq!(queue.read_into(&mut dst), 4);
    assert_eq!(dst, [1, 2, 3, 4]);
    assert_eq!(queue.len(), 1);
    let mut dst = [0; 4];
    assert_eq!(queue.read_into(&mut dst), 1);
    assert_eq!(dst[0], 5);
    assert!(queue.is_empty());
    assert_eq!(queue.remaining(), 8);
}

/// A zero-capacity queue takes only the empty write.
#[test]
fn zero_capacity_queue() {
    let mut queue = BoundedQueue::new(0);
    assert!(queue.try_extend(&[]));
    assert!(!queue.try_extend(&[1]));
    assert_eq!(queue.len(), 0);
}
