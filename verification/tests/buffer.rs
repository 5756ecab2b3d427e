use pirx::buffer::MagicStateBuffer;

#[test]
fn new_clamps_preload() {
    let buf = MagicStateBuffer::new(4, 10);
    assert_eq!(buf.occupancy(), 4);
    assert!(buf.is_full());
}

#[test]
fn enqueue_dequeue_basic() {
    let mut buf = MagicStateBuffer::new(4, 0);
    assert!(buf.try_enqueue());
    assert_eq!(buf.occupancy(), 1);
    assert!(buf.try_dequeue());
    assert_eq!(buf.occupancy(), 0);
}

#[test]
fn enqueue_full_returns_false() {
    let mut buf = MagicStateBuffer::new(2, 2);
    assert!(!buf.try_enqueue());
    assert_eq!(buf.occupancy(), 2);
}

#[test]
fn dequeue_empty_returns_false() {
    let mut buf = MagicStateBuffer::new(4, 0);
    assert!(!buf.try_dequeue());
    assert_eq!(buf.occupancy(), 0);
}

#[test]
fn cold_start() {
    let buf = MagicStateBuffer::new(8, 0);
    assert!(buf.is_empty());
    assert!(!buf.is_full());
    assert_eq!(buf.occupancy(), 0);
}

#[test]
fn warm_start() {
    let buf = MagicStateBuffer::new(8, 3);
    assert!(!buf.is_empty());
    assert!(!buf.is_full());
    assert_eq!(buf.occupancy(), 3);
}

#[test]
fn buffer_never_exceeds_capacity_under_repeated_enqueue() {
    let mut buf = MagicStateBuffer::new(3, 1);
    let mut accepted = 0;
    for _ in 0..10 {
        if buf.try_enqueue() {
            accepted += 1;
        }
    }
    assert_eq!(accepted, 2);
    assert_eq!(buf.occupancy(), 3);
    assert!(buf.is_full());
}

#[test]
fn zero_capacity_buffer_is_full_and_empty() {
    let mut buf = MagicStateBuffer::new(0, 5);
    assert_eq!(buf.occupancy(), 0);
    assert!(buf.is_full());
    assert!(buf.is_empty());
    assert!(!buf.try_enqueue());
    assert!(!buf.try_dequeue());
}

#[test]
fn buffer_occupancy_follows_successful_calls() {
    let mut b = MagicStateBuffer::new(3, 5);
    let mut enq = 0u32;
    let mut deq = 0u32;
    for op in [true, false, false, false, false, true, true, true, true, false] {
        let ok = if op { b.try_enqueue() } else { b.try_dequeue() };
        if ok {
            if op { enq += 1 } else { deq += 1 }
        }
        assert!(b.occupancy() <= 3);
    }
    assert_eq!(b.occupancy(), 3 + enq - deq);
    assert_eq!((enq, deq), (3, 4));
}
