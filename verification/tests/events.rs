use pirx::events::{EngineEvent, EventQueue};
use pirx::ready_queue::OpKey;

fn factory_produced(id: u16) -> EngineEvent {
    EngineEvent::FactoryProduced { factory_id: id }
}

#[test]
fn empty_queue() {
    let mut q = EventQueue::new();
    assert!(q.is_empty());
    assert_eq!(q.peek_cycle(), None);
    assert!(q.pop().is_none());
}

#[test]
fn pop_ordered_by_cycle() {
    let mut q = EventQueue::new();
    q.schedule(3, factory_produced(0));
    q.schedule(1, factory_produced(1));
    q.schedule(2, factory_produced(2));

    let cycles: Vec<u64> = (0..3).filter_map(|_| q.pop().map(|e| e.cycle)).collect();
    assert_eq!(cycles, [1, 2, 3]);
    assert!(q.is_empty());
}

#[test]
fn same_cycle_ordered_by_seq() {
    let k0 = OpKey(0);
    let k1 = OpKey(1);
    let k2 = OpKey(2);

    let mut q = EventQueue::new();
    q.schedule(5, EngineEvent::GateCompleted { gate: k0 });
    q.schedule(5, EngineEvent::GateCompleted { gate: k1 });
    q.schedule(5, EngineEvent::GateCompleted { gate: k2 });

    let seqs: Vec<u64> = (0..3).filter_map(|_| q.pop().map(|e| e.seq)).collect();
    assert_eq!(seqs, [0, 1, 2]);
}

#[test]
fn seq_distinct_past_u32_max() {
    let mut q = EventQueue::with_next_seq(u64::from(u32::MAX) - 5);

    for _ in 0..10 {
        q.schedule(1, factory_produced(0));
    }

    let seqs: Vec<u64> = std::iter::from_fn(|| q.pop().map(|e| e.seq)).collect();
    assert_eq!(seqs.len(), 10);
    for window in seqs.windows(2) {
        assert!(
            window[1] > window[0],
            "seq must be strictly increasing across u32::MAX boundary: {} vs {}",
            window[0],
            window[1]
        );
    }
    assert!(
        seqs.last().copied().unwrap() > u64::from(u32::MAX),
        "seq must cross u32::MAX without saturating"
    );
}

#[test]
fn peek_cycle_does_not_consume() {
    let mut q = EventQueue::new();
    q.schedule(10, factory_produced(0));
    assert_eq!(q.peek_cycle(), Some(10));
    assert_eq!(q.peek_cycle(), Some(10));
    assert!(q.pop().is_some());
    assert_eq!(q.peek_cycle(), None);
}

#[test]
fn interleaved_schedule_and_pop_deliver_in_cycle_then_seq_order() {
    let mut q = EventQueue::with_capacity(8);
    q.schedule(7, factory_produced(0));
    q.schedule(2, factory_produced(1));
    q.schedule(7, factory_produced(2));
    let first = q.pop().unwrap();
    assert_eq!((first.cycle, first.seq), (2, 1));
    q.schedule(1, factory_produced(3));
    let order: Vec<(u64, u64)> = std::iter::from_fn(|| q.pop().map(|e| (e.cycle, e.seq))).collect();
    assert_eq!(order, vec![(1, 3), (7, 0), (7, 2)]);
}

#[test]
fn seq_saturates_at_u64_max() {
    let mut q = EventQueue::with_next_seq(u64::MAX);
    q.schedule(1, factory_produced(0));
    q.schedule(1, factory_produced(1));
    let a = q.pop().unwrap();
    let b = q.pop().unwrap();
    assert_eq!(a.seq, u64::MAX);
    assert_eq!(b.seq, u64::MAX);
}
