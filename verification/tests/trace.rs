use pirx::trace::{TraceCollector, TraceEventKind, SYNTHETIC_ID_FLAG};

#[test]
fn empty_trace() {
    let collector = TraceCollector::new(0);
    let trace = collector.finish(42, 0, 0.0f64.to_bits(), 0);
    assert!(trace.events.is_empty());
    assert_eq!(trace.seed, 42);
    assert_eq!(trace.total_cycles, 0);
    assert_eq!(trace.schema_version, "1.1");
}

#[test]
fn records_in_order() {
    let mut collector = TraceCollector::new(4);
    collector.record(0, TraceEventKind::GateReady { gate: 1 });
    collector.record(1, TraceEventKind::GateScheduled { gate: 1 });
    collector.record(2, TraceEventKind::GateCompleted { gate: 1 });
    let trace = collector.finish(0, 2, 0.0f64.to_bits(), 0);
    let cycles: Vec<u64> = trace.events.iter().map(|e| e.cycle).collect();
    assert_eq!(cycles, [0, 1, 2]);
}

#[test]
fn finish_truncated_sets_flag() {
    let mut collector = TraceCollector::new(2);
    collector.record(0, TraceEventKind::GateReady { gate: 1 });
    let trace = collector.finish_truncated(7, 10, 0.0f64.to_bits(), 0);
    assert!(trace.truncated);
    assert_eq!(trace.seed, 7);
    assert_eq!(trace.total_cycles, 10);
}

#[test]
fn finish_normal_is_not_truncated() {
    let collector = TraceCollector::new(0);
    let trace = collector.finish(0, 5, 0.0f64.to_bits(), 0);
    assert!(!trace.truncated);
}

#[test]
fn capacity_hint_does_not_affect_semantics() {
    let mut a = TraceCollector::new(0);
    let mut b = TraceCollector::new(1024);
    for col in [&mut a, &mut b] {
        col.record(5, TraceEventKind::FactoryStarted { factory_id: 0 });
        col.record(7, TraceEventKind::FactoryProduced { factory_id: 0 });
    }
    assert_eq!(a.finish(1, 10, 0.0f64.to_bits(), 0), b.finish(1, 10, 0.0f64.to_bits(), 0));
}

#[test]
fn finish_carries_error_rate_and_consumption() {
    let mut c = TraceCollector::new(1);
    c.record(3, TraceEventKind::BufferFull);
    assert_eq!(c.len(), 1);
    let t = c.finish(9, 3, 1e-3f64.to_bits(), 17);
    assert_eq!(f64::from_bits(t.p_logical_bits), 1e-3);
    assert_eq!(t.magic_states_consumed, 17);
    assert_eq!(t.events.len(), 1);
}

#[test]
fn synthetic_flag_is_top_bit() {
    assert_eq!(SYNTHETIC_ID_FLAG, 1u64 << 63);
}
