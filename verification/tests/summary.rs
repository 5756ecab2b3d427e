use pirx::summary::trace_totals;
use pirx::trace::{TraceCollector, TraceEventKind};

fn utilization(active: u64, total_cycles: u64, factory_count: u16) -> f64 {
    if total_cycles > 0 && factory_count > 0 {
        active as f64 / (total_cycles as f64 * f64::from(factory_count))
    } else {
        0.0
    }
}

#[test]
fn extract_summary_empty_trace() {
    let collector = TraceCollector::new(0);
    let trace = collector.finish(0, 0, 0.0f64.to_bits(), 0);
    let summary = trace_totals(&trace, 1);

    assert_eq!(summary.stall_count, 0);
    assert_eq!(summary.injection_errors, 0);
    assert_eq!(summary.fixups_inserted, 0);
    assert_eq!(summary.buffer_full_events, 0);
    assert_eq!(trace.total_cycles, 0);
    assert_eq!(utilization(summary.total_factory_active_cycles, trace.total_cycles, 1), 0.0);
    assert_eq!(trace.magic_states_consumed, 0);
    assert_eq!(trace.magic_states_consumed as f64 * f64::from_bits(trace.p_logical_bits), 0.0);
}

#[test]
fn extract_summary_counts_stalls() {
    let mut collector = TraceCollector::new(4);
    collector.record(10, TraceEventKind::GateServed { gate: 1, wait: 5 });
    collector.record(20, TraceEventKind::GateServed { gate: 2, wait: 10 });
    collector.record(30, TraceEventKind::GateServed { gate: 3, wait: 0 });
    let trace = collector.finish(42, 30, 0.0f64.to_bits(), 3);
    let summary = trace_totals(&trace, 1);

    assert_eq!(summary.stall_count, 2);
    assert_eq!(summary.total_stall_cycles, 15);
    assert_eq!(summary.max_stall_cycles, 10);
    assert_eq!(trace.magic_states_consumed, 3);
}

#[test]
fn extract_summary_factory_utilization() {
    let mut collector = TraceCollector::new(4);
    collector.record(0, TraceEventKind::FactoryStarted { factory_id: 0 });
    collector.record(50, TraceEventKind::FactoryProduced { factory_id: 0 });
    let trace = collector.finish(0, 100, 0.0f64.to_bits(), 0);
    let summary = trace_totals(&trace, 1);

    assert_eq!(summary.total_factory_active_cycles, 50);
    let u = utilization(summary.total_factory_active_cycles, trace.total_cycles, 1);
    assert!((u - 0.5).abs() < f64::EPSILON);
}

#[test]
fn extract_summary_counts_injection_and_fixup() {
    let mut collector = TraceCollector::new(4);
    collector.record(10, TraceEventKind::InjectionError { gate: 1 });
    collector.record(10, TraceEventKind::FixupInserted { fixup: 1000, original: 1 });
    collector.record(20, TraceEventKind::InjectionError { gate: 2 });
    collector.record(20, TraceEventKind::FixupInserted { fixup: 1001, original: 2 });
    let trace = collector.finish(0, 20, 0.0f64.to_bits(), 0);
    let summary = trace_totals(&trace, 1);

    assert_eq!(summary.injection_errors, 2);
    assert_eq!(summary.fixups_inserted, 2);
}

#[test]
fn extract_summary_counts_buffer_full() {
    let mut collector = TraceCollector::new(4);
    collector.record(10, TraceEventKind::BufferFull);
    collector.record(20, TraceEventKind::BufferFull);
    collector.record(30, TraceEventKind::BufferFull);
    let trace = collector.finish(0, 30, 0.0f64.to_bits(), 0);
    let summary = trace_totals(&trace, 1);

    assert_eq!(summary.buffer_full_events, 3);
}

#[test]
fn totals_ignore_factories_beyond_count_and_unmatched_ends() {
    let mut collector = TraceCollector::new(8);
    collector.record(0, TraceEventKind::FactoryStarted { factory_id: 0 });
    collector.record(0, TraceEventKind::FactoryStarted { factory_id: 5 });
    collector.record(7, TraceEventKind::FactoryFailed { factory_id: 0 });
    collector.record(9, TraceEventKind::FactoryProduced { factory_id: 0 });
    collector.record(12, TraceEventKind::FactoryProduced { factory_id: 5 });
    collector.record(15, TraceEventKind::FactoryStarted { factory_id: 1 });
    collector.record(20, TraceEventKind::FactoryProduced { factory_id: 1 });
    let trace = collector.finish(0, 20, 0.0f64.to_bits(), 0);
    let summary = trace_totals(&trace, 2);
    assert_eq!(summary.total_factory_active_cycles, 7 + 5);
}

#[test]
fn restart_overwrites_pending_start() {
    let mut collector = TraceCollector::new(4);
    collector.record(0, TraceEventKind::FactoryStarted { factory_id: 0 });
    collector.record(4, TraceEventKind::FactoryStarted { factory_id: 0 });
    collector.record(10, TraceEventKind::FactoryProduced { factory_id: 0 });
    let trace = collector.finish(0, 10, 0.0f64.to_bits(), 0);
    assert_eq!(trace_totals(&trace, 1).total_factory_active_cycles, 6);
}
