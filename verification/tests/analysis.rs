use pirx::analysis::{cumulative_sums, BottleneckType, ProfileAnalyzer, StallRecord};
use pirx::circuit::{CircuitMetadata, Dependency, MeasurementOutcome, OpKind, Operation, ProfilerCircuit};
use pirx::engine::{Engine, EngineConfig, EngineOracle, EngineParams};
use pirx::factory::FactoryOutcome;
use pirx::routing::{RoutingKind, ScalarRouting};
use pirx::trace::{Trace, TraceCollector, TraceEventKind};
use pirx::validate::{validate, ValidatedCircuit};

/// Deterministic oracle: every factory produces after a fixed time, every
/// `fail_every`-th attempt fails instead, and injection errors and
/// measurement outcomes follow fixed patterns.
struct Scripted {
    production: u64,
    fail_every: u64,
    attempts: u64,
    injections: Vec<bool>,
    outcomes: Vec<MeasurementOutcome>,
}

impl Scripted {
    fn simple(production: u64) -> Self {
        Scripted { production, fail_every: 0, attempts: 0, injections: vec![], outcomes: vec![] }
    }
}

impl EngineOracle for Scripted {
    fn injection_error(&mut self) -> bool {
        if self.injections.is_empty() { false } else { self.injections.remove(0) }
    }

    fn measurement_outcome(&mut self) -> MeasurementOutcome {
        if self.outcomes.is_empty() { MeasurementOutcome::Zero } else { self.outcomes.remove(0) }
    }

    fn factory_outcome(&mut self, _factory_id: u16, current_cycle: u64) -> FactoryOutcome {
        self.attempts += 1;
        if self.fail_every > 0 && self.attempts % self.fail_every == 0 {
            FactoryOutcome::Failed { failure_cycle: current_cycle + self.production / 2 }
        } else {
            FactoryOutcome::Produced { completion_cycle: current_cycle + self.production }
        }
    }
}

fn run(mut engine: Engine, oracle: &mut Scripted) -> Trace {
    while !engine.is_complete() {
        if engine.truncation_due() {
            return engine.finish_truncated();
        }
        if engine.advance() {
            while engine.process_next_event(oracle) {}
            engine.finish_step();
        }
    }
    engine.finish()
}

fn t_gate_chain(n: u64) -> ValidatedCircuit {
    validate(ProfilerCircuit {
        ops: (0..n).map(|i| Operation { id: i, kind: OpKind::TGate, qubits: vec![0], initially_active: true }).collect(),
        deps: (1..n).map(|i| Dependency { from: i - 1, to: i }).collect(),
        qubit_count: 1,
        qubit_positions: None,
        hooks: vec![],
        metadata: CircuitMetadata {
            name: "t".into(),
            source_framework: "test".into(),
            t_count: n,
            clifford_count: 0,
            rotation_count: 0,
            depth: n,
        },
    })
    .unwrap()
}

fn single_clifford() -> ValidatedCircuit {
    validate(ProfilerCircuit {
        ops: vec![Operation { id: 0, kind: OpKind::Clifford, qubits: vec![0], initially_active: true }],
        deps: vec![],
        qubit_count: 1,
        qubit_positions: None,
        hooks: vec![],
        metadata: CircuitMetadata {
            name: "c".into(),
            source_framework: "test".into(),
            t_count: 0,
            clifford_count: 1,
            rotation_count: 0,
            depth: 1,
        },
    })
    .unwrap()
}

fn cold_trace(circuit: &ValidatedCircuit, factories: u32, preload: u32, injections: Vec<bool>) -> Trace {
    let mut oracle = Scripted::simple(13);
    oracle.fail_every = 4;
    oracle.injections = injections;
    let params = EngineParams {
        factory_count: factories,
        buffer_capacity: 4,
        buffer_preload: preload,
        routing: RoutingKind::Scalar(ScalarRouting { overhead_cycles: 5 }),
        measurement_cycles: 1,
        feedback_delay: 1,
        fixup_cost_cycles: 2,
        p_logical_bits: 1e-6f64.to_bits(),
    };
    let engine = Engine::new(circuit, params, EngineConfig { seed: 0, max_cycles: None }, &mut oracle).unwrap();
    run(engine, &mut oracle)
}

fn utilization(active: u32, factory_count: u16) -> f64 {
    (f64::from(active) / f64::from(factory_count.max(1))).min(1.0)
}

fn check_total_cycles_matches_trace() {
    let trace = cold_trace(&t_gate_chain(5), 1, 0, vec![true, false, true]);
    let profile = ProfileAnalyzer::analyze(&trace, 1, 10);
    assert_eq!(profile.total_cycles, trace.total_cycles);
}

fn check_injection_errors_count_matches_trace() {
    let trace = cold_trace(&t_gate_chain(5), 1, 0, vec![true, false, true]);
    let trace_count = trace.events.iter().filter(|e| matches!(e.kind, TraceEventKind::InjectionError { .. })).count() as u64;
    let profile = ProfileAnalyzer::analyze(&trace, 1, 10);
    assert_eq!(profile.injection_errors, trace_count);
    assert_eq!(trace_count, 2);
}

fn check_factory_utilization_in_range() {
    let trace = cold_trace(&t_gate_chain(5), 2, 0, vec![]);
    let profile = ProfileAnalyzer::analyze(&trace, 2, 5);
    assert!(!profile.factory_active.is_empty(), "profile must have at least one bucket");
    for (i, &a) in profile.factory_active.iter().enumerate() {
        let u = utilization(a, 2);
        assert!((0.0..=1.0).contains(&u), "bucket {i}: factory_utilization {u} is outside [0.0, 1.0]");
    }
}

fn check_stall_events_nonempty_on_cold_start() {
    let trace = cold_trace(&t_gate_chain(5), 1, 0, vec![]);
    assert!(trace.events.iter().any(|e| matches!(e.kind, TraceEventKind::GateServed { wait, .. } if wait > 0)));
    let profile = ProfileAnalyzer::analyze(&trace, 1, 10);
    assert!(!profile.stall_events.is_empty(), "stall_events must be non-empty when buffer starts cold");
}

fn check_profile_vector_lengths_consistent() {
    let trace = cold_trace(&t_gate_chain(5), 1, 0, vec![]);
    let resolution = 8;
    let profile = ProfileAnalyzer::analyze(&trace, 1, resolution);
    let expected_buckets = usize::try_from((trace.total_cycles / resolution).saturating_add(1)).unwrap_or(usize::MAX / 2);
    assert_eq!(profile.factory_active.len(), expected_buckets);
    assert_eq!(profile.buffer_occupancy.len(), expected_buckets);
    assert_eq!(profile.bottleneck_type.len(), expected_buckets);
    assert_eq!(profile.magic_states_per_bucket.len(), expected_buckets);
}

fn check_no_injection_errors_when_probability_zero() {
    let trace = cold_trace(&t_gate_chain(5), 1, 4, vec![]);
    let profile = ProfileAnalyzer::analyze(&trace, 1, 1);
    assert_eq!(profile.injection_errors, 0);
    assert_eq!(profile.fixups_inserted, 0);
    assert_eq!(profile.critical_path_extension, 0);
}

fn check_bottleneck_none_when_no_stalls() {
    let trace = cold_trace(&single_clifford(), 1, 0, vec![]);
    let profile = ProfileAnalyzer::analyze(&trace, 1, 1);
    for (i, &bt) in profile.bottleneck_type.iter().enumerate() {
        assert_eq!(bt, BottleneckType::NoBottleneck, "bucket {i}: expected no bottleneck, got {bt:?}");
    }
}

#[test]
fn difference_array_matches_naive_reference() {
    let trace = cold_trace(&t_gate_chain(5), 2, 0, vec![]);
    let resolution = 1u64;
    let factory_count = 2u16;
    let profile = ProfileAnalyzer::analyze(&trace, factory_count, resolution);

    let num_buckets = usize::try_from(trace.total_cycles / resolution + 1).unwrap();
    let mut naive_active = vec![0u32; num_buckets];
    let mut starts = std::collections::HashMap::<u16, u64>::new();
    let to_b = |c: u64| usize::try_from(c / resolution).unwrap();
    for event in &trace.events {
        let b = to_b(event.cycle);
        match &event.kind {
            TraceEventKind::FactoryStarted { factory_id } => {
                starts.insert(*factory_id, event.cycle);
            }
            TraceEventKind::FactoryProduced { factory_id } | TraceEventKind::FactoryFailed { factory_id } => {
                if let Some(&s) = starts.get(factory_id) {
                    for slot in naive_active.iter_mut().take(b + 1).skip(to_b(s)) {
                        *slot += 1;
                    }
                }
            }
            _ => {}
        }
    }
    let last_b = to_b(trace.total_cycles);
    for &s in starts.values() {
        for slot in naive_active.iter_mut().take(last_b + 1).skip(to_b(s)) {
            *slot += 1;
        }
    }
    for (i, (&naive, &a)) in naive_active.iter().zip(profile.factory_active.iter()).enumerate() {
        let expected = utilization(naive, factory_count);
        let optimized = utilization(a, factory_count);
        assert!((expected - optimized).abs() < f64::EPSILON, "bucket {i}: naive={expected}, optimized={optimized}");
        assert_eq!(naive, a);
    }
}

fn hand_trace() -> Trace {
    let mut c = TraceCollector::new(16);
    c.record(0, TraceEventKind::FactoryStarted { factory_id: 0 });
    c.record(0, TraceEventKind::GateStalled { gate: 1 });
    c.record(4, TraceEventKind::FactoryFailed { factory_id: 0 });
    c.record(4, TraceEventKind::FactoryStarted { factory_id: 0 });
    c.record(9, TraceEventKind::FactoryProduced { factory_id: 0 });
    c.record(9, TraceEventKind::BufferEnqueue { occupancy: 1 });
    c.record(9, TraceEventKind::BufferDequeue { occupancy: 0 });
    c.record(9, TraceEventKind::GateServed { gate: 1, wait: 9 });
    c.record(9, TraceEventKind::FactoryStarted { factory_id: 0 });
    c.record(10, TraceEventKind::InjectionError { gate: 1 });
    c.record(10, TraceEventKind::FixupInserted { fixup: 77, original: 1 });
    c.record(13, TraceEventKind::FixupCompleted { fixup: 77 });
    c.record(14, TraceEventKind::GateServed { gate: 2, wait: 0 });
    c.finish(0, 15, 0.0f64.to_bits(), 2)
}

#[test]
fn analyze_hand_built_trace_exactly() {
    let p = ProfileAnalyzer::analyze(&hand_trace(), 1, 5);
    // Buckets: [0,5) [5,10) [10,15) [15,...]
    assert_eq!(p.resolution, 5);
    assert_eq!(p.factory_active, vec![2, 2, 1, 1]);
    assert_eq!(p.buffer_occupancy, vec![0, 0, 0, 0]);
    assert_eq!(
        p.bottleneck_type,
        vec![BottleneckType::NoBottleneck, BottleneckType::FactoryThroughput, BottleneckType::NoBottleneck, BottleneckType::NoBottleneck]
    );
    assert_eq!(p.stall_events, vec![StallRecord { cycle: 9, gate_id: 1, wait_cycles: 9 }]);
    assert_eq!(p.injection_errors, 1);
    assert_eq!(p.fixups_inserted, 1);
    assert_eq!(p.critical_path_extension, 3);
    assert_eq!(p.magic_states_per_bucket, vec![0, 1, 1, 0]);
    assert_eq!(p.magic_states_consumed, 2);
}

#[test]
fn analyze_balanced_bucket_and_zero_resolution() {
    let mut c = TraceCollector::new(4);
    c.record(0, TraceEventKind::FactoryStarted { factory_id: 0 });
    c.record(2, TraceEventKind::FactoryFailed { factory_id: 0 });
    c.record(2, TraceEventKind::GateServed { gate: 3, wait: 2 });
    let t = c.finish(0, 2, 0.0f64.to_bits(), 0);
    let p = ProfileAnalyzer::analyze(&t, 1, 0);
    assert_eq!(p.resolution, 1);
    assert_eq!(p.bottleneck_type[2], BottleneckType::Balanced);
    // A finished attempt leaves its start recorded, so the attempt is
    // counted once as closed and once more as still open at the end.
    assert_eq!(p.factory_active, vec![2, 2, 2]);
}

#[test]
fn cumulative_magic_states_is_prefix_sum() {
    assert_eq!(cumulative_sums(&[3, 0, 2, 5, 1]), vec![3, 3, 5, 10, 11]);
}

#[test]
fn cumulative_magic_states_empty() {
    assert!(cumulative_sums(&[]).is_empty());
}

#[test]
fn cumulative_last_equals_total() {
    let buckets = [4u64, 2, 7, 1];
    let cum = cumulative_sums(&buckets);
    assert_eq!(*cum.last().unwrap(), buckets.iter().sum::<u64>());
}

#[test]
fn cumulative_saturates() {
    assert_eq!(cumulative_sums(&[u64::MAX - 1, 5, 1]), vec![u64::MAX - 1, u64::MAX, u64::MAX]);
    let p = ProfileAnalyzer::analyze(&hand_trace(), 1, 5);
    assert_eq!(p.cumulative_magic_states(), vec![0, 1, 2, 2]);
}

#[test]
fn analyzer_total_cycles_matches_trace() {
    check_total_cycles_matches_trace();
}

#[test]
fn analysis_total_cycles_matches_trace() {
    check_total_cycles_matches_trace();
}

#[test]
fn analyzer_injection_errors_count_matches_trace() {
    check_injection_errors_count_matches_trace();
}

#[test]
fn analysis_injection_errors_count_matches_trace() {
    check_injection_errors_count_matches_trace();
}

#[test]
fn analyzer_factory_utilization_in_range() {
    check_factory_utilization_in_range();
}

#[test]
fn analysis_factory_utilization_in_range() {
    check_factory_utilization_in_range();
}

#[test]
fn analyzer_stall_events_nonempty_on_cold_start() {
    check_stall_events_nonempty_on_cold_start();
}

#[test]
fn analysis_stall_events_nonempty_on_cold_start() {
    check_stall_events_nonempty_on_cold_start();
}

#[test]
fn analyzer_profile_vector_lengths_consistent() {
    check_profile_vector_lengths_consistent();
}

#[test]
fn analysis_profile_vector_lengths_consistent() {
    check_profile_vector_lengths_consistent();
}

#[test]
fn analyzer_no_injection_errors_when_probability_zero() {
    check_no_injection_errors_when_probability_zero();
}

#[test]
fn analysis_no_injection_errors_when_probability_zero() {
    check_no_injection_errors_when_probability_zero();
}

#[test]
fn analyzer_bottleneck_none_when_no_stalls() {
    check_bottleneck_none_when_no_stalls();
}

#[test]
fn analysis_bottleneck_none_when_no_stalls() {
    check_bottleneck_none_when_no_stalls();
}
