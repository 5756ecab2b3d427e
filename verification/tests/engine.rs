use pirx::circuit::{
    CircuitMetadata, ConditionalActivation, Dependency, GridPosition, MeasurementHook,
    MeasurementOutcome, OpKind, Operation, ProfilerCircuit,
};
use pirx::engine::{hook_table_index, start_factories, Engine, EngineConfig, EngineError, EngineOracle, EngineParams};
use pirx::events::EngineEvent;
use pirx::ready_queue::OpKey;
use pirx::factory::FactoryOutcome;
use pirx::routing::{ManhattanRouting, RoutingKind, ScalarRouting};
use pirx::trace::{Trace, TraceEventKind, SYNTHETIC_ID_FLAG};
use pirx::validate::{validate, ValidatedCircuit};

/// Deterministic oracle: every factory produces after a fixed time, every
/// `fail_every`-th attempt fails instead, and injection errors and
/// measurement outcomes follow fixed patterns.
struct Scripted {
    production: u64,
    fail_every: u64,
    attempts: u64,
    injections: Vec<bool>,
    outcomes: Vec<MeasurementOutcome>,
}

impl Scripted {
    fn simple(production: u64) -> Self {
        Scripted { production, fail_every: 0, attempts: 0, injections: vec![], outcomes: vec![] }
    }
}

impl EngineOracle for Scripted {
    fn injection_error(&mut self) -> bool {
        if self.injections.is_empty() { false } else { self.injections.remove(0) }
    }

    fn measurement_outcome(&mut self) -> MeasurementOutcome {
        if self.outcomes.is_empty() { MeasurementOutcome::Zero } else { self.outcomes.remove(0) }
    }

    fn factory_outcome(&mut self, _factory_id: u16, current_cycle: u64) -> FactoryOutcome {
        self.attempts += 1;
        if self.fail_every > 0 && self.attempts % self.fail_every == 0 {
            FactoryOutcome::Failed { failure_cycle: current_cycle + self.production / 2 }
        } else {
            FactoryOutcome::Produced { completion_cycle: current_cycle + self.production }
        }
    }
}

fn run(mut engine: Engine, oracle: &mut Scripted) -> Trace {
    while !engine.is_complete() {
        if engine.truncation_due() {
            return engine.finish_truncated();
        }
        if engine.advance() {
            while engine.process_next_event(oracle) {}
            engine.finish_step();
        }
    }
    engine.finish()
}

fn meta() -> CircuitMetadata {
    CircuitMetadata {
        name: "test".into(),
        source_framework: "test".into(),
        t_count: 0,
        clifford_count: 0,
        rotation_count: 0,
        depth: 0,
    }
}

fn chain(kinds: &[OpKind]) -> ValidatedCircuit {
    let n = kinds.len() as u64;
    validate(ProfilerCircuit {
        ops: kinds
            .iter()
            .enumerate()
            .map(|(i, k)| Operation { id: i as u64, kind: *k, qubits: vec![0], initially_active: true })
            .collect(),
        deps: (1..n).map(|i| Dependency { from: i - 1, to: i }).collect(),
        qubit_count: 1,
        qubit_positions: None,
        hooks: vec![],
        metadata: meta(),
    })
    .unwrap()
}

fn one_clifford() -> ValidatedCircuit {
    chain(&[OpKind::Clifford])
}

fn params(factory_count: u32, capacity: u32, preload: u32) -> EngineParams {
    EngineParams {
        factory_count,
        buffer_capacity: capacity,
        buffer_preload: preload,
        routing: RoutingKind::Scalar(ScalarRouting { overhead_cycles: 5 }),
        measurement_cycles: 1,
        feedback_delay: 1,
        fixup_cost_cycles: 1,
        p_logical_bits: 0.0f64.to_bits(),
    }
}

fn config(seed: u64) -> EngineConfig {
    EngineConfig { seed, max_cycles: None }
}

fn check_rejects_zero_factories() {
    let r = Engine::new(&one_clifford(), params(0, 4, 0), config(0), &mut Scripted::simple(10));
    assert!(matches!(r, Err(EngineError::NoFactories)));
}

#[test]
fn mod_rejects_zero_factories() {
    check_rejects_zero_factories();
}

#[test]
fn engine_rejects_zero_factories() {
    check_rejects_zero_factories();
}

fn check_rejects_zero_buffer() {
    let r = Engine::new(&one_clifford(), params(1, 0, 0), config(0), &mut Scripted::simple(10));
    assert!(matches!(r, Err(EngineError::ZeroBuffer)));
}

#[test]
fn mod_rejects_zero_buffer() {
    check_rejects_zero_buffer();
}

#[test]
fn engine_rejects_zero_buffer() {
    check_rejects_zero_buffer();
}

fn check_smoke() {
    let mut oracle = Scripted::simple(10);
    let engine = Engine::new(&one_clifford(), params(2, 4, 0), config(42), &mut oracle).expect("valid engine");
    let trace = run(engine, &mut oracle);
    assert!(!trace.events.is_empty(), "trace must record at least one event");
    assert!(trace.total_cycles > 0, "simulation must advance at least one cycle");
}

#[test]
fn mod_smoke_single_clifford_cultivation() {
    check_smoke();
}

#[test]
fn engine_smoke_single_clifford_cultivation() {
    check_smoke();
}

fn manhattan_params() -> EngineParams {
    let mut p = params(1, 4, 0);
    p.routing = RoutingKind::Manhattan(ManhattanRouting { cycles_per_hop: 1 });
    p
}

fn check_rejects_manhattan() {
    let r = Engine::new(&one_clifford(), manhattan_params(), config(0), &mut Scripted::simple(10));
    assert!(matches!(r, Err(EngineError::MissingQubitPositions)));
}

#[test]
fn mod_rejects_manhattan_without_positions() {
    check_rejects_manhattan();
}

#[test]
fn engine_rejects_manhattan_without_positions() {
    check_rejects_manhattan();
}

fn check_scalar_ok() {
    let r = Engine::new(&one_clifford(), params(1, 4, 0), config(42), &mut Scripted::simple(10));
    assert!(r.is_ok());
}

#[test]
fn mod_scalar_routing_does_not_require_positions() {
    check_scalar_ok();
}

#[test]
fn engine_scalar_routing_does_not_require_positions() {
    check_scalar_ok();
}

#[test]
fn manhattan_with_positions_accepted() {
    let c = validate(ProfilerCircuit {
        ops: vec![Operation { id: 0, kind: OpKind::Clifford, qubits: vec![0, 1], initially_active: true }],
        deps: vec![],
        qubit_count: 2,
        qubit_positions: Some(vec![GridPosition { qubit: 0, row: 0, col: 0 }, GridPosition { qubit: 1, row: 2, col: 1 }]),
        hooks: vec![],
        metadata: meta(),
    })
    .unwrap();
    let mut oracle = Scripted::simple(10);
    let engine = Engine::new(&c, manhattan_params(), config(1), &mut oracle).unwrap();
    let trace = run(engine, &mut oracle);
    // Ready gates are first scheduled at the first event (production at 10);
    // routing latency 3 on top of the base cost of one cycle.
    assert!(trace.events.iter().any(|e| e.cycle == 10 && e.kind == TraceEventKind::RoutingCompleted { gate: 0, latency: 3 }));
    let done = trace.events.iter().find(|e| matches!(e.kind, TraceEventKind::GateCompleted { gate: 0 })).unwrap();
    assert_eq!(done.cycle, 14);
}

fn two_parallel_t_gates() -> ValidatedCircuit {
    validate(ProfilerCircuit {
        ops: vec![
            Operation { id: 0, kind: OpKind::TGate, qubits: vec![0], initially_active: true },
            Operation { id: 1, kind: OpKind::TGate, qubits: vec![1], initially_active: true },
        ],
        deps: vec![],
        qubit_count: 2,
        qubit_positions: None,
        hooks: vec![],
        metadata: meta(),
    })
    .unwrap()
}

#[test]
fn t_gate_stalls_then_served() {
    // One factory producing every 10 cycles, capacity 1, no preload: at
    // cycle 10 the first gate takes the state, the second stalls until 20.
    let mut oracle = Scripted::simple(10);
    let engine = Engine::new(&two_parallel_t_gates(), params(1, 1, 0), config(0), &mut oracle).unwrap();
    let trace = run(engine, &mut oracle);
    assert!(trace.events.iter().any(|e| e.cycle == 10 && e.kind == TraceEventKind::GateServed { gate: 0, wait: 0 }));
    assert!(trace.events.iter().any(|e| e.cycle == 10 && e.kind == TraceEventKind::GateStalled { gate: 1 }));
    assert!(trace.events.iter().any(|e| e.cycle == 20 && e.kind == TraceEventKind::GateServed { gate: 1, wait: 10 }));
    assert!(trace.events.iter().any(|e| matches!(e.kind, TraceEventKind::GateServed { wait, .. } if wait > 0)));
    assert_eq!(trace.total_cycles, 21);
}

#[test]
fn single_t_gate_served_immediately() {
    let mut oracle = Scripted::simple(10);
    let engine = Engine::new(&chain(&[OpKind::TGate]), params(1, 4, 1), config(0), &mut oracle).unwrap();
    let trace = run(engine, &mut oracle);
    let served: Vec<_> = trace.events.iter().filter(|e| matches!(e.kind, TraceEventKind::GateServed { .. })).collect();
    assert_eq!(served.len(), 1, "exactly one T-gate served");
    assert!(matches!(served[0].kind, TraceEventKind::GateServed { wait: 0, .. }));
    assert!(!trace.events.iter().any(|e| matches!(e.kind, TraceEventKind::GateStalled { .. })));
    assert_eq!(trace.total_cycles, 11);
}

#[test]
fn chain_respects_dependencies() {
    let mut oracle = Scripted::simple(10);
    let engine = Engine::new(
        &chain(&[OpKind::Clifford, OpKind::TGate, OpKind::Measurement { hook: None }]),
        params(1, 4, 1),
        config(0),
        &mut oracle,
    )
    .unwrap();
    let trace = run(engine, &mut oracle);
    let completed: Vec<u64> = trace
        .events
        .iter()
        .filter_map(|e| match e.kind {
            TraceEventKind::GateCompleted { .. } => Some(e.cycle),
            _ => None,
        })
        .collect();
    assert_eq!(completed.len(), 3);
    assert!(completed[0] < completed[1]);
    assert!(completed[1] < completed[2]);
}

#[test]
fn parallel_cliffords() {
    let c = validate(ProfilerCircuit {
        ops: (0..3).map(|i| Operation { id: i, kind: OpKind::Clifford, qubits: vec![i as u32], initially_active: true }).collect(),
        deps: vec![],
        qubit_count: 3,
        qubit_positions: None,
        hooks: vec![],
        metadata: meta(),
    })
    .unwrap();
    let mut oracle = Scripted::simple(10);
    let engine = Engine::new(&c, params(1, 4, 0), config(0), &mut oracle).unwrap();
    let trace = run(engine, &mut oracle);
    let ready: Vec<u64> = trace
        .events
        .iter()
        .filter_map(|e| match e.kind {
            TraceEventKind::GateReady { .. } => Some(e.cycle),
            _ => None,
        })
        .collect();
    assert_eq!(ready.len(), 3);
    assert!(ready.iter().all(|&c| c == ready[0]));
    assert_eq!(trace.events.iter().filter(|e| matches!(e.kind, TraceEventKind::GateCompleted { .. })).count(), 3);
}

#[test]
fn determinism() {
    let circuit = chain(&[OpKind::Clifford, OpKind::TGate, OpKind::Measurement { hook: None }]);
    let mut make = || {
        let mut o = Scripted::simple(7);
        o.fail_every = 3;
        o.injections = vec![true, false];
        o
    };
    let mut o1 = make();
    let t1 = run(Engine::new(&circuit, params(2, 2, 0), config(42), &mut o1).unwrap(), &mut o1);
    let mut o2 = make();
    let t2 = run(Engine::new(&circuit, params(2, 2, 0), config(42), &mut o2).unwrap(), &mut o2);
    assert_eq!(t1, t2, "same oracle outcomes must produce an identical trace");
}

#[test]
fn injection_fixup_extends_trace() {
    let mut oracle = Scripted::simple(10);
    oracle.injections = vec![true];
    let engine = Engine::new(&chain(&[OpKind::TGate]), params(1, 4, 1), config(0), &mut oracle).unwrap();
    let trace = run(engine, &mut oracle);
    assert!(trace.events.iter().any(|e| matches!(e.kind, TraceEventKind::InjectionError { .. })));
    assert!(trace.events.iter().any(|e| matches!(e.kind, TraceEventKind::FixupInserted { .. })));
    assert!(trace.events.iter().any(|e| matches!(e.kind, TraceEventKind::FixupCompleted { .. })));
}

#[test]
fn injection_error_inserts_fixup_with_synthetic_id() {
    let mut oracle = Scripted::simple(10);
    oracle.injections = vec![true, false];
    let engine = Engine::new(&chain(&[OpKind::TGate, OpKind::Clifford]), params(1, 4, 1), config(0), &mut oracle).unwrap();
    let trace = run(engine, &mut oracle);
    assert!(trace.events.iter().any(|e| e.kind == TraceEventKind::InjectionError { gate: 0 }));
    assert!(trace.events.iter().any(|e| e.kind == TraceEventKind::FixupInserted { fixup: SYNTHETIC_ID_FLAG, original: 0 }));
    assert!(trace.events.iter().any(|e| e.kind == TraceEventKind::FixupCompleted { fixup: SYNTHETIC_ID_FLAG }));
    let fixup_done = trace.events.iter().position(|e| matches!(e.kind, TraceEventKind::FixupCompleted { .. })).unwrap();
    let next_done = trace.events.iter().position(|e| e.kind == TraceEventKind::GateCompleted { gate: 1 }).unwrap();
    assert!(fixup_done < next_done, "the successor waits for the fixup");
}

fn hook_circuit() -> ValidatedCircuit {
    validate(ProfilerCircuit {
        ops: vec![
            Operation { id: 0, kind: OpKind::Measurement { hook: Some(0) }, qubits: vec![0], initially_active: true },
            Operation { id: 1, kind: OpKind::Clifford, qubits: vec![0], initially_active: false },
            Operation { id: 2, kind: OpKind::Clifford, qubits: vec![0], initially_active: false },
        ],
        deps: vec![Dependency { from: 0, to: 1 }, Dependency { from: 0, to: 2 }],
        qubit_count: 1,
        qubit_positions: None,
        hooks: vec![MeasurementHook {
            id: 0,
            activations: vec![
                ConditionalActivation { outcome: MeasurementOutcome::Zero, ops_to_activate: vec![1] },
                ConditionalActivation { outcome: MeasurementOutcome::One, ops_to_activate: vec![2] },
            ],
        }],
        metadata: meta(),
    })
    .unwrap()
}

#[test]
fn hook_activates_chosen_branch_after_feedback_delay() {
    for (outcome, branch) in [(MeasurementOutcome::Zero, 1u64), (MeasurementOutcome::One, 2u64)] {
        let mut oracle = Scripted::simple(10);
        oracle.outcomes = vec![outcome];
        let engine = Engine::new(&hook_circuit(), params(1, 4, 0), config(0), &mut oracle).unwrap();
        let trace = run(engine, &mut oracle);
        assert!(trace.events.iter().any(|e| e.kind == TraceEventKind::MeasurementOutcome { gate: 0, outcome }));
        let act = trace.events.iter().find(|e| matches!(e.kind, TraceEventKind::OpsActivated { .. })).unwrap();
        assert_eq!(act.kind, TraceEventKind::OpsActivated { gate: 0, activated_count: 1 });
        assert_eq!(act.cycle, 12, "measurement starts at 10, completes at 11, feedback delay 1");
        assert!(trace.events.iter().any(|e| e.kind == TraceEventKind::GateCompleted { gate: branch }));
        let other = 3 - branch;
        assert!(!trace.events.iter().any(|e| e.kind == TraceEventKind::GateCompleted { gate: other }));
    }
}

#[test]
fn max_cycles_truncates() {
    let mut oracle = Scripted::simple(1000);
    let engine = Engine::new(
        &chain(&[OpKind::TGate]),
        params(1, 4, 0),
        EngineConfig { seed: 0, max_cycles: Some(100) },
        &mut oracle,
    )
    .unwrap();
    let trace = run(engine, &mut oracle);
    assert!(trace.truncated);
    assert!(trace.total_cycles < 100);
}

fn laws_hold(trace: &Trace, capacity: u32) {
    for pair in trace.events.windows(2) {
        assert!(pair[0].cycle <= pair[1].cycle);
    }
    for e in &trace.events {
        assert!(e.cycle <= trace.total_cycles);
        if let TraceEventKind::BufferEnqueue { occupancy } | TraceEventKind::BufferDequeue { occupancy } = e.kind {
            assert!(occupancy <= capacity);
        }
    }
}

#[test]
fn trace_laws_on_mixed_circuit() {
    let kinds = [OpKind::TGate, OpKind::Clifford, OpKind::TGate, OpKind::Rotation { angle_bits: 0.3f64.to_bits() }, OpKind::TGate];
    let mut oracle = Scripted::simple(7);
    oracle.fail_every = 3;
    oracle.injections = vec![false, true, false, true];
    let engine = Engine::new(&chain(&kinds), params(2, 2, 0), config(5), &mut oracle).unwrap();
    let trace = run(engine, &mut oracle);
    laws_hold(&trace, 2);
    let completions = trace
        .events
        .iter()
        .filter(|e| matches!(e.kind, TraceEventKind::GateCompleted { .. } | TraceEventKind::FixupCompleted { .. }))
        .count();
    let fixups = trace.events.iter().filter(|e| matches!(e.kind, TraceEventKind::FixupInserted { .. })).count();
    assert_eq!(completions, kinds.len() + fixups);
}

#[test]
fn cliffords_never_stall() {
    let mut oracle = Scripted::simple(50);
    let engine = Engine::new(&chain(&[OpKind::Clifford; 6]), params(1, 1, 0), config(3), &mut oracle).unwrap();
    let trace = run(engine, &mut oracle);
    assert!(!trace.events.iter().any(|e| matches!(e.kind, TraceEventKind::GateStalled { .. })));
    laws_hold(&trace, 1);
}

#[test]
fn same_oracle_answers_give_same_trace() {
    let kinds = [OpKind::TGate, OpKind::TGate, OpKind::Clifford];
    let mk = || {
        let mut o = Scripted::simple(9);
        o.fail_every = 2;
        o.injections = vec![true, false, false];
        o
    };
    let mut o1 = mk();
    let t1 = run(Engine::new(&chain(&kinds), params(1, 3, 0), config(8), &mut o1).unwrap(), &mut o1);
    let mut o2 = mk();
    let t2 = run(Engine::new(&chain(&kinds), params(1, 3, 0), config(8), &mut o2).unwrap(), &mut o2);
    assert_eq!(t1, t2);
}

#[test]
fn hook_table_index_layout() {
    assert_eq!(hook_table_index(0, MeasurementOutcome::Zero), 0);
    assert_eq!(hook_table_index(0, MeasurementOutcome::One), 1);
    assert_eq!(hook_table_index(3, MeasurementOutcome::One), 7);
    assert_eq!(hook_table_index(u32::MAX, MeasurementOutcome::One), (u32::MAX as usize) * 2 + 1);
}

#[test]
fn factories_start_at_cycle_zero() {
    let mut oracle = Scripted::simple(10);
    let engine = Engine::new(&one_clifford(), params(3, 4, 0), config(0), &mut oracle).unwrap();
    assert_eq!(engine.current_cycle(), 0);
    let trace = engine.finish();
    let started: Vec<_> = trace.events.iter().map(|e| (e.cycle, e.kind.clone())).collect();
    assert_eq!(
        started,
        vec![
            (0, TraceEventKind::FactoryStarted { factory_id: 0 }),
            (0, TraceEventKind::FactoryStarted { factory_id: 1 }),
            (0, TraceEventKind::FactoryStarted { factory_id: 2 }),
        ]
    );
}

fn one_hook_circuit() -> ValidatedCircuit {
    validate(ProfilerCircuit {
        ops: vec![
            Operation { id: 0, kind: OpKind::Measurement { hook: Some(0) }, qubits: vec![0], initially_active: true },
            Operation { id: 1, kind: OpKind::Clifford, qubits: vec![0], initially_active: false },
        ],
        deps: vec![Dependency { from: 0, to: 1 }],
        qubit_count: 1,
        qubit_positions: None,
        hooks: vec![MeasurementHook {
            id: 0,
            activations: vec![ConditionalActivation { outcome: MeasurementOutcome::One, ops_to_activate: vec![1] }],
        }],
        metadata: meta(),
    })
    .unwrap()
}

#[test]
fn hook_circuit_terminates() {
    for outcome in [MeasurementOutcome::Zero, MeasurementOutcome::One] {
        let mut oracle = Scripted::simple(10);
        oracle.outcomes = vec![outcome];
        let engine = Engine::new(&one_hook_circuit(), params(1, 4, 0), config(0), &mut oracle).unwrap();
        let trace = run(engine, &mut oracle);
        assert!(trace.total_cycles > 0);
        assert!(trace.events.iter().any(|e| matches!(e.kind, TraceEventKind::GateCompleted { .. })));
    }
}

#[test]
fn hook_both_outcomes_covered() {
    for outcome in [MeasurementOutcome::Zero, MeasurementOutcome::One] {
        let mut oracle = Scripted::simple(10);
        oracle.outcomes = vec![outcome];
        let engine = Engine::new(&hook_circuit(), params(1, 4, 0), config(0), &mut oracle).unwrap();
        let trace = run(engine, &mut oracle);
        let outcomes: Vec<_> = trace
            .events
            .iter()
            .filter_map(|e| match e.kind {
                TraceEventKind::MeasurementOutcome { outcome, .. } => Some(outcome),
                _ => None,
            })
            .collect();
        assert_eq!(outcomes, vec![outcome]);
        let completed = trace.events.iter().filter(|e| matches!(e.kind, TraceEventKind::GateCompleted { .. })).count();
        assert_eq!(completed, 2, "measurement + exactly one branch must complete");
    }
}

#[test]
fn max_cycles_none_completes() {
    let mut oracle = Scripted::simple(54);
    let engine = Engine::new(&chain(&[OpKind::TGate]), params(1, 1, 1), config(0), &mut oracle).unwrap();
    let trace = run(engine, &mut oracle);
    assert!(!trace.truncated);
    assert!(trace.events.iter().any(|e| matches!(e.kind, TraceEventKind::GateCompleted { .. })));
}

#[test]
fn max_cycles_larger_than_needed() {
    let mut oracle = Scripted::simple(10);
    let engine = Engine::new(
        &one_clifford(),
        params(1, 4, 0),
        EngineConfig { seed: 0, max_cycles: Some(1_000_000) },
        &mut oracle,
    )
    .unwrap();
    let trace = run(engine, &mut oracle);
    assert!(!trace.truncated);
}

#[test]
fn hook_activates_t_gate_with_injection() {
    let c = validate(ProfilerCircuit {
        ops: vec![
            Operation { id: 0, kind: OpKind::Measurement { hook: Some(0) }, qubits: vec![0], initially_active: true },
            Operation { id: 1, kind: OpKind::TGate, qubits: vec![0], initially_active: false },
        ],
        deps: vec![Dependency { from: 0, to: 1 }],
        qubit_count: 1,
        qubit_positions: None,
        hooks: vec![MeasurementHook {
            id: 0,
            activations: vec![ConditionalActivation { outcome: MeasurementOutcome::One, ops_to_activate: vec![1] }],
        }],
        metadata: meta(),
    })
    .unwrap();
    let mut oracle = Scripted::simple(10);
    oracle.outcomes = vec![MeasurementOutcome::One];
    oracle.injections = vec![true];
    let engine = Engine::new(&c, params(1, 4, 1), config(0), &mut oracle).unwrap();
    let trace = run(engine, &mut oracle);
    assert!(trace.events.iter().any(|e| matches!(e.kind, TraceEventKind::OpsActivated { .. })));
    assert!(trace.events.iter().any(|e| matches!(e.kind, TraceEventKind::InjectionError { .. })));
    assert!(trace.events.iter().any(|e| matches!(e.kind, TraceEventKind::FixupInserted { .. })));
    assert!(trace.events.iter().any(|e| matches!(e.kind, TraceEventKind::FixupCompleted { .. })));
}

#[test]
fn trace_ids_match_circuit_op_ids() {
    let c = validate(ProfilerCircuit {
        ops: vec![
            Operation { id: 100, kind: OpKind::Clifford, qubits: vec![0], initially_active: true },
            Operation { id: 200, kind: OpKind::Clifford, qubits: vec![1], initially_active: true },
            Operation { id: 300, kind: OpKind::Clifford, qubits: vec![2], initially_active: true },
        ],
        deps: vec![],
        qubit_count: 3,
        qubit_positions: None,
        hooks: vec![],
        metadata: meta(),
    })
    .unwrap();
    let mut oracle = Scripted::simple(10);
    let engine = Engine::new(&c, params(1, 4, 0), config(0), &mut oracle).unwrap();
    let trace = run(engine, &mut oracle);
    let mut ids: Vec<u64> = trace
        .events
        .iter()
        .filter_map(|e| match e.kind {
            TraceEventKind::GateCompleted { gate } => Some(gate),
            _ => None,
        })
        .collect();
    ids.sort_unstable();
    assert_eq!(ids, vec![100, 200, 300]);
}

#[test]
fn fixup_ids_have_synthetic_flag() {
    let c = validate(ProfilerCircuit {
        ops: vec![Operation { id: 42, kind: OpKind::TGate, qubits: vec![0], initially_active: true }],
        deps: vec![],
        qubit_count: 1,
        qubit_positions: None,
        hooks: vec![],
        metadata: meta(),
    })
    .unwrap();
    let mut oracle = Scripted::simple(10);
    oracle.injections = vec![true];
    let engine = Engine::new(&c, params(1, 4, 4), EngineConfig { seed: 0, max_cycles: Some(10_000) }, &mut oracle).unwrap();
    let trace = run(engine, &mut oracle);
    let fixups: Vec<(u64, u64)> = trace
        .events
        .iter()
        .filter_map(|e| match e.kind {
            TraceEventKind::FixupInserted { fixup, original } => Some((fixup, original)),
            _ => None,
        })
        .collect();
    assert!(!fixups.is_empty());
    for (fixup, original) in &fixups {
        assert!(fixup & SYNTHETIC_ID_FLAG != 0);
        assert!(original & SYNTHETIC_ID_FLAG == 0);
        assert_eq!(*original, 42);
    }
}

#[test]
fn gate_lifecycle_ids_consistent() {
    let c = validate(ProfilerCircuit {
        ops: vec![Operation { id: 777, kind: OpKind::Clifford, qubits: vec![0], initially_active: true }],
        deps: vec![],
        qubit_count: 1,
        qubit_positions: None,
        hooks: vec![],
        metadata: meta(),
    })
    .unwrap();
    let mut oracle = Scripted::simple(10);
    let engine = Engine::new(&c, params(1, 4, 0), config(0), &mut oracle).unwrap();
    let trace = run(engine, &mut oracle);
    let pick = |f: fn(TraceEventKind) -> Option<u64>| -> Vec<u64> { trace.events.iter().filter_map(|e| f(e.kind)).collect() };
    assert_eq!(pick(|k| if let TraceEventKind::GateReady { gate } = k { Some(gate) } else { None }), [777]);
    assert_eq!(pick(|k| if let TraceEventKind::GateScheduled { gate } = k { Some(gate) } else { None }), [777]);
    assert_eq!(pick(|k| if let TraceEventKind::GateCompleted { gate } = k { Some(gate) } else { None }), [777]);
}

#[test]
fn single_clifford() {
    let mut oracle = Scripted::simple(10);
    let engine = Engine::new(&one_clifford(), params(1, 4, 0), config(0), &mut oracle).unwrap();
    let trace = run(engine, &mut oracle);
    assert!(trace.events.iter().any(|e| matches!(e.kind, TraceEventKind::GateCompleted { .. })));
    assert!(!trace.events.iter().any(|e| matches!(e.kind, TraceEventKind::GateStalled { .. })));
    assert!(!trace.events.iter().any(|e| matches!(e.kind, TraceEventKind::GateServed { .. })));
    assert!(trace.total_cycles > 0);
}

#[test]
fn completed_ops_equal_initial_plus_activated_plus_fixups() {
    for (outcome, injections) in [
        (MeasurementOutcome::One, vec![false]),
        (MeasurementOutcome::One, vec![true, false]),
        (MeasurementOutcome::Zero, vec![]),
    ] {
        let c = validate(ProfilerCircuit {
            ops: vec![
                Operation { id: 0, kind: OpKind::Measurement { hook: Some(0) }, qubits: vec![0], initially_active: true },
                Operation { id: 1, kind: OpKind::TGate, qubits: vec![0], initially_active: false },
            ],
            deps: vec![Dependency { from: 0, to: 1 }],
            qubit_count: 1,
            qubit_positions: None,
            hooks: vec![MeasurementHook {
                id: 0,
                activations: vec![ConditionalActivation { outcome: MeasurementOutcome::One, ops_to_activate: vec![1] }],
            }],
            metadata: meta(),
        })
        .unwrap();
        let mut oracle = Scripted::simple(10);
        oracle.outcomes = vec![outcome];
        oracle.injections = injections.clone();
        let engine = Engine::new(&c, params(1, 4, 1), config(0), &mut oracle).unwrap();
        let trace = run(engine, &mut oracle);
        let completed = trace
            .events
            .iter()
            .filter(|e| matches!(e.kind, TraceEventKind::GateCompleted { .. } | TraceEventKind::FixupCompleted { .. }))
            .count() as u64;
        let activated: u64 = trace
            .events
            .iter()
            .filter_map(|e| match e.kind {
                TraceEventKind::OpsActivated { activated_count, .. } => Some(u64::from(activated_count)),
                _ => None,
            })
            .sum();
        let fixups = trace.events.iter().filter(|e| matches!(e.kind, TraceEventKind::FixupInserted { .. })).count() as u64;
        assert_eq!(completed, 1 + activated + fixups);
        let expected_fixups = if injections.first() == Some(&true) { 1 } else { 0 };
        assert_eq!(fixups, expected_fixups);
        assert_eq!(activated, if outcome == MeasurementOutcome::One { 1 } else { 0 });
    }
}

#[test]
fn schedule_attempt_follows_the_given_outcome() {
    let mut oracle = Scripted::simple(1000);
    let mut engine = Engine::new(&chain(&[OpKind::TGate]), params(1, 4, 0), config(0), &mut oracle).unwrap();
    engine.schedule_attempt(0, FactoryOutcome::Failed { failure_cycle: 77 });
    engine.schedule_attempt(5, FactoryOutcome::Produced { completion_cycle: 3 });
    let trace = run(engine, &mut oracle);
    let starts = trace.events.iter().filter(|e| e.kind == TraceEventKind::FactoryStarted { factory_id: 0 }).count();
    assert!(starts >= 2);
    assert!(!trace.events.iter().any(|e| e.kind == TraceEventKind::FactoryStarted { factory_id: 5 }));
    let failed = trace.events.iter().find(|e| e.kind == TraceEventKind::FactoryFailed { factory_id: 0 }).unwrap();
    assert_eq!(failed.cycle, 77);
}

#[test]
fn start_factories_schedules_each_outcome() {
    let outcomes = [FactoryOutcome::Produced { completion_cycle: 5 }, FactoryOutcome::Failed { failure_cycle: 3 }];
    let (trace, mut queue) = start_factories(&outcomes, 4);
    assert_eq!(trace.len(), 2);
    let first = queue.pop().unwrap();
    assert_eq!((first.cycle, first.seq, first.event), (3, 1, EngineEvent::FactoryFailed { factory_id: 1 }));
    let second = queue.pop().unwrap();
    assert_eq!((second.cycle, second.seq, second.event), (5, 0, EngineEvent::FactoryProduced { factory_id: 0 }));
    assert!(queue.pop().is_none());
}

#[test]
fn complete_gate_with_follows_the_injection_answer() {
    for injection_error in [true, false] {
        let mut oracle = Scripted::simple(10);
        let mut engine = Engine::new(&chain(&[OpKind::TGate, OpKind::Clifford]), params(1, 4, 0), config(0), &mut oracle).unwrap();
        engine.complete_gate_with(OpKey(0), injection_error, MeasurementOutcome::Zero);
        let trace = engine.finish();
        let injected = trace.events.iter().any(|e| e.kind == TraceEventKind::InjectionError { gate: 0 });
        let fixup = trace.events.iter().any(|e| e.kind == TraceEventKind::FixupInserted { fixup: SYNTHETIC_ID_FLAG, original: 0 });
        assert_eq!(injected, injection_error);
        assert_eq!(fixup, injection_error);
    }
}

#[test]
fn complete_gate_with_ignores_injection_for_a_clifford() {
    let mut oracle = Scripted::simple(10);
    let mut engine = Engine::new(&chain(&[OpKind::Clifford, OpKind::Clifford]), params(1, 4, 0), config(0), &mut oracle).unwrap();
    engine.complete_gate_with(OpKey(0), true, MeasurementOutcome::Zero);
    let trace = engine.finish();
    assert!(!trace.events.iter().any(|e| matches!(e.kind, TraceEventKind::InjectionError { .. })));
}

#[test]
fn dispatch_hook_with_records_the_given_outcome() {
    for outcome in [MeasurementOutcome::Zero, MeasurementOutcome::One] {
        let mut oracle = Scripted::simple(10);
        let mut engine = Engine::new(&hook_circuit(), params(1, 4, 0), config(0), &mut oracle).unwrap();
        engine.dispatch_hook_with(OpKey(0), 0, outcome);
        let trace = engine.finish();
        let last = trace.events.last().unwrap();
        assert_eq!(last.kind, TraceEventKind::MeasurementOutcome { gate: 0, outcome });
    }
}

#[test]
fn magic_states_consumed_counts_served_gates() {
    let mut oracle = Scripted::simple(10);
    let engine = Engine::new(&chain(&[OpKind::TGate, OpKind::Clifford, OpKind::TGate, OpKind::TGate]), params(1, 4, 1), config(0), &mut oracle).unwrap();
    let trace = run(engine, &mut oracle);
    let served = trace.events.iter().filter(|e| matches!(e.kind, TraceEventKind::GateServed { .. })).count() as u64;
    assert_eq!(served, 3);
    assert_eq!(trace.magic_states_consumed, 3);
}
