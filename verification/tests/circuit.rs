use pirx::circuit::{
    default_active, CircuitMetadata, ConditionalActivation, Dependency, GridPosition,
    MeasurementHook, MeasurementOutcome, OpKind, Operation, ProfilerCircuit,
};

#[test]
fn grid_position_equality() {
    let a = GridPosition { qubit: 0, row: 3, col: 5 };
    let b = GridPosition { qubit: 0, row: 3, col: 5 };
    let c = GridPosition { qubit: 0, row: 3, col: 6 };
    assert_eq!(a, b);
    assert_ne!(a, c);
}

#[test]
fn measurement_hook_none_is_copy() {
    let kind = OpKind::Measurement { hook: None };
    let copy = kind;
    assert_eq!(kind, copy);
}

#[test]
fn measurement_hook_some_is_copy() {
    let kind = OpKind::Measurement { hook: Some(42) };
    let copy = kind;
    assert_eq!(kind, copy);
}

#[test]
fn construct_circuit_with_hooks_and_inactive_ops() {
    let circuit = ProfilerCircuit {
        ops: vec![
            Operation { id: 0, kind: OpKind::Measurement { hook: Some(0) }, qubits: vec![0], initially_active: true },
            Operation { id: 1, kind: OpKind::Clifford, qubits: vec![0], initially_active: false },
        ],
        deps: vec![Dependency { from: 0, to: 1 }],
        qubit_count: 1,
        qubit_positions: None,
        hooks: vec![MeasurementHook {
            id: 0,
            activations: vec![ConditionalActivation {
                outcome: MeasurementOutcome::One,
                ops_to_activate: vec![1],
            }],
        }],
        metadata: CircuitMetadata {
            name: "hooks".into(),
            source_framework: "test".into(),
            t_count: 0,
            clifford_count: 1,
            rotation_count: 0,
            depth: 2,
        },
    };
    assert!(!circuit.ops[1].initially_active);
    assert_eq!(circuit.hooks[0].activations[0].outcome, MeasurementOutcome::One);
    assert_eq!(circuit.hooks[0].activations[0].ops_to_activate, vec![1]);
}

#[test]
fn operations_default_to_active() {
    assert!(default_active());
}
