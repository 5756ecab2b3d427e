use pirx::circuit::{
    CircuitMetadata, ConditionalActivation, Dependency, GridPosition, MeasurementHook,
    MeasurementOutcome, OpKind, Operation, ProfilerCircuit,
};
use pirx::validate::{validate, ValidationError};

fn test_meta() -> CircuitMetadata {
    CircuitMetadata {
        name: "test".into(),
        source_framework: "test".into(),
        t_count: 1,
        clifford_count: 1,
        rotation_count: 0,
        depth: 2,
    }
}

fn op(id: u64, kind: OpKind, qubits: Vec<u32>, initially_active: bool) -> Operation {
    Operation { id, kind, qubits, initially_active }
}

fn minimal_circuit() -> ProfilerCircuit {
    ProfilerCircuit {
        ops: vec![op(0, OpKind::Clifford, vec![0], true), op(1, OpKind::TGate, vec![0], true)],
        deps: vec![Dependency { from: 0, to: 1 }],
        qubit_count: 1,
        qubit_positions: None,
        hooks: vec![],
        metadata: test_meta(),
    }
}

#[test]
fn valid_circuit_passes() {
    assert!(validate(minimal_circuit()).is_ok());
}

#[test]
fn empty_circuit_rejected() {
    let mut c = minimal_circuit();
    c.ops.clear();
    assert!(matches!(validate(c), Err(ValidationError::EmptyCircuit)));
}

#[test]
fn dangling_dependency_rejected() {
    let mut c = minimal_circuit();
    c.deps.push(Dependency { from: 0, to: 99 });
    assert!(matches!(validate(c), Err(ValidationError::DanglingDependency(99))));
}

#[test]
fn invalid_qubit_rejected() {
    let mut c = minimal_circuit();
    c.ops[0].qubits = vec![5];
    assert!(matches!(validate(c), Err(ValidationError::InvalidQubit { .. })));
}

#[test]
fn cyclic_dag_rejected() {
    let mut c = minimal_circuit();
    c.deps.push(Dependency { from: 1, to: 0 });
    assert!(matches!(validate(c), Err(ValidationError::CyclicDag)));
}

#[test]
fn duplicate_op_id_rejected() {
    let mut c = minimal_circuit();
    c.ops.push(op(0, OpKind::Clifford, vec![0], true));
    assert!(matches!(validate(c), Err(ValidationError::DuplicateOpId(0))));
}

#[test]
fn valid_positions_passes() {
    let mut c = minimal_circuit();
    c.qubit_positions = Some(vec![GridPosition { qubit: 0, row: 0, col: 0 }]);
    assert!(validate(c).is_ok());
}

#[test]
fn position_count_mismatch_rejected() {
    let mut c = minimal_circuit();
    c.qubit_positions = Some(vec![
        GridPosition { qubit: 0, row: 0, col: 0 },
        GridPosition { qubit: 1, row: 0, col: 1 },
    ]);
    assert!(matches!(
        validate(c),
        Err(ValidationError::QubitPositionCountMismatch { expected: 1, got: 2 })
    ));
}

#[test]
fn duplicate_qubit_position_rejected() {
    let mut c = minimal_circuit();
    c.qubit_count = 2;
    c.qubit_positions = Some(vec![
        GridPosition { qubit: 0, row: 0, col: 0 },
        GridPosition { qubit: 0, row: 1, col: 0 },
    ]);
    assert!(matches!(validate(c), Err(ValidationError::DuplicateQubitPosition(0))));
}

#[test]
fn position_qubit_out_of_range_rejected() {
    let mut c = minimal_circuit();
    c.qubit_positions = Some(vec![GridPosition { qubit: 99, row: 0, col: 0 }]);
    assert!(matches!(
        validate(c),
        Err(ValidationError::QubitPositionInvalidQubit { qubit_id: 99, qubit_count: 1 })
    ));
}

fn hook(id: u32, activations: Vec<ConditionalActivation>) -> MeasurementHook {
    MeasurementHook { id, activations }
}

#[test]
fn valid_hook_passes() {
    let c = ProfilerCircuit {
        ops: vec![
            op(0, OpKind::Measurement { hook: Some(0) }, vec![0], true),
            op(1, OpKind::Clifford, vec![0], false),
        ],
        deps: vec![Dependency { from: 0, to: 1 }],
        qubit_count: 1,
        qubit_positions: None,
        hooks: vec![hook(
            0,
            vec![ConditionalActivation { outcome: MeasurementOutcome::One, ops_to_activate: vec![1] }],
        )],
        metadata: test_meta(),
    };
    assert!(validate(c).is_ok());
}

#[test]
fn dangling_hook_reference_rejected() {
    let c = ProfilerCircuit {
        ops: vec![op(0, OpKind::Measurement { hook: Some(99) }, vec![0], true)],
        deps: vec![],
        qubit_count: 1,
        qubit_positions: None,
        hooks: vec![],
        metadata: test_meta(),
    };
    assert!(matches!(validate(c), Err(ValidationError::DanglingHookReference(99))));
}

#[test]
fn hook_references_nonexistent_op_rejected() {
    let c = ProfilerCircuit {
        ops: vec![op(0, OpKind::Measurement { hook: Some(0) }, vec![0], true)],
        deps: vec![],
        qubit_count: 1,
        qubit_positions: None,
        hooks: vec![hook(
            0,
            vec![ConditionalActivation { outcome: MeasurementOutcome::One, ops_to_activate: vec![999] }],
        )],
        metadata: test_meta(),
    };
    assert!(matches!(validate(c), Err(ValidationError::DanglingDependency(999))));
}

#[test]
fn hook_references_active_op_rejected() {
    let c = ProfilerCircuit {
        ops: vec![
            op(0, OpKind::Measurement { hook: Some(0) }, vec![0], true),
            op(1, OpKind::Clifford, vec![0], true),
        ],
        deps: vec![Dependency { from: 0, to: 1 }],
        qubit_count: 1,
        qubit_positions: None,
        hooks: vec![hook(
            0,
            vec![ConditionalActivation { outcome: MeasurementOutcome::One, ops_to_activate: vec![1] }],
        )],
        metadata: test_meta(),
    };
    assert!(matches!(validate(c), Err(ValidationError::ActiveOpInHook(1))));
}

#[test]
fn orphaned_inactive_op_rejected() {
    let c = ProfilerCircuit {
        ops: vec![op(0, OpKind::Clifford, vec![0], true), op(1, OpKind::Clifford, vec![0], false)],
        deps: vec![Dependency { from: 0, to: 1 }],
        qubit_count: 1,
        qubit_positions: None,
        hooks: vec![],
        metadata: test_meta(),
    };
    assert!(matches!(validate(c), Err(ValidationError::OrphanedInactiveOp(1))));
}

#[test]
fn measurement_without_hook_passes() {
    let c = ProfilerCircuit {
        ops: vec![op(0, OpKind::Measurement { hook: None }, vec![0], true)],
        deps: vec![],
        qubit_count: 1,
        qubit_positions: None,
        hooks: vec![],
        metadata: test_meta(),
    };
    assert!(validate(c).is_ok());
}

#[test]
fn multiple_hooks_both_outcomes_passes() {
    let c = ProfilerCircuit {
        ops: vec![
            op(0, OpKind::Measurement { hook: Some(0) }, vec![0], true),
            op(1, OpKind::Clifford, vec![0], false),
            op(2, OpKind::Clifford, vec![0], false),
        ],
        deps: vec![Dependency { from: 0, to: 1 }, Dependency { from: 0, to: 2 }],
        qubit_count: 1,
        qubit_positions: None,
        hooks: vec![hook(
            0,
            vec![
                ConditionalActivation { outcome: MeasurementOutcome::Zero, ops_to_activate: vec![1] },
                ConditionalActivation { outcome: MeasurementOutcome::One, ops_to_activate: vec![2] },
            ],
        )],
        metadata: test_meta(),
    };
    assert!(validate(c).is_ok());
}

#[test]
fn first_failing_check_is_reported() {
    // Both a duplicate id and a bad qubit: the duplicate is checked first.
    let mut c = minimal_circuit();
    c.ops.push(op(1, OpKind::Clifford, vec![7], true));
    assert!(matches!(validate(c), Err(ValidationError::DuplicateOpId(1))));
}

#[test]
fn invalid_qubit_reports_first_offender() {
    let mut c = minimal_circuit();
    c.ops[1].qubits = vec![0, 3, 9];
    assert!(matches!(
        validate(c),
        Err(ValidationError::InvalidQubit { op_id: 1, qubit_id: 3, qubit_count: 1 })
    ));
}

#[test]
fn validated_circuit_reads_through() {
    let v = validate(minimal_circuit()).unwrap();
    assert_eq!(v.ops.len(), 2);
    assert_eq!(v.circuit().deps.len(), 1);
    let inner = v.into_inner();
    assert_eq!(inner.qubit_count, 1);
}
