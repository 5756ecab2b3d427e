use pirx::adapter_error::TketJsonError;
use pirx::builder::{CircuitBuilder, QubitRegistry, QubitResolveError};
use pirx::circuit::{Dependency, OpKind};
use pirx::qasm::{build_circuit as build_qasm, QasmBuildError, QasmFailure, QasmRef, QasmStmt};
use pirx::tket::{build_circuit as build_tket, TketCommand, TketCommandClass, TketKindError};
use pirx::validate::ValidationError;

fn dep(from: u64, to: u64) -> Dependency {
    Dependency { from, to }
}

#[test]
fn registry_numbers_registers_consecutively() {
    let mut r = QubitRegistry::new();
    assert_eq!(r.qubit_count(), 0);
    r.register(7, 3);
    r.register(9, 1);
    assert_eq!(r.qubit_count(), 4);
    assert_eq!(r.resolve(7, Some(0)), Ok(0));
    assert_eq!(r.resolve(7, Some(2)), Ok(2));
    assert_eq!(r.resolve(9, None), Ok(3));
    assert_eq!(r.resolve(9, Some(0)), Ok(3));
}

#[test]
fn registry_resolution_errors() {
    let mut r = QubitRegistry::new();
    r.register(1, 2);
    assert_eq!(r.resolve(2, None), Err(QubitResolveError::Unresolved));
    assert_eq!(r.resolve(1, Some(2)), Err(QubitResolveError::IndexOutOfBounds { index: 2, size: 2 }));
    assert_eq!(r.resolve(1, None), Err(QubitResolveError::BareMultiQubitRegister));
}

#[test]
fn registry_count_saturates() {
    let mut r = QubitRegistry::new();
    r.register(1, u32::MAX);
    r.register(2, 5);
    assert_eq!(r.qubit_count(), u32::MAX);
}

#[test]
fn same_qubit_gates_are_chained() {
    let mut b = CircuitBuilder::new(2);
    b.emit_operation(OpKind::Clifford, &[0]);
    b.emit_operation(OpKind::TGate, &[0]);
    b.emit_operation(OpKind::Clifford, &[1]);
    let c = b.into_circuit("c".to_string(), "test".to_string());
    assert_eq!(c.ops.len(), 3);
    assert_eq!(c.ops[1].id, 1);
    assert_eq!(c.deps, vec![dep(0, 1)]);
    assert_eq!(c.metadata.t_count, 1);
    assert_eq!(c.metadata.clifford_count, 2);
    assert_eq!(c.metadata.depth, 2);
}

#[test]
fn two_qubit_gate_depends_on_both_qubits() {
    let mut b = CircuitBuilder::new(2);
    b.emit_operation(OpKind::Clifford, &[0]);
    b.emit_operation(OpKind::Clifford, &[1]);
    b.emit_operation(OpKind::Clifford, &[0, 1]);
    b.emit_operation(OpKind::Clifford, &[1]);
    let c = b.into_circuit(String::new(), String::new());
    assert_eq!(c.deps, vec![dep(0, 2), dep(1, 2), dep(2, 3)]);
    assert_eq!(c.metadata.depth, 3);
}

#[test]
fn rotation_counted_and_qubit_count_grows() {
    let mut b = CircuitBuilder::new(1);
    b.emit_operation(OpKind::Rotation { angle_bits: 0.3f64.to_bits() }, &[0]);
    b.set_qubit_count(3);
    b.emit_operation(OpKind::Clifford, &[2]);
    let c = b.into_circuit(String::new(), String::new());
    assert_eq!(c.qubit_count, 3);
    assert_eq!(c.metadata.rotation_count, 1);
    assert!(c.deps.is_empty());
}

#[test]
fn finish_validates() {
    let b = CircuitBuilder::new(1);
    let r = b.finish("e".to_string(), "t".to_string());
    assert_eq!(r.err(), Some(ValidationError::EmptyCircuit));

    let mut b = CircuitBuilder::new(1);
    b.emit_operation(OpKind::Clifford, &[3]);
    let r = b.finish("e".to_string(), "t".to_string());
    assert_eq!(r.err(), Some(ValidationError::InvalidQubit { op_id: 0, qubit_id: 3, qubit_count: 1 }));
}

fn gate(op: &str, args: Vec<Option<u32>>, kind: OpKind) -> TketCommand {
    TketCommand { class: TketCommandClass::Gate, op_type: op.to_string(), args, kind: Ok(kind) }
}

#[test]
fn tket_commands_build_circuit() {
    let cmds = vec![
        TketCommand { class: TketCommandClass::Skipped, op_type: "Barrier".to_string(), args: vec![Some(0), Some(1)], kind: Ok(OpKind::Clifford) },
        gate("H", vec![Some(0)], OpKind::Clifford),
        gate("CX", vec![Some(0), Some(1)], OpKind::Clifford),
        gate("T", vec![Some(1)], OpKind::TGate),
        gate("Measure", vec![Some(1), None], OpKind::Measurement { hook: None }),
    ];
    let c = build_tket(2, &cmds, "small".to_string()).unwrap();
    assert_eq!(c.ops.len(), 4);
    assert_eq!(c.deps, vec![dep(0, 1), dep(1, 2), dep(2, 3)]);
    assert_eq!(c.metadata.t_count, 1);
    assert_eq!(c.metadata.clifford_count, 2);
    assert_eq!(c.metadata.source_framework, "tket");
    assert_eq!(c.metadata.name, "small");
    assert_eq!(c.ops[3].qubits, vec![1]);
}

#[test]
fn tket_unsupported_command_refused() {
    let cmds = vec![
        gate("H", vec![Some(0)], OpKind::Clifford),
        TketCommand { class: TketCommandClass::Unsupported, op_type: "CircBox".to_string(), args: vec![Some(0)], kind: Ok(OpKind::Clifford) },
    ];
    let r = build_tket(1, &cmds, String::new());
    assert!(matches!(r, Err(TketJsonError::UnsupportedOperation { ref op_type }) if op_type == "CircBox"));
}

#[test]
fn tket_symbolic_parameter_refused() {
    let cmds = vec![TketCommand {
        class: TketCommandClass::Gate,
        op_type: "Rz".to_string(),
        args: vec![Some(0)],
        kind: Err(TketKindError::SymbolicParameter { gate: "Rz".to_string(), param: "a".to_string() }),
    }];
    let r = build_tket(1, &cmds, String::new());
    assert!(matches!(r, Err(TketJsonError::SymbolicParameter { .. })));
}

#[test]
fn tket_gate_without_qubits_skipped_even_with_bad_kind() {
    let cmds = vec![
        gate("H", vec![Some(0)], OpKind::Clifford),
        TketCommand {
            class: TketCommandClass::Gate,
            op_type: "SetBits".to_string(),
            args: vec![None],
            kind: Err(TketKindError::Parse("bad".to_string())),
        },
    ];
    let c = build_tket(1, &cmds, String::new()).unwrap();
    assert_eq!(c.ops.len(), 1);
}

#[test]
fn tket_empty_circuit_fails_validation() {
    let r = build_tket(1, &[], String::new());
    assert!(matches!(r, Err(TketJsonError::Validation(ValidationError::EmptyCircuit))));
}

#[test]
fn qasm_statements_build_circuit() {
    let stmts = vec![
        QasmStmt::Declare { sym: 1, count: 2 },
        QasmStmt::Gate { kind: OpKind::Clifford, operands: vec![QasmRef::Indexed(1, 0)] },
        QasmStmt::Gate { kind: OpKind::Clifford, operands: vec![QasmRef::Indexed(1, 0), QasmRef::Indexed(1, 1)] },
        QasmStmt::Gate { kind: OpKind::TGate, operands: vec![QasmRef::Indexed(1, 1)] },
        QasmStmt::Measure { operand: QasmRef::Indexed(1, 1) },
    ];
    let c = build_qasm(&stmts).unwrap();
    assert_eq!(c.qubit_count, 2);
    assert_eq!(c.ops.len(), 4);
    assert_eq!(c.deps, vec![dep(0, 1), dep(1, 2), dep(2, 3)]);
    assert_eq!(c.ops[3].kind, OpKind::Measurement { hook: None });
    assert_eq!(c.metadata.source_framework, "openqasm");
    assert_eq!(c.metadata.t_count, 1);
}

#[test]
fn qasm_disjoint_qubits_no_dependency() {
    let stmts = vec![
        QasmStmt::Declare { sym: 1, count: 1 },
        QasmStmt::Declare { sym: 2, count: 1 },
        QasmStmt::Gate { kind: OpKind::Clifford, operands: vec![QasmRef::Whole(1)] },
        QasmStmt::Gate { kind: OpKind::Clifford, operands: vec![QasmRef::Whole(2)] },
    ];
    let c = build_qasm(&stmts).unwrap();
    assert!(c.deps.is_empty());
    assert_eq!(c.ops[1].qubits, vec![1]);
}

#[test]
fn qasm_errors() {
    let stmts = vec![
        QasmStmt::Declare { sym: 1, count: 2 },
        QasmStmt::Gate { kind: OpKind::Clifford, operands: vec![QasmRef::Whole(1)] },
    ];
    assert_eq!(build_qasm(&stmts).err(), Some(QasmBuildError::Resolve(QubitResolveError::BareMultiQubitRegister)));

    let stmts = vec![QasmStmt::Gate { kind: OpKind::Clifford, operands: vec![QasmRef::Whole(4)] }];
    assert_eq!(build_qasm(&stmts).err(), Some(QasmBuildError::Resolve(QubitResolveError::Unresolved)));

    let f = QasmFailure::SymbolicParameter { gate: "rz".to_string(), name: "theta".to_string() };
    let stmts = vec![QasmStmt::Declare { sym: 1, count: 1 }, QasmStmt::Fail(f.clone())];
    assert_eq!(build_qasm(&stmts).err(), Some(QasmBuildError::Failure(f)));

    let stmts = vec![QasmStmt::Declare { sym: 1, count: 1 }];
    assert_eq!(build_qasm(&stmts).err(), Some(QasmBuildError::Validation(ValidationError::EmptyCircuit)));

    let stmts = vec![
        QasmStmt::Declare { sym: 1, count: 1 },
        QasmStmt::Gate { kind: OpKind::Clifford, operands: vec![QasmRef::Hardware(5)] },
    ];
    assert_eq!(
        build_qasm(&stmts).err(),
        Some(QasmBuildError::Validation(ValidationError::InvalidQubit { op_id: 0, qubit_id: 5, qubit_count: 1 }))
    );
}

fn tket_kinds(serial: &pirx::tket_json::TketSerial) -> Vec<Result<OpKind, TketKindError>> {
    serial
        .commands
        .iter()
        .map(|c| match c.op_type.as_str() {
            "T" | "Tdg" => Ok(OpKind::TGate),
            "Measure" => Ok(OpKind::Measurement { hook: None }),
            _ => Ok(OpKind::Clifford),
        })
        .collect()
}

const SMALL_TKET: &str = r#"{
    "name": "small",
    "phase": "0.0",
    "commands": [
        {"op": {"type": "H"}, "args": [["q", [0]]]},
        {"op": {"type": "CX"}, "args": [["q", [0]], ["q", [1]]]},
        {"op": {"type": "Barrier"}, "args": [["q", [0]], ["q", [1]]]},
        {"op": {"type": "T"}, "args": [["q", [1]]]},
        {"op": {"type": "Measure"}, "args": [["q", [1]], ["c", [0]]]}
    ],
    "qubits": [["q", [0]], ["q", [1]]],
    "bits": [["c", [0]]],
    "implicit_permutation": []
}"#;

#[test]
fn tket_json_parsed_and_resolved() {
    let serial = pirx::tket_json::parse_tket_json(SMALL_TKET).unwrap();
    assert_eq!(serial.name.as_deref(), Some("small"));
    assert_eq!(serial.qubits.len(), 2);
    assert_eq!(serial.commands.len(), 5);
    assert_eq!(serial.commands[1].op_type, "CX");
    let kinds = tket_kinds(&serial);
    let (n, cmds) = pirx::tket_json::commands_of(&serial, kinds).unwrap();
    assert_eq!(n, 2);
    assert_eq!(cmds[1].args, vec![Some(0), Some(1)]);
    assert_eq!(cmds[2].class, TketCommandClass::Skipped);
    assert_eq!(cmds[4].args, vec![Some(1), None]);
    let circuit = build_tket(n, &cmds, "small".to_string()).unwrap();
    let c = circuit.circuit();
    assert_eq!(c.qubit_count, 2);
    assert_eq!(c.ops.len(), 4);
    assert_eq!(c.metadata.t_count, 1);
    assert!(!c.deps.is_empty());
}

#[test]
fn malformed_json_returns_parse_error() {
    assert!(pirx::tket_json::parse_tket_json("not valid json").is_err());
}

#[test]
fn unsupported_conditional_rejected() {
    assert_eq!(pirx::tket_json::op_type_class("Conditional"), TketCommandClass::Unsupported);
}

#[test]
fn unsupported_box_rejected() {
    assert_eq!(pirx::tket_json::op_type_class("CircBox"), TketCommandClass::Unsupported);
    assert_eq!(pirx::tket_json::op_type_class("CustomGate"), TketCommandClass::Unsupported);
}

#[test]
fn unsupported_classical_rejected() {
    assert_eq!(pirx::tket_json::op_type_class("ClassicalTransform"), TketCommandClass::Unsupported);
    assert_eq!(pirx::tket_json::op_type_class("WASM"), TketCommandClass::Unsupported);
}

#[test]
fn structural_ops_skipped() {
    assert_eq!(pirx::tket_json::op_type_class("Barrier"), TketCommandClass::Skipped);
    assert_eq!(pirx::tket_json::op_type_class("noop"), TketCommandClass::Skipped);
    assert_ne!(pirx::tket_json::op_type_class("Reset"), TketCommandClass::Skipped);
    assert_ne!(pirx::tket_json::op_type_class("H"), TketCommandClass::Skipped);
    assert_ne!(pirx::tket_json::op_type_class("T"), TketCommandClass::Skipped);
}

#[test]
fn unsupported_command_refused_by_name() {
    let json = SMALL_TKET.replace("\"Barrier\"", "\"Conditional\"");
    let serial = pirx::tket_json::parse_tket_json(&json).unwrap();
    let kinds = tket_kinds(&serial);
    let (n, cmds) = pirx::tket_json::commands_of(&serial, kinds).unwrap();
    let r = build_tket(n, &cmds, "small".to_string());
    assert!(matches!(r, Err(TketJsonError::UnsupportedOperation { op_type }) if op_type == "Conditional"));
}
