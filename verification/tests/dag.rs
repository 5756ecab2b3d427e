use pirx::circuit::{
    CircuitMetadata, ConditionalActivation, Dependency, MeasurementHook, MeasurementOutcome,
    OpKind as IrOpKind, Operation, ProfilerCircuit,
};
use pirx::dag::{Dag, DagError, OpKind};
use pirx::ready_queue::{FifoReadyQueue, OpKey, ReadyQueue};
use pirx::validate::{validate, ValidatedCircuit};

// Measurement cycles and fixup cost of the minimal hardware model.
const MEASUREMENT_CYCLES: u32 = 1;
const FIXUP_COST: u32 = 2;

fn validated(c: ProfilerCircuit) -> ValidatedCircuit {
    validate(c).expect("test fixture must be valid")
}

fn meta() -> CircuitMetadata {
    CircuitMetadata {
        name: "test".into(),
        source_framework: "test".into(),
        t_count: 0,
        clifford_count: 0,
        rotation_count: 0,
        depth: 0,
    }
}

fn op(id: u64, kind: IrOpKind, qubits: Vec<u32>, active: bool) -> Operation {
    Operation { id, kind, qubits, initially_active: active }
}

fn chain_circuit(n: u32) -> ProfilerCircuit {
    ProfilerCircuit {
        ops: (0..n).map(|i| op(u64::from(i), IrOpKind::Clifford, vec![0], true)).collect(),
        deps: (0..n.saturating_sub(1))
            .map(|i| Dependency { from: u64::from(i), to: u64::from(i + 1) })
            .collect(),
        qubit_count: 1,
        qubit_positions: None,
        hooks: vec![],
        metadata: meta(),
    }
}

fn build(c: ProfilerCircuit) -> Dag {
    Dag::from_circuit(&validated(c), MEASUREMENT_CYCLES, FIXUP_COST).map(|b| b.dag).expect("valid")
}

fn roots_only_circuit() -> ProfilerCircuit {
    ProfilerCircuit {
        ops: vec![
            op(0, IrOpKind::Clifford, vec![0], true),
            op(1, IrOpKind::Clifford, vec![1], true),
            op(2, IrOpKind::Clifford, vec![0, 1], true),
        ],
        deps: vec![Dependency { from: 0, to: 2 }, Dependency { from: 1, to: 2 }],
        qubit_count: 2,
        qubit_positions: None,
        hooks: vec![],
        metadata: meta(),
    }
}

fn parallel_circuit() -> ProfilerCircuit {
    ProfilerCircuit {
        ops: vec![
            op(0, IrOpKind::Clifford, vec![0], true),
            op(1, IrOpKind::Clifford, vec![1], true),
            op(2, IrOpKind::Clifford, vec![2], true),
        ],
        deps: vec![],
        qubit_count: 3,
        qubit_positions: None,
        hooks: vec![],
        metadata: meta(),
    }
}

fn hook_circuit(with_dep: bool) -> ProfilerCircuit {
    ProfilerCircuit {
        ops: vec![
            op(0, IrOpKind::Measurement { hook: Some(0) }, vec![0], true),
            op(1, IrOpKind::Clifford, vec![0], false),
        ],
        deps: if with_dep { vec![Dependency { from: 0, to: 1 }] } else { vec![] },
        qubit_count: 1,
        qubit_positions: None,
        hooks: vec![MeasurementHook {
            id: 0,
            activations: vec![ConditionalActivation {
                outcome: MeasurementOutcome::One,
                ops_to_activate: vec![1],
            }],
        }],
        metadata: meta(),
    }
}

fn first_successor(dag: &Dag, k: OpKey) -> OpKey {
    dag.adjacency().successors.get(k.0).and_then(|s| s.first()).copied().expect("successor exists")
}

fn check_roots_only() {
    let dag = build(roots_only_circuit());
    let roots = dag.initial_ready_set();
    assert_eq!(roots.len(), 2);
    for &k in &roots {
        assert_eq!(dag.adjacency().predecessor_count.get(k.0).copied(), Some(0));
    }
}

#[test]
fn mod_initial_ready_set_roots_only() {
    check_roots_only();
}

#[test]
fn dag_initial_ready_set_roots_only() {
    check_roots_only();
}

#[test]
fn mod_initial_ready_set_parallel() {
    assert_eq!(build(parallel_circuit()).initial_ready_set().len(), 3);
}

#[test]
fn dag_initial_ready_set_parallel() {
    assert_eq!(build(parallel_circuit()).initial_ready_set().len(), 3);
}

#[test]
fn mod_inactive_op_excluded_from_initial_ready_set() {
    let dag = build(hook_circuit(false));
    assert_eq!(dag.initial_ready_set().len(), 1, "only the active op should be in the ready set");
}

#[test]
fn dag_inactive_op_excluded_from_initial_ready_set() {
    let dag = build(hook_circuit(false));
    assert_eq!(dag.initial_ready_set().len(), 1, "only the active op should be in the ready set");
}

fn check_simple_chain() {
    let dag = build(chain_circuit(2));
    assert_eq!(dag.op_count(), 2);
    let roots = dag.initial_ready_set();
    assert_eq!(roots.len(), 1);
    let root = roots[0];
    assert_eq!(dag.adjacency().predecessor_count.get(root.0).copied(), Some(0));
    let succs = dag.adjacency().successors.get(root.0).expect("root has succs");
    assert_eq!(succs.len(), 1);
    let child = succs[0];
    assert_eq!(dag.adjacency().predecessor_count.get(child.0).copied(), Some(1));
}

#[test]
fn build_from_circuit_simple_chain() {
    check_simple_chain();
}

#[test]
fn dag_from_circuit_simple_chain() {
    check_simple_chain();
}

fn check_release_decrements() {
    let mut dag = build(chain_circuit(3));
    let roots = dag.initial_ready_set();
    assert_eq!(roots.len(), 1);
    let key_a = roots[0];
    let key_b = first_successor(&dag, key_a);
    assert_eq!(dag.adjacency().predecessor_count.get(key_b.0).copied(), Some(1));
    let mut queue = FifoReadyQueue::new();
    dag.release_successors(key_a, &mut queue);
    assert_eq!(dag.adjacency().predecessor_count.get(key_b.0).copied(), Some(0));
    assert_eq!(queue.len(), 1);
    assert_eq!(queue.pop(), Some(key_b));
}

#[test]
fn mutate_release_successors_decrements() {
    check_release_decrements();
}

#[test]
fn dag_release_successors_decrements() {
    check_release_decrements();
}

fn check_release_skips_inactive() {
    let mut dag = build(hook_circuit(true));
    let key_a = dag.initial_ready_set()[0];
    let mut queue = FifoReadyQueue::new();
    dag.release_successors(key_a, &mut queue);
    assert!(queue.is_empty(), "inactive successor must not be pushed");
}

#[test]
fn mutate_release_successors_skips_inactive_successor() {
    check_release_skips_inactive();
}

#[test]
fn dag_release_successors_skips_inactive_successor() {
    check_release_skips_inactive();
}

fn check_inject_fixup_rewires() {
    let mut dag = build(chain_circuit(3));
    let key_a = dag.initial_ready_set()[0];
    let key_b = first_successor(&dag, key_a);
    let key_c = first_successor(&dag, key_b);
    assert_eq!(dag.adjacency().predecessor_count.get(key_c.0).copied(), Some(1));

    let mut queue = FifoReadyQueue::new();
    let key_f = dag.inject_fixup(key_b, &mut queue);

    assert_eq!(dag.adjacency().successors.get(key_b.0).expect("B successors").as_slice(), &[key_f]);
    assert_eq!(dag.adjacency().successors.get(key_f.0).expect("F successors").as_slice(), &[key_c]);
    assert_eq!(dag.adjacency().predecessor_count.get(key_c.0).copied(), Some(1));
    assert_eq!(dag.adjacency().predecessor_count.get(key_f.0).copied(), Some(0));
    assert_eq!(queue.len(), 1);
    assert_eq!(queue.pop(), Some(key_f));
    let fixup_data = dag.get(key_f).expect("fixup data");
    assert_eq!(fixup_data.cycle_cost, 2);
    assert!(matches!(fixup_data.kind, OpKind::Fixup));
}

#[test]
fn mutate_inject_fixup_rewires() {
    check_inject_fixup_rewires();
}

#[test]
fn dag_inject_fixup_rewires() {
    check_inject_fixup_rewires();
}

fn check_inject_fixup_active() {
    let mut dag = build(chain_circuit(2));
    let key_a = dag.initial_ready_set()[0];
    let mut queue = FifoReadyQueue::new();
    let key_f = dag.inject_fixup(key_a, &mut queue);
    let fixup = dag.get(key_f).expect("fixup");
    assert!(fixup.active, "injected fixup must be active");
    assert!(dag.adjacency().predecessors.get(key_f.0).is_some());
}

#[test]
fn mutate_inject_fixup_sets_active_true() {
    check_inject_fixup_active();
}

#[test]
fn dag_inject_fixup_sets_active_true() {
    check_inject_fixup_active();
}

fn check_activate_with_completed() {
    let mut dag = build(hook_circuit(true));
    let key_a = dag.initial_ready_set()[0];
    let key_b = first_successor(&dag, key_a);
    let mut completed = vec![false; dag.op_count()];
    completed[key_a.0] = true;
    let mut queue = FifoReadyQueue::new();
    dag.activate_ops(&[key_b], &completed, &mut queue);
    assert!(dag.get(key_b).unwrap().active, "B must now be active");
    assert_eq!(dag.adjacency().predecessor_count.get(key_b.0).copied(), Some(0));
    assert_eq!(queue.len(), 1, "B must be pushed to queue");
    assert_eq!(queue.pop(), Some(key_b));
}

#[test]
fn mutate_activate_ops_with_completed_predecessors_pushes_to_queue() {
    check_activate_with_completed();
}

#[test]
fn dag_activate_ops_with_completed_predecessors_pushes_to_queue() {
    check_activate_with_completed();
}

fn check_activate_with_live() {
    let mut dag = build(hook_circuit(true));
    let key_a = dag.initial_ready_set()[0];
    let key_b = first_successor(&dag, key_a);
    let mut queue = FifoReadyQueue::new();
    dag.activate_ops(&[key_b], &[], &mut queue);
    assert!(dag.get(key_b).unwrap().active, "B must now be active");
    assert_eq!(dag.adjacency().predecessor_count.get(key_b.0).copied(), Some(1));
    assert!(queue.is_empty(), "B must NOT be pushed (has live predecessor)");
}

#[test]
fn mutate_activate_ops_with_live_predecessors_not_pushed() {
    check_activate_with_live();
}

#[test]
fn dag_activate_ops_with_live_predecessors_not_pushed() {
    check_activate_with_live();
}

fn rotation_circuit(angles: &[f64]) -> ProfilerCircuit {
    ProfilerCircuit {
        ops: angles
            .iter()
            .enumerate()
            .map(|(i, a)| op(i as u64, IrOpKind::Rotation { angle_bits: a.to_bits() }, vec![0], true))
            .collect(),
        deps: vec![],
        qubit_count: 1,
        qubit_positions: None,
        hooks: vec![],
        metadata: meta(),
    }
}

#[test]
fn rotation_angles_deduplicated_by_bits() {
    let dag = build(rotation_circuit(&[0.3, 0.7, 0.3, -0.0, 0.0]));
    let table = dag.angle_table();
    assert_eq!(table, &[0.3f64.to_bits(), 0.7f64.to_bits(), (-0.0f64).to_bits(), 0.0f64.to_bits()]);
    let idx: Vec<u16> = (0..5)
        .map(|i| match dag.get(OpKey(i)).unwrap().kind {
            OpKind::Rotation { angle_index } => angle_index,
            other => panic!("unexpected {other:?}"),
        })
        .collect();
    assert_eq!(idx, vec![0, 1, 0, 2, 3]);
}

#[test]
fn too_many_distinct_angles_rejected() {
    let angles: Vec<f64> = (0..65_537u32).map(|i| f64::from(i) * 1e-3).collect();
    let result = Dag::from_circuit(&validated(rotation_circuit(&angles)), 1, 1);
    assert!(matches!(result, Err(DagError::TooManyDistinctAngles(65_536))));
    let angles: Vec<f64> = (0..65_536u32).map(|i| f64::from(i) * 1e-3).collect();
    assert!(Dag::from_circuit(&validated(rotation_circuit(&angles)), 1, 1).is_ok());
}

#[test]
fn measurement_cost_and_id_map() {
    let c = ProfilerCircuit {
        ops: vec![
            op(10, IrOpKind::Measurement { hook: None }, vec![0], true),
            op(20, IrOpKind::TGate, vec![0], true),
        ],
        deps: vec![Dependency { from: 10, to: 20 }],
        qubit_count: 1,
        qubit_positions: None,
        hooks: vec![],
        metadata: meta(),
    };
    let built = Dag::from_circuit(&validated(c), 4, 3).unwrap();
    assert_eq!(built.dag.get(OpKey(0)).unwrap().cycle_cost, 4);
    assert_eq!(built.dag.get(OpKey(1)).unwrap().cycle_cost, 1);
    assert_eq!(built.id_to_key.get(&10), Some(&OpKey(0)));
    assert_eq!(built.id_to_key.get(&20), Some(&OpKey(1)));
    assert!(built.dag.get(OpKey(2)).is_none());
    assert_eq!(built.dag.active_op_count(), 2);
    // A measurement never takes less than one cycle.
    let c = chain_circuit(1);
    let mut c2 = c.clone();
    c2.ops[0].kind = IrOpKind::Measurement { hook: None };
    let built = Dag::from_circuit(&validated(c2), 0, 3).unwrap();
    assert_eq!(built.dag.get(OpKey(0)).unwrap().cycle_cost, 1);
}

#[test]
fn release_twice_listed_successor_counts_both() {
    // A -> C and B -> C: releasing both makes C ready exactly once.
    let mut dag = build(roots_only_circuit());
    let mut queue = FifoReadyQueue::new();
    dag.release_successors(OpKey(0), &mut queue);
    assert!(queue.is_empty());
    dag.release_successors(OpKey(1), &mut queue);
    assert_eq!(queue.pop(), Some(OpKey(2)));
    // Releasing again never goes below zero nor pushes again.
    dag.release_successors(OpKey(1), &mut queue);
    assert!(queue.is_empty());
    assert_eq!(dag.adjacency().predecessor_count[2], 0);
}

#[test]
fn inject_fixup_takes_the_gates_place_among_predecessors() {
    let mut dag = build(chain_circuit(3));
    let key_a = dag.initial_ready_set()[0];
    let key_b = first_successor(&dag, key_a);
    let key_c = first_successor(&dag, key_b);
    assert_eq!(dag.adjacency().predecessors.get(key_c.0).expect("C predecessors").as_slice(), &[key_b]);
    let mut queue = FifoReadyQueue::new();
    let key_f = dag.inject_fixup(key_b, &mut queue);
    assert_eq!(dag.adjacency().predecessors.get(key_c.0).expect("C predecessors").as_slice(), &[key_f]);
    assert_eq!(dag.adjacency().predecessors.get(key_b.0).expect("B predecessors").as_slice(), &[key_a]);
    assert!(dag.adjacency().predecessors.get(key_f.0).expect("F predecessors").is_empty());
}

#[test]
fn fifo_queue_hands_keys_back_in_push_order() {
    let mut q = FifoReadyQueue::new();
    let mut popped = Vec::new();
    q.push(OpKey(3));
    q.push(OpKey(1));
    popped.push(q.pop());
    q.push(OpKey(7));
    popped.push(q.pop());
    popped.push(q.pop());
    popped.push(q.pop());
    q.push(OpKey(2));
    assert_eq!(popped, vec![Some(OpKey(3)), Some(OpKey(1)), Some(OpKey(7)), None]);
    assert_eq!(q.len(), 1);
    assert_eq!(q.pop(), Some(OpKey(2)));
    assert!(q.is_empty());
}
