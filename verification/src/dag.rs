//! Circuit dependency graph for the discrete-event engine.
//!
//! `Dag` holds the operation arena, the adjacency lists and the
//! rotation-angle table. Simulation state lives in the engine. Mutation goes
//! through [`Dag::release_successors`], [`Dag::inject_fixup`] and
//! [`Dag::activate_ops`].

use std::collections::HashMap;

use vstd::prelude::*;

use crate::circuit::Dependency;
use crate::circuit::MeasurementHookId;
use crate::circuit::OpKind as IrOpKind;
use crate::circuit::Operation;
use crate::circuit::ProfilerCircuit;
use crate::circuit::QubitId;
use crate::ready_queue::FifoReadyQueue;
use crate::ready_queue::OpKey;
use crate::ready_queue::ReadyQueue;
use crate::routing::saturate_u32;
use crate::validate::dangling_dep_at;
use crate::validate::dup_id_at;
use crate::validate::has_id;
use crate::validate::is_valid;
use crate::validate::ValidatedCircuit;

verus! {

broadcast use vstd::std_specs::hash::group_hash_axioms;

/// Engine-side operation classification.
///
/// A rotation carries the index of its angle in [`Dag::angle_table`]; a
/// fixup is the node inserted after a gate whose injection failed.
#[derive(Debug, Clone, Copy, PartialEq, Eq, Structural)]
pub enum OpKind {
    /// Clifford gate: no magic state consumed, no injection error possible.
    Clifford,
    /// T-gate: consumes one magic state, subject to injection error.
    TGate,
    /// Pauli measurement, with an optional hook for conditional activation.
    Measurement { hook: Option<MeasurementHookId> },
    /// Arbitrary-angle rotation, by index into the angle table.
    Rotation { angle_index: u16 },
    /// Fixup node inserted after an injection error. Immediately ready.
    Fixup,
}

/// Node data of one operation.
#[derive(Debug, Clone)]
pub struct OpData {
    pub kind: OpKind,
    /// Logical qubits this operation acts on.
    pub qubits: Vec<QubitId>,
    /// Execution cost in QEC cycles.
    pub cycle_cost: u32,
    /// Inactive operations are skipped when computing ready sets; a
    /// measurement hook activates them.
    pub active: bool,
}

/// Adjacency lists, indexed by arena key.
#[derive(Debug)]
pub struct DagAdjacency {
    /// Successor keys of each node, in dependency order.
    pub successors: Vec<Vec<OpKey>>,
    /// Predecessor keys of each node, in dependency order.
    pub predecessors: Vec<Vec<OpKey>>,
    /// Number of predecessors not yet completed.
    pub predecessor_count: Vec<u32>,
}

/// Circuit dependency graph: the engine's structural view of the circuit.
#[derive(Debug)]
pub struct Dag {
    ops: Vec<OpData>,
    adjacency: DagAdjacency,
    /// Distinct rotation angles (binary64 bit patterns) in order of first use.
    angle_table: Vec<u64>,
    /// QEC cycles per injected fixup node.
    fixup_cost_cycles: u32,
}

/// Result of [`Dag::from_circuit`]: the graph and the map from IR operation
/// id to arena key.
pub struct DagBuild {
    pub dag: Dag,
    pub id_to_key: HashMap<u64, OpKey>,
}

/// Errors that can occur during graph construction.
#[derive(Debug)]
pub enum DagError {
    /// More distinct rotation angles than a `u16` index can address; carries
    /// the index of the first angle that does not fit.
    TooManyDistinctAngles(usize),
    /// Inconsistent input.
    Internal(String),
}

// ── The model ───────────────────────────────────────────────────────────────

/// The distinct rotation angles of `ops`, in order of first occurrence.
pub open spec fn angle_table_of(ops: Seq<Operation>) -> Seq<u64>
    decreases ops.len(),
{
    if ops.len() == 0 {
        Seq::empty()
    } else {
        let t = angle_table_of(ops.drop_last());
        match ops.last().kind {
            IrOpKind::Rotation { angle_bits } => if t.contains(angle_bits) {
                t
            } else {
                t.push(angle_bits)
            },
            _ => t,
        }
    }
}

/// The engine kind of an IR kind, given the angle table.
pub open spec fn engine_kind(k: IrOpKind, table: Seq<u64>) -> OpKind {
    match k {
        IrOpKind::Clifford => OpKind::Clifford,
        IrOpKind::TGate => OpKind::TGate,
        IrOpKind::Measurement { hook } => OpKind::Measurement { hook },
        IrOpKind::Rotation { angle_bits } => OpKind::Rotation {
            angle_index: table.index_of(angle_bits) as u16,
        },
    }
}

/// The arena key of the operation carrying `id`: its position in `ops`.
pub open spec fn key_of(ops: Seq<Operation>, id: u64) -> OpKey {
    OpKey((choose|i: int| 0 <= i < ops.len() && ops[i].id == id) as usize)
}

/// The keys of the targets of the dependencies in `deps` leaving `id`, in
/// dependency order.
pub open spec fn succ_keys(ops: Seq<Operation>, deps: Seq<Dependency>, id: u64) -> Seq<OpKey>
    decreases deps.len(),
{
    if deps.len() == 0 {
        Seq::empty()
    } else {
        let rest = succ_keys(ops, deps.drop_last(), id);
        if deps.last().from == id {
            rest.push(key_of(ops, deps.last().to))
        } else {
            rest
        }
    }
}

/// The keys of the sources of the dependencies in `deps` entering `id`, in
/// dependency order.
pub open spec fn pred_keys(ops: Seq<Operation>, deps: Seq<Dependency>, id: u64) -> Seq<OpKey>
    decreases deps.len(),
{
    if deps.len() == 0 {
        Seq::empty()
    } else {
        let rest = pred_keys(ops, deps.drop_last(), id);
        if deps.last().to == id {
            rest.push(key_of(ops, deps.last().from))
        } else {
            rest
        }
    }
}

/// The cycle cost of an operation of kind `k`: a measurement takes
/// `measurement_cycles` (at least one), everything else one cycle.
pub open spec fn base_cost(k: OpKind, measurement_cycles: u32) -> u32 {
    match k {
        OpKind::Measurement { .. } => if measurement_cycles == 0 {
            1
        } else {
            measurement_cycles
        },
        _ => 1,
    }
}

/// Keys whose index lies in `completed` and is marked there.
pub open spec fn is_completed(completed: Seq<bool>, k: OpKey) -> bool {
    (k.0 as int) < completed.len() && completed[k.0 as int]
}

/// The number of entries of `preds` not marked completed.
pub open spec fn live_count(preds: Seq<OpKey>, completed: Seq<bool>) -> nat
    decreases preds.len(),
{
    if preds.len() == 0 {
        0
    } else {
        live_count(preds.drop_last(), completed) + if is_completed(completed, preds.last()) {
            0nat
        } else {
            1nat
        }
    }
}

impl Dag {
    /// The operation arena.
    pub closed spec fn ops_spec(&self) -> Seq<OpData> {
        self.ops@
    }

    /// The number of operations.
    pub open spec fn len_spec(&self) -> nat {
        self.ops_spec().len()
    }

    /// The number of successor lists.
    pub closed spec fn succ_lists(&self) -> nat {
        self.adjacency.successors@.len()
    }

    /// The number of predecessor lists.
    pub closed spec fn pred_lists(&self) -> nat {
        self.adjacency.predecessors@.len()
    }

    /// The successors of node `i`.
    pub closed spec fn succ_of(&self, i: int) -> Seq<OpKey> {
        self.adjacency.successors@[i]@
    }

    /// The predecessors of node `i`.
    pub closed spec fn pred_of(&self, i: int) -> Seq<OpKey> {
        self.adjacency.predecessors@[i]@
    }

    /// The remaining-predecessor counters.
    pub closed spec fn counts(&self) -> Seq<u32> {
        self.adjacency.predecessor_count@
    }

    /// The angle table.
    pub closed spec fn angle_table_spec(&self) -> Seq<u64> {
        self.angle_table@
    }

    /// Cycle cost of an injected fixup.
    pub closed spec fn fixup_cost_spec(&self) -> u32 {
        self.fixup_cost_cycles
    }

    /// The shape every graph keeps: one adjacency entry per node, every key
    /// in range, every rotation's angle in the table.
    pub open spec fn wf(&self) -> bool {
        let n = self.len_spec();
        &&& self.succ_lists() == n
        &&& self.pred_lists() == n
        &&& self.counts().len() == n
        &&& forall|i: int, j: int|
            0 <= i < n && 0 <= j < self.succ_of(i).len() ==> (#[trigger] self.succ_of(i)[j]).0 < n
        &&& forall|i: int, j: int|
            0 <= i < n && 0 <= j < self.pred_of(i).len() ==> (#[trigger] self.pred_of(i)[j]).0 < n
        &&& forall|i: int|
            0 <= i < n ==> match (#[trigger] self.ops_spec()[i]).kind {
                OpKind::Rotation { angle_index } => angle_index < self.angle_table_spec().len(),
                _ => true,
            }
    }

    /// This graph is the one built from `c` with the given costs.
    pub open spec fn built_from(&self, c: ProfilerCircuit, measurement_cycles: u32, fixup_cost_cycles: u32) -> bool {
        let ops = c.ops@;
        let table = angle_table_of(ops);
        &&& self.wf()
        &&& self.len_spec() == ops.len()
        &&& self.angle_table_spec() == table
        &&& table.no_duplicates()
        &&& self.fixup_cost_spec() == fixup_cost_cycles
        &&& forall|i: int|
            0 <= i < ops.len() ==> {
                &&& (#[trigger] self.ops_spec()[i]).kind == engine_kind(ops[i].kind, table)
                &&& self.ops_spec()[i].qubits@ == ops[i].qubits@
                &&& self.ops_spec()[i].cycle_cost == base_cost(
                    self.ops_spec()[i].kind,
                    measurement_cycles,
                )
                &&& self.ops_spec()[i].active == ops[i].initially_active
                &&& self.succ_of(i) == succ_keys(ops, c.deps@, ops[i].id)
                &&& self.pred_of(i) == pred_keys(ops, c.deps@, ops[i].id)
                &&& self.counts()[i] == saturate_u32(pred_keys(ops, c.deps@, ops[i].id).len() as int)
            }
    }
}

// ── Construction ────────────────────────────────────────────────────────────

spec fn kind_agrees(ir: IrOpKind, k: OpKind, table: Seq<u64>) -> bool {
    match ir {
        IrOpKind::Rotation { angle_bits } => k matches OpKind::Rotation { angle_index }
            && angle_index < table.len() && table[angle_index as int] == angle_bits,
        IrOpKind::Clifford => k == OpKind::Clifford,
        IrOpKind::TGate => k == OpKind::TGate,
        IrOpKind::Measurement { hook } => k == OpKind::Measurement { hook },
    }
}

proof fn lemma_angle_table_prefix(ops: Seq<Operation>, i: int)
    requires
        0 <= i <= ops.len(),
    ensures
        angle_table_of(ops.take(i)).len() <= angle_table_of(ops).len(),
    decreases ops.len() - i,
{
    if i < ops.len() {
        lemma_angle_table_prefix(ops, i + 1);
        assert(ops.take(i + 1).drop_last() =~= ops.take(i));
    } else {
        assert(ops.take(i) =~= ops);
    }
}

proof fn lemma_unique_key(ops: Seq<Operation>, i: int)
    requires
        0 <= i < ops.len(),
        forall|k: int| 0 <= k < ops.len() ==> !dup_id_at(ops, k),
    ensures
        key_of(ops, ops[i].id) == OpKey(i as usize),
{
    let j = choose|j: int| 0 <= j < ops.len() && ops[j].id == ops[i].id;
    assert(0 <= j < ops.len() && ops[j].id == ops[i].id);
    if j < i {
        assert(dup_id_at(ops, i));
    } else if j > i {
        assert(dup_id_at(ops, j));
    }
}

proof fn lemma_index_of_unique(table: Seq<u64>, k: int, bits: u64)
    requires
        table.no_duplicates(),
        0 <= k < table.len(),
        table[k] == bits,
    ensures
        table.index_of(bits) == k,
{
    let j = table.index_of(bits);
    assert(0 <= j < table.len() && table[j] == bits);
}

impl Dag {
    /// Build the graph of a validated circuit.
    ///
    /// Operation `i` of the circuit becomes arena key `i`. Rotation angles
    /// are deduplicated by bit pattern; a measurement costs
    /// `measurement_cycles` (at least one), every other operation one cycle;
    /// an injected fixup will cost `fixup_cost_cycles`. Fails when the
    /// circuit has more than 65536 distinct rotation angles.
    pub fn from_circuit(
        circuit: &ValidatedCircuit,
        measurement_cycles: u32,
        fixup_cost_cycles: u32,
    ) -> (r: Result<DagBuild, DagError>)
        ensures
            r is Err <==> angle_table_of(circuit@.ops@).len() > 65536,
            r matches Err(e) ==> e == DagError::TooManyDistinctAngles(65536),
            r matches Ok(b) ==> {
                &&& b.dag.built_from(circuit@, measurement_cycles, fixup_cost_cycles)
                &&& forall|x: u64|
                    #![trigger b.id_to_key@.contains_key(x)]
                    b.id_to_key@.contains_key(x) <==> has_id(circuit@.ops@, x)
                &&& forall|i: int|
                    0 <= i < circuit@.ops@.len() ==> b.id_to_key@[#[trigger] circuit@.ops@[i].id]
                        == OpKey(i as usize)
            },
    {
        let c = circuit.circuit();
        let n = c.ops.len();
        let ghost ops = c.ops@;
        let mcost: u32 = if measurement_cycles == 0 { 1 } else { measurement_cycles };
        proof {
            assert(forall|k: int| 0 <= k < ops.len() ==> !dup_id_at(ops, k));
        }
        let mut arena: Vec<OpData> = Vec::with_capacity(n);
        let mut successors: Vec<Vec<OpKey>> = Vec::with_capacity(n);
        let mut predecessors: Vec<Vec<OpKey>> = Vec::with_capacity(n);
        let mut counts: Vec<u32> = Vec::with_capacity(n);
        let mut angle_table: Vec<u64> = Vec::new();
        let mut id_to_key: HashMap<u64, OpKey> = HashMap::with_capacity(n);
        let mut i: usize = 0;
        while i < n
            invariant
                n == ops.len(),
                ops == c.ops@,
                *c == circuit@,
                i <= n,
                mcost == base_cost(OpKind::Measurement { hook: None }, measurement_cycles),
                forall|k: int| 0 <= k < ops.len() ==> !dup_id_at(ops, k),
                arena@.len() == i,
                successors@.len() == i,
                predecessors@.len() == i,
                counts@.len() == i,
                angle_table@ == angle_table_of(ops.take(i as int)),
                angle_table@.no_duplicates(),
                angle_table@.len() <= 65536,
                forall|k: int|
                    0 <= k < i ==> {
                        &&& (#[trigger] arena@[k]).qubits@ == ops[k].qubits@
                        &&& arena@[k].active == ops[k].initially_active
                        &&& arena@[k].cycle_cost == base_cost(arena@[k].kind, measurement_cycles)
                        &&& successors@[k]@ == Seq::<OpKey>::empty()
                        &&& predecessors@[k]@ == Seq::<OpKey>::empty()
                        &&& counts@[k] == 0
                        &&& kind_agrees(ops[k].kind, arena@[k].kind, angle_table@)
                    },
                forall|x: u64|
                    #![trigger id_to_key@.contains_key(x)]
                    id_to_key@.contains_key(x) <==> (exists|k: int| 0 <= k < i && #[trigger] ops[k].id == x),
                forall|k: int| 0 <= k < i ==> id_to_key@[#[trigger] ops[k].id] == OpKey(k as usize),
            decreases n - i,
        {
            let op = &c.ops[i];
            let ghost prev_table = angle_table@;
            proof {
                assert(ops.take(i as int + 1).drop_last() =~= ops.take(i as int));
                assert(ops.take(i as int + 1).last() == ops[i as int]);
            }
            let kind = match op.kind {
                IrOpKind::Clifford => OpKind::Clifford,
                IrOpKind::TGate => OpKind::TGate,
                IrOpKind::Measurement { hook } => OpKind::Measurement { hook },
                IrOpKind::Rotation { angle_bits } => {
                    let mut p: usize = 0;
                    while p < angle_table.len() && angle_table[p] != angle_bits
                        invariant
                            p <= angle_table@.len(),
                            forall|q: int| 0 <= q < p ==> angle_table@[q] != angle_bits,
                        decreases angle_table@.len() - p,
                    {
                        p += 1;
                    }
                    if p == angle_table.len() {
                        proof {
                            assert(!angle_table@.contains(angle_bits));
                        }
                        if p > 65535 {
                            proof {
                                assert(angle_table_of(ops.take(i as int + 1)) == prev_table.push(angle_bits));
                                assert(angle_table_of(ops.take(i as int + 1)).len() == 65537);
                                lemma_angle_table_prefix(ops, i as int + 1);
                                assert(ops.take(ops.len() as int) =~= ops);
                            }
                            return Err(DagError::TooManyDistinctAngles(p));
                        }
                        angle_table.push(angle_bits);
                    } else {
                        proof {
                            assert(angle_table@.contains(angle_bits));
                        }
                    }
                    OpKind::Rotation { angle_index: p as u16 }
                },
            };
            let cycle_cost: u32 = match kind {
                OpKind::Measurement { .. } => mcost,
                _ => 1,
            };
            arena.push(OpData { kind, qubits: op.qubits.clone(), cycle_cost, active: op.initially_active });
            successors.push(Vec::new());
            predecessors.push(Vec::new());
            counts.push(0);
            id_to_key.insert(op.id, OpKey(i));
            proof {
                assert(arena@[i as int].qubits@ == ops[i as int].qubits@);
                assert forall|x: u64|
                    #![trigger id_to_key@.contains_key(x)]
                    id_to_key@.contains_key(x) <==> (exists|k: int| 0 <= k < i + 1 && #[trigger] ops[k].id == x) by {
                    if x == ops[i as int].id {
                        assert(ops[i as int].id == x);
                    }
                }
                assert forall|k: int| 0 <= k < i + 1 implies id_to_key@[#[trigger] ops[k].id] == OpKey(k as usize) by {
                    if k < i {
                        assert(ops[k].id != ops[i as int].id) by {
                            assert(!dup_id_at(ops, i as int));
                        }
                    }
                }
                assert forall|k: int| 0 <= k < i + 1 implies #[trigger] kind_agrees(ops[k].kind, arena@[k].kind, angle_table@) by {
                    if k < i {
                        assert(kind_agrees(ops[k].kind, arena@[k].kind, prev_table));
                        assert(prev_table.len() <= angle_table@.len());
                        if let IrOpKind::Rotation { angle_bits } = ops[k].kind {
                            if let OpKind::Rotation { angle_index } = arena@[k].kind {
                                assert(angle_table@[angle_index as int] == prev_table[angle_index as int]);
                            }
                        }
                    }
                }
            }
            i += 1;
        }
        proof {
            assert(ops.take(n as int) =~= ops);
        }
        assert(angle_table@ == angle_table_of(ops));
        let ghost deps = c.deps@;
        proof {
            assert(forall|d: int| 0 <= d < deps.len() ==> !dangling_dep_at(*c, d));
            assert(deps.take(0) =~= Seq::<Dependency>::empty());
            assert forall|k: int| 0 <= k < n implies {
                &&& (#[trigger] successors@[k])@ == succ_keys(ops, deps.take(0), ops[k].id)
                &&& predecessors@[k]@ == pred_keys(ops, deps.take(0), ops[k].id)
                &&& counts@[k] == saturate_u32(pred_keys(ops, deps.take(0), ops[k].id).len() as int)
            } by {
                assert(arena@[k].qubits@ == ops[k].qubits@);
            }
            assert forall|k: int| 0 <= k < n implies (#[trigger] predecessors@[k])@.len() == 0 by {
                assert(arena@[k].qubits@ == ops[k].qubits@);
            }
        }
        let mut j: usize = 0;
        while j < c.deps.len()
            invariant
                n == ops.len(),
                ops == c.ops@,
                *c == circuit@,
                deps == c.deps@,
                j <= deps.len(),
                forall|k: int| 0 <= k < ops.len() ==> !dup_id_at(ops, k),
                forall|d: int| 0 <= d < deps.len() ==> !dangling_dep_at(*c, d),
                arena@.len() == n,
                successors@.len() == n,
                predecessors@.len() == n,
                counts@.len() == n,
                forall|x: u64|
                    #![trigger id_to_key@.contains_key(x)]
                    id_to_key@.contains_key(x) <==> (exists|k: int| 0 <= k < n && #[trigger] ops[k].id == x),
                forall|k: int| 0 <= k < n ==> id_to_key@[#[trigger] ops[k].id] == OpKey(k as usize),
                forall|k: int|
                    0 <= k < n ==> {
                        &&& (#[trigger] successors@[k])@ == succ_keys(ops, deps.take(j as int), ops[k].id)
                        &&& predecessors@[k]@ == pred_keys(ops, deps.take(j as int), ops[k].id)
                        &&& counts@[k] == saturate_u32(pred_keys(ops, deps.take(j as int), ops[k].id).len() as int)
                    },
                forall|k: int, m: int|
                    0 <= k < n && 0 <= m < successors@[k]@.len() ==> (#[trigger] successors@[k]@[m]).0 < n,
                forall|k: int, m: int|
                    0 <= k < n && 0 <= m < predecessors@[k]@.len() ==> (#[trigger] predecessors@[k]@[m]).0 < n,
            decreases deps.len() - j,
        {
            let dep = c.deps[j];
            proof {
                assert(!dangling_dep_at(*c, j as int));
                assert(has_id(ops, dep.from) && has_id(ops, dep.to));
                let a = choose|k: int| 0 <= k < ops.len() && #[trigger] ops[k].id == dep.from;
                assert(id_to_key@.contains_key(ops[a].id));
                let b = choose|k: int| 0 <= k < ops.len() && #[trigger] ops[k].id == dep.to;
                assert(id_to_key@.contains_key(ops[b].id));
            }
            let from_key = match id_to_key.get(&dep.from) {
                Some(k) => *k,
                None => {
                    return Err(DagError::Internal("dependency source without a node".to_owned()));
                },
            };
            let to_key = match id_to_key.get(&dep.to) {
                Some(k) => *k,
                None => {
                    return Err(DagError::Internal("dependency target without a node".to_owned()));
                },
            };
            let ghost fa = choose|k: int| 0 <= k < ops.len() && #[trigger] ops[k].id == dep.from;
            let ghost tb = choose|k: int| 0 <= k < ops.len() && #[trigger] ops[k].id == dep.to;
            proof {
                assert(from_key == OpKey(fa as usize));
                assert(to_key == OpKey(tb as usize));
                lemma_unique_key(ops, fa);
                lemma_unique_key(ops, tb);
            }
            let ghost old_succ = successors@;
            let ghost old_pred = predecessors@;
            let ghost old_counts = counts@;
            successors[from_key.0].push(to_key);
            predecessors[to_key.0].push(from_key);
            let cnt = counts[to_key.0];
            counts.set(to_key.0, if cnt < u32::MAX { cnt + 1 } else { u32::MAX });
            proof {
                let dj = deps.take(j as int + 1);
                assert(dj.drop_last() =~= deps.take(j as int));
                assert(dj.last() == dep);
                assert forall|k: int|
                    0 <= k < n implies {
                        &&& (#[trigger] successors@[k])@ == succ_keys(ops, dj, ops[k].id)
                        &&& predecessors@[k]@ == pred_keys(ops, dj, ops[k].id)
                        &&& counts@[k] == saturate_u32(pred_keys(ops, dj, ops[k].id).len() as int)
                    } by {
                    let dp = deps.take(j as int);
                    if k == fa {
                        assert(succ_keys(ops, dj, ops[k].id) == succ_keys(ops, dp, ops[k].id).push(key_of(ops, dep.to)));
                        assert(successors@[k]@ == old_succ[k]@.push(to_key));
                    }
                    if k == tb {
                        assert(pred_keys(ops, dj, ops[k].id) == pred_keys(ops, dp, ops[k].id).push(key_of(ops, dep.from)));
                        assert(predecessors@[k]@ == old_pred[k]@.push(from_key));
                    }
                    if k != fa {
                        assert(ops[k].id != dep.from) by {
                            if k < fa {
                                assert(!dup_id_at(ops, fa));
                            } else {
                                assert(!dup_id_at(ops, k));
                            }
                        }
                    }
                    if k != tb {
                        assert(ops[k].id != dep.to) by {
                            if k < tb {
                                assert(!dup_id_at(ops, tb));
                            } else {
                                assert(!dup_id_at(ops, k));
                            }
                        }
                    }
                    assert(successors@[k]@ == succ_keys(ops, dj, ops[k].id));
                    assert(predecessors@[k]@ == pred_keys(ops, dj, ops[k].id));
                    assert(counts@[k] == saturate_u32(pred_keys(ops, dj, ops[k].id).len() as int));
                }
                assert forall|k: int, m: int|
                    0 <= k < n && 0 <= m < successors@[k]@.len() implies (#[trigger] successors@[k]@[m]).0 < n by {
                    if k == fa && m == old_succ[k]@.len() {
                    } else {
                        assert(successors@[k]@[m] == old_succ[k]@[m]);
                    }
                }
                assert forall|k: int, m: int|
                    0 <= k < n && 0 <= m < predecessors@[k]@.len() implies (#[trigger] predecessors@[k]@[m]).0 < n by {
                    if k == tb && m == old_pred[k]@.len() {
                    } else {
                        assert(predecessors@[k]@[m] == old_pred[k]@[m]);
                    }
                }
            }
            j += 1;
        }
        proof {
            assert(deps.take(deps.len() as int) =~= deps);
        }
        let dag = Dag {
            ops: arena,
            adjacency: DagAdjacency { successors, predecessors, predecessor_count: counts },
            angle_table,
            fixup_cost_cycles,
        };
        proof {
            assert forall|k: int| 0 <= k < n implies (#[trigger] dag.ops_spec()[k]).kind == engine_kind(
                ops[k].kind,
                angle_table_of(ops),
            ) by {
                assert(kind_agrees(ops[k].kind, arena@[k].kind, angle_table@));
                if let IrOpKind::Rotation { angle_bits } = ops[k].kind {
                    if let OpKind::Rotation { angle_index } = dag.ops_spec()[k].kind {
                        lemma_index_of_unique(dag.angle_table_spec(), angle_index as int, angle_bits);
                    }
                }
            }
            assert(angle_table_of(ops).len() <= 65536);
        }
        Ok(DagBuild { dag, id_to_key })
    }
}


// ── Queries ─────────────────────────────────────────────────────────────────

/// The active nodes among the first `upto` whose counter is zero, in key order.
pub open spec fn ready_roots(ops: Seq<OpData>, counts: Seq<u32>, upto: nat) -> Seq<OpKey>
    decreases upto,
{
    if upto == 0 {
        Seq::empty()
    } else {
        let i = upto - 1;
        let r = ready_roots(ops, counts, i as nat);
        if ops[i].active && counts[i] == 0 {
            r.push(OpKey(i as usize))
        } else {
            r
        }
    }
}

/// The number of active operations in `ops`.
pub open spec fn count_active(ops: Seq<OpData>) -> nat
    decreases ops.len(),
{
    if ops.len() == 0 {
        0
    } else {
        count_active(ops.drop_last()) + if ops.last().active {
            1nat
        } else {
            0nat
        }
    }
}

impl Dag {
    /// The data of the operation `key`, if it exists.
    pub fn get(&self, key: OpKey) -> (r: Option<&OpData>)
        ensures
            r is None <==> key.0 >= self.len_spec(),
            r matches Some(d) ==> *d == self.ops_spec()[key.0 as int],
    {
        if key.0 < self.ops.len() {
            Some(&self.ops[key.0])
        } else {
            None
        }
    }

    /// The rotation angle table (binary64 bit patterns): a rotation's
    /// `angle_index` indexes it.
    pub fn angle_table(&self) -> (t: &[u64])
        ensures
            t@ == self.angle_table_spec(),
    {
        self.angle_table.as_slice()
    }

    /// Total number of operations, injected fixups included.
    pub fn op_count(&self) -> (n: usize)
        ensures
            n == self.len_spec(),
    {
        self.ops.len()
    }

    /// Number of active operations.
    pub fn active_op_count(&self) -> (n: usize)
        ensures
            n == count_active(self.ops_spec()),
    {
        let mut n: usize = 0;
        let mut i: usize = 0;
        while i < self.ops.len()
            invariant
                i <= self.ops@.len(),
                n == count_active(self.ops@.take(i as int)),
                n <= i,
            decreases self.ops@.len() - i,
        {
            proof {
                assert(self.ops@.take(i as int + 1).drop_last() =~= self.ops@.take(i as int));
            }
            if self.ops[i].active {
                n += 1;
            }
            i += 1;
        }
        proof {
            assert(self.ops@.take(self.ops@.len() as int) =~= self.ops@);
        }
        n
    }

    /// The adjacency lists.
    pub fn adjacency(&self) -> (a: &DagAdjacency)
        requires
            self.wf(),
        ensures
            a.successors@.len() == self.len_spec(),
            a.predecessors@.len() == self.len_spec(),
            a.predecessor_count@ == self.counts(),
            forall|i: int| 0 <= i < self.len_spec() ==> (#[trigger] a.successors@[i])@ == self.succ_of(i),
            forall|i: int| 0 <= i < self.len_spec() ==> (#[trigger] a.predecessors@[i])@ == self.pred_of(i),
    {
        &self.adjacency
    }

    /// All active operations whose counter of pending predecessors is zero,
    /// in key order: the initial ready set when called before simulation.
    pub fn initial_ready_set(&self) -> (r: Vec<OpKey>)
        requires
            self.wf(),
        ensures
            r@ == ready_roots(self.ops_spec(), self.counts(), self.len_spec()),
    {
        let mut r: Vec<OpKey> = Vec::new();
        let mut i: usize = 0;
        while i < self.ops.len()
            invariant
                i <= self.ops@.len(),
                self.wf(),
                r@ == ready_roots(self.ops@, self.adjacency.predecessor_count@, i as nat),
            decreases self.ops@.len() - i,
        {
            if self.ops[i].active && self.adjacency.predecessor_count[i] == 0 {
                r.push(OpKey(i));
            }
            i += 1;
        }
        r
    }
}

// ── Mutation ────────────────────────────────────────────────────────────────

/// Releasing the successors `succs` in order: each one's counter drops by
/// one unless already zero; an active one whose counter reaches zero this way
/// is pushed. Gives the final counters and the pushed keys.
pub open spec fn release(counts: Seq<u32>, ops: Seq<OpData>, succs: Seq<OpKey>) -> (Seq<u32>, Seq<OpKey>)
    decreases succs.len(),
{
    if succs.len() == 0 {
        (counts, Seq::empty())
    } else {
        let prev = release(counts, ops, succs.drop_last());
        let c1 = prev.0;
        let pushed = prev.1;
        let s = succs.last();
        let k = s.0 as int;
        if c1[k] > 0 {
            let c2 = c1.update(k, (c1[k] - 1) as u32);
            (c2, if c2[k] == 0 && ops[k].active {
                pushed.push(s)
            } else {
                pushed
            })
        } else {
            (c1, pushed)
        }
    }
}

proof fn lemma_release_len(counts: Seq<u32>, ops: Seq<OpData>, succs: Seq<OpKey>)
    requires
        forall|j: int| 0 <= j < succs.len() ==> (#[trigger] succs[j]).0 < counts.len(),
    ensures
        release(counts, ops, succs).0.len() == counts.len(),
    decreases succs.len(),
{
    if succs.len() > 0 {
        lemma_release_len(counts, ops, succs.drop_last());
        let r = release(counts, ops, succs.drop_last());
        assert(r.0.len() == counts.len());
    }
}

/// Two graphs with the same kinds, adjacency lists and angle table, and
/// counters of the same length, are both well formed or neither.
proof fn lemma_wf_same_shape(a: &Dag, b: &Dag)
    requires
        a.wf(),
        b.ops@.len() == a.ops@.len(),
        forall|i: int| 0 <= i < a.ops@.len() ==> (#[trigger] b.ops@[i]).kind == a.ops@[i].kind,
        b.adjacency.successors == a.adjacency.successors,
        b.adjacency.predecessors == a.adjacency.predecessors,
        b.adjacency.predecessor_count@.len() == a.adjacency.predecessor_count@.len(),
        b.angle_table@ == a.angle_table@,
    ensures
        b.wf(),
{
    let n = b.len_spec();
    assert forall|i: int, j: int| 0 <= i < n && 0 <= j < b.succ_of(i).len() implies (#[trigger] b.succ_of(i)[j]).0 < n by {
        assert(b.succ_of(i) == a.succ_of(i));
        assert(a.succ_of(i)[j].0 < n);
    }
    assert forall|i: int, j: int| 0 <= i < n && 0 <= j < b.pred_of(i).len() implies (#[trigger] b.pred_of(i)[j]).0 < n by {
        assert(b.pred_of(i) == a.pred_of(i));
        assert(a.pred_of(i)[j].0 < n);
    }
    assert forall|i: int| 0 <= i < n implies match (#[trigger] b.ops_spec()[i]).kind {
        OpKind::Rotation { angle_index } => angle_index < b.angle_table_spec().len(),
        _ => true,
    } by {
        assert(a.ops_spec()[i].kind == b.ops_spec()[i].kind);
    }
}

impl Dag {
    /// Activation pushes: the keys of `keys`, in order, whose live
    /// predecessor count (truncated to `u32`) is zero.
    pub open spec fn activation_pushes(&self, keys: Seq<OpKey>, completed: Seq<bool>) -> Seq<OpKey>
        decreases keys.len(),
    {
        if keys.len() == 0 {
            Seq::empty()
        } else {
            let r = self.activation_pushes(keys.drop_last(), completed);
            if live_count(self.pred_of(keys.last().0 as int), completed) as u32 == 0 {
                r.push(keys.last())
            } else {
                r
            }
        }
    }

    /// Decrement the pending-predecessor counter of every successor of `gate`
    /// (never below zero). A successor whose counter reaches zero this way
    /// and that is active is pushed onto `queue`: it is now ready.
    pub fn release_successors(&mut self, gate: OpKey, queue: &mut FifoReadyQueue)
        requires
            old(self).wf(),
            gate.0 < old(self).len_spec(),
        ensures
            final(self).wf(),
            final(self).ops_spec() == old(self).ops_spec(),
            final(self).succ_lists() == old(self).succ_lists(),
            final(self).pred_lists() == old(self).pred_lists(),
            forall|i: int| 0 <= i < old(self).len_spec() ==> #[trigger] final(self).succ_of(i) == old(self).succ_of(i),
            forall|i: int| 0 <= i < old(self).len_spec() ==> #[trigger] final(self).pred_of(i) == old(self).pred_of(i),
            final(self).angle_table_spec() == old(self).angle_table_spec(),
            final(self).fixup_cost_spec() == old(self).fixup_cost_spec(),
            final(self).counts() == release(old(self).counts(), old(self).ops_spec(), old(self).succ_of(gate.0 as int)).0,
            final(queue).queued() == old(queue).queued() + release(
                old(self).counts(),
                old(self).ops_spec(),
                old(self).succ_of(gate.0 as int),
            ).1,
    {
        let ghost succs = self.adjacency.successors@[gate.0 as int]@;
        let ghost c0 = self.adjacency.predecessor_count@;
        let ghost q0 = queue.queued();
        let ghost ops = self.ops@;
        let len = self.adjacency.successors[gate.0].len();
        let mut t: usize = 0;
        proof {
            assert(succs.take(0) =~= Seq::<OpKey>::empty());
        }
        while t < len
            invariant
                self.wf(),
                t <= len,
                len == succs.len(),
                gate.0 < self.len_spec(),
                succs == self.adjacency.successors@[gate.0 as int]@,
                ops == self.ops@,
                self.len_spec() == ops.len(),
                self.adjacency.successors == old(self).adjacency.successors,
                self.adjacency.predecessors == old(self).adjacency.predecessors,
                self.angle_table@ == old(self).angle_table@,
                self.fixup_cost_cycles == old(self).fixup_cost_cycles,
                self.ops@ == old(self).ops@,
                c0 == old(self).counts(),
                c0.len() == ops.len(),
                succs == old(self).succ_of(gate.0 as int),
                q0 == old(queue).queued(),
                self.adjacency.predecessor_count@ == release(c0, ops, succs.take(t as int)).0,
                queue.queued() == q0 + release(c0, ops, succs.take(t as int)).1,
            decreases len - t,
        {
            let s = self.adjacency.successors[gate.0][t];
            proof {
                assert(succs.take(t as int + 1).drop_last() =~= succs.take(t as int));
                assert(succs.take(t as int + 1).last() == s);
                assert(self.succ_of(gate.0 as int)[t as int] == s);
                assert forall|j: int| 0 <= j < succs.take(t as int).len() implies (#[trigger] succs.take(t as int)[j]).0 < c0.len() by {
                    assert(succs.take(t as int)[j] == self.succ_of(gate.0 as int)[j]);
                    assert(self.succ_of(gate.0 as int)[j].0 < self.len_spec());
                }
                lemma_release_len(c0, ops, succs.take(t as int));
            }
            let cnt = self.adjacency.predecessor_count[s.0];
            if cnt > 0 {
                let ghost before = *self;
                self.adjacency.predecessor_count.set(s.0, cnt - 1);
                proof {
                    lemma_wf_same_shape(&before, self);
                }
                if cnt - 1 == 0 && self.ops[s.0].active {
                    queue.push(s);
                    proof {
                        assert(queue.queued() =~= q0 + release(c0, ops, succs.take(t as int + 1)).1);
                    }
                } else {
                    proof {
                        assert(queue.queued() =~= q0 + release(c0, ops, succs.take(t as int + 1)).1);
                    }
                }
            }
            t += 1;
        }
        proof {
            assert(succs.take(len as int) =~= succs);
        }
    }

    /// The number of predecessors of `key` not marked in `completed`.
    fn live_predecessors(&self, key: OpKey, completed: &[bool]) -> (n: usize)
        requires
            self.wf(),
            key.0 < self.len_spec(),
        ensures
            n == live_count(self.pred_of(key.0 as int), completed@),
    {
        let preds = &self.adjacency.predecessors[key.0];
        let mut n: usize = 0;
        let mut i: usize = 0;
        while i < preds.len()
            invariant
                i <= preds@.len(),
                n == live_count(preds@.take(i as int), completed@),
                n <= i,
            decreases preds@.len() - i,
        {
            proof {
                assert(preds@.take(i as int + 1).drop_last() =~= preds@.take(i as int));
            }
            let p = preds[i].0;
            if !(p < completed.len() && completed[p]) {
                n += 1;
            }
            i += 1;
        }
        proof {
            assert(preds@.take(preds@.len() as int) =~= preds@);
        }
        n
    }

    /// Activate the operations `op_keys` after a measurement outcome.
    ///
    /// Each one becomes active and its pending-predecessor counter is set to
    /// the number of its predecessors not marked in `completed` (indexed by
    /// key; a key past its end counts as not completed). Those whose counter
    /// is then zero are pushed onto `queue`, in the order of `op_keys`.
    pub fn activate_ops(&mut self, op_keys: &[OpKey], completed: &[bool], queue: &mut FifoReadyQueue)
        requires
            old(self).wf(),
            forall|k: int| 0 <= k < op_keys@.len() ==> (#[trigger] op_keys@[k]).0 < old(self).len_spec(),
        ensures
            final(self).wf(),
            final(self).len_spec() == old(self).len_spec(),
            final(self).succ_lists() == old(self).succ_lists(),
            final(self).pred_lists() == old(self).pred_lists(),
            forall|i: int| 0 <= i < old(self).len_spec() ==> #[trigger] final(self).succ_of(i) == old(self).succ_of(i),
            forall|i: int| 0 <= i < old(self).len_spec() ==> #[trigger] final(self).pred_of(i) == old(self).pred_of(i),
            final(self).angle_table_spec() == old(self).angle_table_spec(),
            final(self).fixup_cost_spec() == old(self).fixup_cost_spec(),
            forall|i: int|
                0 <= i < old(self).len_spec() ==> {
                    &&& (#[trigger] final(self).ops_spec()[i]).kind == old(self).ops_spec()[i].kind
                    &&& final(self).ops_spec()[i].qubits == old(self).ops_spec()[i].qubits
                    &&& final(self).ops_spec()[i].cycle_cost == old(self).ops_spec()[i].cycle_cost
                    &&& final(self).ops_spec()[i].active == (old(self).ops_spec()[i].active
                        || op_keys@.contains(OpKey(i as usize)))
                    &&& final(self).counts()[i] == if op_keys@.contains(OpKey(i as usize)) {
                        live_count(old(self).pred_of(i), completed@) as u32
                    } else {
                        old(self).counts()[i]
                    }
                },
            final(queue).queued() == old(queue).queued() + old(self).activation_pushes(op_keys@, completed@),
    {
        let ghost q0 = queue.queued();
        let mut t: usize = 0;
        proof {
            assert(op_keys@.take(0) =~= Seq::<OpKey>::empty());
        }
        while t < op_keys.len()
            invariant
                self.wf(),
                t <= op_keys@.len(),
                forall|k: int| 0 <= k < op_keys@.len() ==> (#[trigger] op_keys@[k]).0 < old(self).len_spec(),
                self.len_spec() == old(self).len_spec(),
                self.succ_lists() == old(self).succ_lists(),
                self.pred_lists() == old(self).pred_lists(),
                self.adjacency.successors == old(self).adjacency.successors,
                self.adjacency.predecessors == old(self).adjacency.predecessors,
                self.angle_table@ == old(self).angle_table@,
                self.fixup_cost_cycles == old(self).fixup_cost_cycles,
                forall|i: int|
                    0 <= i < old(self).len_spec() ==> {
                        &&& (#[trigger] self.ops@[i]).kind == old(self).ops_spec()[i].kind
                        &&& self.ops@[i].qubits == old(self).ops_spec()[i].qubits
                        &&& self.ops@[i].cycle_cost == old(self).ops_spec()[i].cycle_cost
                        &&& self.ops@[i].active == (old(self).ops_spec()[i].active
                            || op_keys@.take(t as int).contains(OpKey(i as usize)))
                        &&& self.adjacency.predecessor_count@[i] == if op_keys@.take(t as int).contains(OpKey(i as usize)) {
                            live_count(old(self).pred_of(i), completed@) as u32
                        } else {
                            old(self).counts()[i]
                        }
                    },
                q0 == old(queue).queued(),
                queue.queued() == q0 + old(self).activation_pushes(op_keys@.take(t as int), completed@),
            decreases op_keys@.len() - t,
        {
            let key = op_keys[t];
            let k = key.0;
            proof {
                assert(op_keys@.take(t as int + 1).drop_last() =~= op_keys@.take(t as int));
                assert(op_keys@.take(t as int + 1).last() == key);
            }
            let ghost before = *self;
            self.ops[k].active = true;
            proof {
                lemma_wf_same_shape(&before, self);
            }
            let live = self.live_predecessors(key, completed);
            let ghost before2 = *self;
            self.adjacency.predecessor_count.set(k, live as u32);
            proof {
                lemma_wf_same_shape(&before2, self);
                assert(self.pred_of(k as int) == old(self).pred_of(k as int));
            }
            if live as u32 == 0 {
                queue.push(key);
            }
            proof {
                let tk = op_keys@.take(t as int + 1);
                assert forall|i: int| 0 <= i < old(self).len_spec() implies #[trigger] tk.contains(OpKey(i as usize))
                    == (op_keys@.take(t as int).contains(OpKey(i as usize)) || i == k) by {
                    let x = OpKey(i as usize);
                    let pre = op_keys@.take(t as int);
                    assert(old(self).ops.len() == old(self).ops@.len());
                    assert((x == key) == (i == k));
                    assert(tk =~= pre.push(key));
                    if i == k {
                        assert(tk[t as int] == key);
                    }
                    if pre.contains(x) {
                        let w = choose|w: int| 0 <= w < pre.len() && pre[w] == x;
                        assert(tk[w] == x);
                    }
                    if tk.contains(x) {
                        let w = choose|w: int| 0 <= w < tk.len() && tk[w] == x;
                        if w < t {
                            assert(pre[w] == x);
                        } else {
                            assert(x == key);
                        }
                    }
                }
                assert(queue.queued() =~= q0 + old(self).activation_pushes(tk, completed@));
            }
            t += 1;
        }
        proof {
            assert(op_keys@.take(op_keys@.len() as int) =~= op_keys@);
        }
    }
}


impl Dag {
    /// `new` is this graph after the successors of `gate` were released:
    /// only the pending-predecessor counters change, as [`release`] says.
    pub open spec fn released_to(&self, new: Dag, gate: OpKey) -> bool {
        &&& new.wf()
        &&& new.ops_spec() == self.ops_spec()
        &&& new.succ_lists() == self.succ_lists()
        &&& new.pred_lists() == self.pred_lists()
        &&& forall|i: int| 0 <= i < self.len_spec() ==> #[trigger] new.succ_of(i) == self.succ_of(i)
        &&& forall|i: int| 0 <= i < self.len_spec() ==> #[trigger] new.pred_of(i) == self.pred_of(i)
        &&& new.angle_table_spec() == self.angle_table_spec()
        &&& new.fixup_cost_spec() == self.fixup_cost_spec()
        &&& new.counts() == release(self.counts(), self.ops_spec(), self.succ_of(gate.0 as int)).0
    }

    /// `new` is this graph after the operations `keys` were activated given
    /// the completion flags `completed`: each becomes active and its counter
    /// is its number of live predecessors.
    pub open spec fn activated_to(&self, new: Dag, keys: Seq<OpKey>, completed: Seq<bool>) -> bool {
        &&& new.wf()
        &&& new.len_spec() == self.len_spec()
        &&& new.succ_lists() == self.succ_lists()
        &&& new.pred_lists() == self.pred_lists()
        &&& forall|i: int| 0 <= i < self.len_spec() ==> #[trigger] new.succ_of(i) == self.succ_of(i)
        &&& forall|i: int| 0 <= i < self.len_spec() ==> #[trigger] new.pred_of(i) == self.pred_of(i)
        &&& new.angle_table_spec() == self.angle_table_spec()
        &&& new.fixup_cost_spec() == self.fixup_cost_spec()
        &&& forall|i: int|
            0 <= i < self.len_spec() ==> {
                &&& (#[trigger] new.ops_spec()[i]).kind == self.ops_spec()[i].kind
                &&& new.ops_spec()[i].qubits == self.ops_spec()[i].qubits
                &&& new.ops_spec()[i].cycle_cost == self.ops_spec()[i].cycle_cost
                &&& new.ops_spec()[i].active == (self.ops_spec()[i].active || keys.contains(OpKey(i as usize)))
                &&& new.counts()[i] == if keys.contains(OpKey(i as usize)) {
                    live_count(self.pred_of(i), completed) as u32
                } else {
                    self.counts()[i]
                }
            }
    }

    /// The predecessors of node `i` once a fixup is inserted after `gate`:
    /// for a successor of `gate`, its list with `gate` replaced by the fixup;
    /// for any other node, its list as it was.
    pub open spec fn rewired_pred(&self, gate: OpKey, i: int) -> Seq<OpKey> {
        if self.succ_of(gate.0 as int).contains(OpKey(i as usize)) {
            replace_key(self.pred_of(i), gate, OpKey(self.len_spec() as usize))
        } else {
            self.pred_of(i)
        }
    }

    /// `new` is this graph with a fixup node inserted right after `gate`.
    pub open spec fn fixup_injected_to(&self, new: Dag, gate: OpKey) -> bool {
        let fixup = OpKey(self.len_spec() as usize);
        &&& new.wf()
        &&& new.len_spec() == self.len_spec() + 1
        &&& new.ops_spec().drop_last() == self.ops_spec()
        &&& new.ops_spec().last().kind == OpKind::Fixup
        &&& new.ops_spec().last().qubits@ == self.ops_spec()[gate.0 as int].qubits@
        &&& new.ops_spec().last().cycle_cost == self.fixup_cost_spec()
        &&& new.ops_spec().last().active
        &&& new.succ_of(gate.0 as int) == seq![fixup]
        &&& new.succ_of(fixup.0 as int) == self.succ_of(gate.0 as int)
        &&& forall|i: int|
            0 <= i < self.len_spec() && i != gate.0 ==> #[trigger] new.succ_of(i) == self.succ_of(i)
        &&& forall|i: int| 0 <= i < self.len_spec() ==> #[trigger] new.pred_of(i) == self.rewired_pred(gate, i)
        &&& new.pred_of(fixup.0 as int) == Seq::<OpKey>::empty()
        &&& new.counts() == self.counts().push(0)
        &&& new.angle_table_spec() == self.angle_table_spec()
        &&& new.fixup_cost_spec() == self.fixup_cost_spec()
    }
}

/// `s` with every occurrence of `from` replaced by `to`.
pub open spec fn replace_key(s: Seq<OpKey>, from: OpKey, to: OpKey) -> Seq<OpKey> {
    s.map_values(|k: OpKey| if k == from { to } else { k })
}

proof fn lemma_replace_idempotent(s: Seq<OpKey>, from: OpKey, to: OpKey)
    requires
        from != to,
    ensures
        replace_key(replace_key(s, from, to), from, to) == replace_key(s, from, to),
{
    assert(replace_key(replace_key(s, from, to), from, to) =~= replace_key(s, from, to));
}

/// A copy of `s` with every occurrence of `from` replaced by `to`.
fn replace_in(s: &Vec<OpKey>, from: OpKey, to: OpKey) -> (r: Vec<OpKey>)
    ensures
        r@ == replace_key(s@, from, to),
{
    let mut r: Vec<OpKey> = Vec::with_capacity(s.len());
    let mut i: usize = 0;
    while i < s.len()
        invariant
            i <= s.len(),
            r@ == replace_key(s@.take(i as int), from, to),
        decreases s.len() - i,
    {
        let k = s[i];
        if k.0 == from.0 {
            r.push(to);
        } else {
            r.push(k);
        }
        proof {
            assert(s@.take(i as int + 1) =~= s@.take(i as int).push(k));
            assert(replace_key(s@.take(i as int + 1), from, to) =~= replace_key(s@.take(i as int), from, to).push(
                if k == from { to } else { k },
            ));
        }
        i += 1;
    }
    proof {
        assert(s@.take(s@.len() as int) =~= s@);
    }
    r
}

/// Replace `from` by `to` in the predecessor list of every node in `succs`.
fn rewire_preds(preds: &mut Vec<Vec<OpKey>>, succs: &Vec<OpKey>, from: OpKey, to: OpKey)
    requires
        from != to,
        forall|j: int| 0 <= j < succs@.len() ==> (#[trigger] succs@[j]).0 < old(preds)@.len(),
    ensures
        final(preds)@.len() == old(preds)@.len(),
        forall|i: int|
            0 <= i < old(preds)@.len() ==> (#[trigger] final(preds)@[i])@ == if succs@.contains(OpKey(i as usize)) {
                replace_key(old(preds)@[i]@, from, to)
            } else {
                old(preds)@[i]@
            },
{
    let n = preds.len();
    let mut k: usize = 0;
    while k < succs.len()
        invariant
            0 <= k <= succs.len(),
            n == old(preds)@.len(),
            from != to,
            forall|j: int| 0 <= j < succs@.len() ==> (#[trigger] succs@[j]).0 < n,
            preds@.len() == n,
            forall|i: int|
                0 <= i < n ==> (#[trigger] preds@[i])@ == if succs@.take(k as int).contains(OpKey(i as usize)) {
                    replace_key(old(preds)@[i]@, from, to)
                } else {
                    old(preds)@[i]@
                },
        decreases succs.len() - k,
    {
        let s = succs[k];
        proof {
            assert(succs@[k as int] == s);
        }
        let mut cur: Vec<OpKey> = Vec::new();
        preds.set_and_swap(s.0, &mut cur);
        let rewired = replace_in(&cur, from, to);
        proof {
            lemma_replace_idempotent(old(preds)@[s.0 as int]@, from, to);
        }
        preds.set(s.0, rewired);
        proof {
            assert(succs@.take(k as int + 1) =~= succs@.take(k as int).push(s));
            assert(succs@.take(k as int + 1)[k as int] == s);
            assert forall|i: int| 0 <= i < n implies (#[trigger] preds@[i])@ == if succs@.take(k as int + 1).contains(
                OpKey(i as usize),
            ) {
                replace_key(old(preds)@[i]@, from, to)
            } else {
                old(preds)@[i]@
            } by {
                if i == s.0 {
                    assert(succs@.take(k as int + 1).contains(s));
                    assert(OpKey(i as usize) == s);
                } else {
                    assert(OpKey(i as usize) != s);
                    if succs@.take(k as int + 1).contains(OpKey(i as usize)) {
                        let w = choose|w: int| 0 <= w < k + 1 && #[trigger] succs@.take(k as int + 1)[w] == OpKey(i as usize);
                        assert(w < k);
                        assert(succs@.take(k as int)[w] == OpKey(i as usize));
                    }
                    if succs@.take(k as int).contains(OpKey(i as usize)) {
                        let w = choose|w: int| 0 <= w < k && #[trigger] succs@.take(k as int)[w] == OpKey(i as usize);
                        assert(succs@.take(k as int + 1)[w] == OpKey(i as usize));
                    }
                }
            }
        }
        k += 1;
    }
    proof {
        assert(succs@.take(succs@.len() as int) =~= succs@);
    }
}

impl Dag {
    /// Insert a fixup node right after `gate` and push it onto `queue`.
    ///
    /// Before: `gate -> [S1, S2, ...]`; after: `gate -> fixup -> [S1, S2, ...]`.
    /// The counters of `S1, S2, ...` are unchanged: only the identity of
    /// their predecessor changes, `gate` giving way to the fixup in each of
    /// their predecessor lists. The fixup acts on the qubits of `gate`,
    /// costs the fixup cost, is active, and its counter is zero: `gate` has
    /// already completed, so it is immediately ready.
    pub fn inject_fixup(&mut self, gate: OpKey, queue: &mut FifoReadyQueue) -> (fixup: OpKey)
        requires
            old(self).wf(),
            gate.0 < old(self).len_spec(),
        ensures
            fixup == OpKey(old(self).len_spec() as usize),
            fixup.0 == old(self).len_spec(),
            final(self).wf(),
            final(self).len_spec() == old(self).len_spec() + 1,
            final(self).ops_spec().drop_last() == old(self).ops_spec(),
            final(self).ops_spec().last().kind == OpKind::Fixup,
            final(self).ops_spec().last().qubits@ == old(self).ops_spec()[gate.0 as int].qubits@,
            final(self).ops_spec().last().cycle_cost == old(self).fixup_cost_spec(),
            final(self).ops_spec().last().active,
            final(self).succ_of(gate.0 as int) == seq![fixup],
            final(self).succ_of(fixup.0 as int) == old(self).succ_of(gate.0 as int),
            forall|i: int|
                0 <= i < old(self).len_spec() && i != gate.0 ==> #[trigger] final(self).succ_of(i)
                    == old(self).succ_of(i),
            forall|i: int|
                0 <= i < old(self).len_spec() ==> #[trigger] final(self).pred_of(i) == old(self).rewired_pred(gate, i),
            final(self).pred_of(fixup.0 as int) == Seq::<OpKey>::empty(),
            final(self).counts() == old(self).counts().push(0),
            final(self).angle_table_spec() == old(self).angle_table_spec(),
            final(self).fixup_cost_spec() == old(self).fixup_cost_spec(),
            final(queue).queued() == old(queue).queued().push(fixup),
    {
        let n = self.ops.len();
        let fixup = OpKey(n);
        let qubits = self.ops[gate.0].qubits.clone();
        self.ops.push(OpData { kind: OpKind::Fixup, qubits, cycle_cost: self.fixup_cost_cycles, active: true });
        let mut moved: Vec<OpKey> = Vec::new();
        self.adjacency.successors.set_and_swap(gate.0, &mut moved);
        let mut only_fixup: Vec<OpKey> = Vec::new();
        only_fixup.push(fixup);
        self.adjacency.successors.set(gate.0, only_fixup);
        proof {
            assert forall|j: int| 0 <= j < moved@.len() implies (#[trigger] moved@[j]).0 < self.adjacency.predecessors@.len() by {
                assert(old(self).succ_of(gate.0 as int)[j].0 < n);
            }
        }
        rewire_preds(&mut self.adjacency.predecessors, &moved, gate, fixup);
        self.adjacency.successors.push(moved);
        self.adjacency.predecessor_count.push(0);
        self.adjacency.predecessors.push(Vec::new());
        queue.push(fixup);
        proof {
            let m = n + 1;
            assert(self.ops@.drop_last() =~= old(self).ops@);
            assert forall|i: int, j: int|
                0 <= i < m && 0 <= j < self.succ_of(i).len() implies (#[trigger] self.succ_of(i)[j]).0 < m by {
                if i == n {
                    assert(self.succ_of(i)[j] == old(self).succ_of(gate.0 as int)[j]);
                } else if i != gate.0 {
                    assert(self.succ_of(i) == old(self).succ_of(i));
                    assert(old(self).succ_of(i)[j].0 < n);
                }
            }
            assert forall|i: int, j: int|
                0 <= i < m && 0 <= j < self.pred_of(i).len() implies (#[trigger] self.pred_of(i)[j]).0 < m by {
                if i < n {
                    if moved@.contains(OpKey(i as usize)) {
                        assert(self.pred_of(i) == replace_key(old(self).pred_of(i), gate, fixup));
                        assert(old(self).pred_of(i)[j].0 < n);
                    } else {
                        assert(self.pred_of(i) == old(self).pred_of(i));
                        assert(old(self).pred_of(i)[j].0 < n);
                    }
                }
            }
            assert forall|i: int| 0 <= i < n implies #[trigger] self.pred_of(i) == old(self).rewired_pred(gate, i) by {
                assert(self.adjacency.predecessors@[i] == self.adjacency.predecessors@.drop_last()[i]);
            }
            assert forall|i: int| 0 <= i < m implies match (#[trigger] self.ops_spec()[i]).kind {
                OpKind::Rotation { angle_index } => angle_index < self.angle_table_spec().len(),
                _ => true,
            } by {
                if i < n {
                    assert(self.ops_spec()[i] == old(self).ops_spec()[i]);
                }
            }
            assert(self.succ_of(gate.0 as int) =~= seq![fixup]);
        }
        fixup
    }
}

} // verus!
