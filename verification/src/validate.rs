//! Validation of Profiler IR circuits.

use std::collections::HashMap;
use std::collections::HashSet;
use std::collections::VecDeque;

use vstd::prelude::*;

use crate::circuit::ConditionalActivation;
use crate::circuit::Dependency;
use crate::circuit::GridPosition;
use crate::circuit::MeasurementHook;
use crate::circuit::OpKind;
use crate::circuit::Operation;
use crate::circuit::ProfilerCircuit;

verus! {

broadcast use vstd::std_specs::hash::group_hash_axioms;

/// Errors detected during IR validation.
#[derive(Debug, Clone, PartialEq, Eq, Structural)]
pub enum ValidationError {
    EmptyCircuit,
    DanglingDependency(u64),
    InvalidQubit { op_id: u64, qubit_id: u32, qubit_count: u32 },
    CyclicDag,
    DuplicateOpId(u64),
    QubitPositionCountMismatch { expected: u32, got: u32 },
    DuplicateQubitPosition(u32),
    QubitPositionInvalidQubit { qubit_id: u32, qubit_count: u32 },
    DanglingHookReference(u32),
    ActiveOpInHook(u64),
    OrphanedInactiveOp(u64),
}

// ── What a valid circuit is ─────────────────────────────────────────────────

/// Some operation carries the identifier `id`.
pub open spec fn has_id(ops: Seq<Operation>, id: u64) -> bool {
    exists|i: int| 0 <= i < ops.len() && #[trigger] ops[i].id == id
}

/// Operation `i` repeats the identifier of an earlier operation.
pub open spec fn dup_id_at(ops: Seq<Operation>, i: int) -> bool {
    exists|j: int| 0 <= j < i && #[trigger] ops[j].id == ops[i].id
}

/// The first operation that repeats an earlier identifier.
pub open spec fn first_dup_id(ops: Seq<Operation>) -> int {
    choose|i: int|
        0 <= i < ops.len() && dup_id_at(ops, i) && forall|k: int| 0 <= k < i ==> !dup_id_at(ops, k)
}

/// Operation `op` names a qubit at or beyond `qubit_count`.
pub open spec fn has_bad_qubit(op: Operation, qubit_count: u32) -> bool {
    exists|j: int| 0 <= j < op.qubits@.len() && #[trigger] op.qubits@[j] >= qubit_count
}

/// The first qubit of `op` at or beyond `qubit_count`.
pub open spec fn first_bad_qubit(op: Operation, qubit_count: u32) -> int {
    choose|j: int|
        0 <= j < op.qubits@.len() && op.qubits@[j] >= qubit_count && forall|k: int|
            0 <= k < j ==> op.qubits@[k] < qubit_count
}

/// The first operation that names a qubit beyond `qubit_count`.
pub open spec fn first_bad_qubit_op(ops: Seq<Operation>, qubit_count: u32) -> int {
    choose|i: int|
        0 <= i < ops.len() && has_bad_qubit(ops[i], qubit_count) && forall|k: int|
            0 <= k < i ==> !has_bad_qubit(ops[k], qubit_count)
}

/// Position `i` is out of range or repeats the qubit of an earlier position.
pub open spec fn position_error_at(ps: Seq<GridPosition>, qubit_count: u32, i: int) -> bool {
    ps[i].qubit >= qubit_count || exists|j: int| 0 <= j < i && #[trigger] ps[j].qubit == ps[i].qubit
}

/// The first faulty position.
pub open spec fn first_position_error(ps: Seq<GridPosition>, qubit_count: u32) -> int {
    choose|i: int|
        0 <= i < ps.len() && position_error_at(ps, qubit_count, i) && forall|k: int|
            0 <= k < i ==> !position_error_at(ps, qubit_count, k)
}

/// The number of positions as reported in an error: saturated to `u32::MAX`.
pub open spec fn reported_len(len: nat) -> u32 {
    if len <= u32::MAX {
        len as u32
    } else {
        u32::MAX
    }
}

/// Dependency `d` names an operation that does not exist.
pub open spec fn dangling_dep_at(c: ProfilerCircuit, d: int) -> bool {
    !has_id(c.ops@, c.deps@[d].from) || !has_id(c.ops@, c.deps@[d].to)
}

/// The first dangling dependency.
pub open spec fn first_dangling_dep(c: ProfilerCircuit) -> int {
    choose|d: int|
        0 <= d < c.deps@.len() && dangling_dep_at(c, d) && forall|k: int|
            0 <= k < d ==> !dangling_dep_at(c, k)
}

/// The identifier reported for a dangling dependency: its source when that
/// is missing, else its target.
pub open spec fn dangling_dep_id(c: ProfilerCircuit, d: int) -> u64 {
    if !has_id(c.ops@, c.deps@[d].from) {
        c.deps@[d].from
    } else {
        c.deps@[d].to
    }
}

/// Some hook carries the identifier `id`.
pub open spec fn hook_exists(hooks: Seq<MeasurementHook>, id: u32) -> bool {
    exists|h: int| 0 <= h < hooks.len() && #[trigger] hooks[h].id == id
}

/// The hook a measurement refers to, if any.
pub open spec fn hook_ref(kind: OpKind) -> Option<u32> {
    match kind {
        OpKind::Measurement { hook } => hook,
        _ => None,
    }
}

/// Operation `i` is a measurement that refers to a hook that does not exist.
pub open spec fn dangling_hook_at(c: ProfilerCircuit, i: int) -> bool {
    match hook_ref(c.ops@[i].kind) {
        Some(id) => !hook_exists(c.hooks@, id),
        None => false,
    }
}

/// The first measurement with a dangling hook reference.
pub open spec fn first_dangling_hook(c: ProfilerCircuit) -> int {
    choose|i: int|
        0 <= i < c.ops@.len() && dangling_hook_at(c, i) && forall|k: int|
            0 <= k < i ==> !dangling_hook_at(c, k)
}

/// All activation targets of a list of activations, in order.
pub open spec fn activation_targets(acts: Seq<ConditionalActivation>) -> Seq<u64>
    decreases acts.len(),
{
    if acts.len() == 0 {
        Seq::empty()
    } else {
        activation_targets(acts.drop_last()) + acts.last().ops_to_activate@
    }
}

/// All activation targets of all hooks, in order.
pub open spec fn hook_targets(hooks: Seq<MeasurementHook>) -> Seq<u64>
    decreases hooks.len(),
{
    if hooks.len() == 0 {
        Seq::empty()
    } else {
        hook_targets(hooks.drop_last()) + activation_targets(hooks.last().activations@)
    }
}

/// Some operation with identifier `id` is initially active.
pub open spec fn id_is_active(ops: Seq<Operation>, id: u64) -> bool {
    exists|i: int| 0 <= i < ops.len() && #[trigger] ops[i].id == id && ops[i].initially_active
}

/// Activation target `t` does not exist or is initially active.
pub open spec fn bad_target_at(c: ProfilerCircuit, t: int) -> bool {
    let x = hook_targets(c.hooks@)[t];
    !has_id(c.ops@, x) || id_is_active(c.ops@, x)
}

/// The first bad activation target.
pub open spec fn first_bad_target(c: ProfilerCircuit) -> int {
    choose|t: int|
        0 <= t < hook_targets(c.hooks@).len() && bad_target_at(c, t) && forall|k: int|
            0 <= k < t ==> !bad_target_at(c, k)
}

/// The error reported for a bad activation target.
pub open spec fn bad_target_error(c: ProfilerCircuit, t: int) -> ValidationError {
    let x = hook_targets(c.hooks@)[t];
    if !has_id(c.ops@, x) {
        ValidationError::DanglingDependency(x)
    } else {
        ValidationError::ActiveOpInHook(x)
    }
}

/// Operation `i` is inactive and no hook activates it.
pub open spec fn orphan_at(c: ProfilerCircuit, i: int) -> bool {
    !c.ops@[i].initially_active && !hook_targets(c.hooks@).contains(c.ops@[i].id)
}

/// The first orphaned inactive operation.
pub open spec fn first_orphan(c: ProfilerCircuit) -> int {
    choose|i: int|
        0 <= i < c.ops@.len() && orphan_at(c, i) && forall|k: int| 0 <= k < i ==> !orphan_at(c, k)
}

/// The dependencies can be ordered: some ranking of identifiers puts every
/// dependency's source strictly before its target.
pub open spec fn is_acyclic(c: ProfilerCircuit) -> bool {
    exists|rank: spec_fn(u64) -> int| #[trigger] is_ranking(c, rank)
}

/// `rank` puts every dependency's source strictly before its target.
pub open spec fn is_ranking(c: ProfilerCircuit, rank: spec_fn(u64) -> int) -> bool {
    forall|d: int|
        0 <= d < c.deps@.len() ==> rank(#[trigger] c.deps@[d].from) < rank(c.deps@[d].to)
}

/// Repeated operation identifiers: the first repeated one.
pub open spec fn dup_check(ops: Seq<Operation>) -> Option<ValidationError> {
    if exists|i: int| 0 <= i < ops.len() && dup_id_at(ops, i) {
        Some(ValidationError::DuplicateOpId(ops[first_dup_id(ops)].id))
    } else {
        None
    }
}

/// Qubit references beyond `qubit_count`: the first one.
pub open spec fn qubit_check(ops: Seq<Operation>, qc: u32) -> Option<ValidationError> {
    if exists|i: int| 0 <= i < ops.len() && has_bad_qubit(ops[i], qc) {
        let op = ops[first_bad_qubit_op(ops, qc)];
        Some(
            ValidationError::InvalidQubit {
                op_id: op.id,
                qubit_id: op.qubits@[first_bad_qubit(op, qc)],
                qubit_count: qc,
            },
        )
    } else {
        None
    }
}

/// Qubit positions, when present: their number, then the first faulty one.
pub open spec fn position_check(positions: Option<Vec<GridPosition>>, qc: u32) -> Option<
    ValidationError,
> {
    match positions {
        None => None,
        Some(v) => {
            let ps = v@;
            if ps.len() != qc {
                Some(
                    ValidationError::QubitPositionCountMismatch {
                        expected: qc,
                        got: reported_len(ps.len()),
                    },
                )
            } else if exists|i: int| 0 <= i < ps.len() && position_error_at(ps, qc, i) {
                let p = ps[first_position_error(ps, qc)];
                if p.qubit >= qc {
                    Some(
                        ValidationError::QubitPositionInvalidQubit {
                            qubit_id: p.qubit,
                            qubit_count: qc,
                        },
                    )
                } else {
                    Some(ValidationError::DuplicateQubitPosition(p.qubit))
                }
            } else {
                None
            }
        },
    }
}

/// Dependencies on missing operations: the first one.
pub open spec fn dep_check(c: ProfilerCircuit) -> Option<ValidationError> {
    if exists|d: int| 0 <= d < c.deps@.len() && dangling_dep_at(c, d) {
        Some(ValidationError::DanglingDependency(dangling_dep_id(c, first_dangling_dep(c))))
    } else {
        None
    }
}

/// Measurements that refer to missing hooks: the first one.
pub open spec fn hook_ref_check(c: ProfilerCircuit) -> Option<ValidationError> {
    if exists|i: int| 0 <= i < c.ops@.len() && dangling_hook_at(c, i) {
        Some(ValidationError::DanglingHookReference(hook_ref(c.ops@[first_dangling_hook(c)].kind)->0))
    } else {
        None
    }
}

/// Activation targets that are missing or initially active: the first one.
pub open spec fn target_check(c: ProfilerCircuit) -> Option<ValidationError> {
    if exists|t: int| 0 <= t < hook_targets(c.hooks@).len() && bad_target_at(c, t) {
        Some(bad_target_error(c, first_bad_target(c)))
    } else {
        None
    }
}

/// Inactive operations that no hook activates: the first one.
pub open spec fn orphan_check(c: ProfilerCircuit) -> Option<ValidationError> {
    if exists|i: int| 0 <= i < c.ops@.len() && orphan_at(c, i) {
        Some(ValidationError::OrphanedInactiveOp(c.ops@[first_orphan(c)].id))
    } else {
        None
    }
}

/// The outcome of validation: the first check that fails, in the order
/// documented on [`validate`], or `Ok` when all pass.
pub open spec fn validation_result(c: ProfilerCircuit) -> Result<(), ValidationError> {
    if c.ops@.len() == 0 {
        Err(ValidationError::EmptyCircuit)
    } else if dup_check(c.ops@) is Some {
        Err(dup_check(c.ops@)->0)
    } else if qubit_check(c.ops@, c.qubit_count) is Some {
        Err(qubit_check(c.ops@, c.qubit_count)->0)
    } else if position_check(c.qubit_positions, c.qubit_count) is Some {
        Err(position_check(c.qubit_positions, c.qubit_count)->0)
    } else if dep_check(c) is Some {
        Err(dep_check(c)->0)
    } else if hook_ref_check(c) is Some {
        Err(hook_ref_check(c)->0)
    } else if target_check(c) is Some {
        Err(target_check(c)->0)
    } else if orphan_check(c) is Some {
        Err(orphan_check(c)->0)
    } else if !is_acyclic(c) {
        Err(ValidationError::CyclicDag)
    } else {
        Ok(())
    }
}

/// `c` passes every validation check.
pub open spec fn is_valid(c: ProfilerCircuit) -> bool {
    validation_result(c) is Ok
}

/// A [`ProfilerCircuit`] that has passed all validation checks.
///
/// Created only by [`validate`]; read access goes through [`ValidatedCircuit::circuit`].
#[derive(Debug)]
pub struct ValidatedCircuit {
    inner: ProfilerCircuit,
}

impl View for ValidatedCircuit {
    type V = ProfilerCircuit;

    closed spec fn view(&self) -> ProfilerCircuit {
        self.inner
    }
}

impl ValidatedCircuit {
    #[verifier::type_invariant]
    spec fn inner_is_valid(&self) -> bool {
        is_valid(self.inner)
    }

    /// The validated circuit.
    pub fn circuit(&self) -> (c: &ProfilerCircuit)
        ensures
            *c == self@,
            is_valid(*c),
    {
        proof {
            use_type_invariant(self);
        }
        &self.inner
    }

    /// Give back the validated circuit, validation forgotten.
    pub fn into_inner(self) -> (c: ProfilerCircuit)
        ensures
            c == self@,
            is_valid(c),
    {
        proof {
            use_type_invariant(&self);
        }
        self.inner
    }
}


impl std::ops::Deref for ValidatedCircuit {
    type Target = ProfilerCircuit;

    /// Read access to the validated circuit.
    fn deref(&self) -> (c: &ProfilerCircuit)
        ensures
            *c == self@,
    {
        &self.inner
    }
}

// ── Identifying the first failure ───────────────────────────────────────────

proof fn lemma_first_bad_qubit_op(ops: Seq<Operation>, qc: u32, i: int)
    requires
        0 <= i < ops.len(),
        has_bad_qubit(ops[i], qc),
        forall|k: int| 0 <= k < i ==> !has_bad_qubit(#[trigger] ops[k], qc),
    ensures
        first_bad_qubit_op(ops, qc) == i,
        exists|i: int| 0 <= i < ops.len() && has_bad_qubit(ops[i], qc),
{
    let f = first_bad_qubit_op(ops, qc);
    assert(0 <= f < ops.len() && has_bad_qubit(ops[f], qc) && forall|k: int|
        0 <= k < f ==> !has_bad_qubit(#[trigger] ops[k], qc));
    if f > i {
        assert(!has_bad_qubit(ops[i], qc));
    }
}

proof fn lemma_first_bad_qubit(op: Operation, qc: u32, j: int)
    requires
        0 <= j < op.qubits@.len(),
        op.qubits@[j] >= qc,
        forall|k: int| 0 <= k < j ==> op.qubits@[k] < qc,
    ensures
        first_bad_qubit(op, qc) == j,
{
    let g = first_bad_qubit(op, qc);
    assert(0 <= g < op.qubits@.len() && op.qubits@[g] >= qc && forall|k: int|
        0 <= k < g ==> op.qubits@[k] < qc);
    if g > j {
        assert(op.qubits@[j] < qc);
    }
}

proof fn lemma_first_position_error(ps: Seq<GridPosition>, qc: u32, i: int)
    requires
        0 <= i < ps.len(),
        position_error_at(ps, qc, i),
        forall|k: int| 0 <= k < i ==> !position_error_at(ps, qc, k),
    ensures
        first_position_error(ps, qc) == i,
        exists|i: int| 0 <= i < ps.len() && position_error_at(ps, qc, i),
{
    let f = first_position_error(ps, qc);
    assert(0 <= f < ps.len() && position_error_at(ps, qc, f) && forall|k: int|
        0 <= k < f ==> !position_error_at(ps, qc, k));
    if f > i {
        assert(!position_error_at(ps, qc, i));
    }
}

// ── Checks ──────────────────────────────────────────────────────────────────

/// Collect the operation identifiers, or report the first repeated one.
fn collect_ids(ops: &Vec<Operation>) -> (r: Result<HashSet<u64>, u64>)
    ensures
        match r {
            Ok(s) => (forall|i: int| 0 <= i < ops@.len() ==> !dup_id_at(ops@, i)) && (forall|x: u64|
                s@.contains(x) <==> has_id(ops@, x)),
            Err(x) => (exists|i: int| 0 <= i < ops@.len() && dup_id_at(ops@, i)) && x
                == ops@[first_dup_id(ops@)].id,
        },
{
    let mut id_set: HashSet<u64> = HashSet::with_capacity(ops.len());
    let mut i: usize = 0;
    while i < ops.len()
        invariant
            i <= ops@.len(),
            forall|k: int| 0 <= k < i ==> !dup_id_at(ops@, k),
            forall|x: u64|
                id_set@.contains(x) <==> (exists|j: int| 0 <= j < i && #[trigger] ops@[j].id == x),
        decreases ops@.len() - i,
    {
        let id = ops[i].id;
        let ghost before = id_set@;
        if !id_set.insert(id) {
            proof {
                let j = choose|j: int| 0 <= j < i && #[trigger] ops@[j].id == id;
                assert(dup_id_at(ops@, i as int));
                let f = first_dup_id(ops@);
                assert(0 <= f < ops@.len() && dup_id_at(ops@, f) && forall|k: int|
                    0 <= k < f ==> !dup_id_at(ops@, k));
                if f < i {
                } else if f > i {
                    assert(!dup_id_at(ops@, i as int));
                }
                assert(f == i);
            }
            return Err(id);
        }
        proof {
            assert(!dup_id_at(ops@, i as int));
            assert forall|x: u64|
                id_set@.contains(x) <==> (exists|j: int|
                    0 <= j < i + 1 && #[trigger] ops@[j].id == x) by {
                if x == id {
                    assert(ops@[i as int].id == x);
                }
                if exists|j: int| 0 <= j < i + 1 && #[trigger] ops@[j].id == x {
                    let j = choose|j: int| 0 <= j < i + 1 && #[trigger] ops@[j].id == x;
                    if j < i {
                        assert(before.contains(x));
                    }
                }
            }
        }
        i += 1;
    }
    Ok(id_set)
}

/// Report the first qubit reference at or beyond `qc`.
fn check_qubits(ops: &Vec<Operation>, qc: u32) -> (r: Option<ValidationError>)
    ensures
        r == qubit_check(ops@, qc),
{
    let mut i: usize = 0;
    while i < ops.len()
        invariant
            i <= ops@.len(),
            forall|k: int| 0 <= k < i ==> !has_bad_qubit(#[trigger] ops@[k], qc),
        decreases ops@.len() - i,
    {
        let op = &ops[i];
        let mut j: usize = 0;
        while j < op.qubits.len()
            invariant
                i < ops@.len(),
                *op == ops@[i as int],
                forall|k: int| 0 <= k < i ==> !has_bad_qubit(#[trigger] ops@[k], qc),
                j <= op.qubits@.len(),
                forall|k: int| 0 <= k < j ==> op.qubits@[k] < qc,
            decreases op.qubits@.len() - j,
        {
            let q = op.qubits[j];
            if q >= qc {
                proof {
                    lemma_first_bad_qubit_op(ops@, qc, i as int);
                    lemma_first_bad_qubit(*op, qc, j as int);
                }
                return Some(ValidationError::InvalidQubit { op_id: op.id, qubit_id: q, qubit_count: qc });
            }
            j += 1;
        }
        proof {
            assert(!has_bad_qubit(ops@[i as int], qc));
        }
        i += 1;
    }
    None
}

/// Report a wrong number of positions, or the first faulty position.
fn check_positions(positions: &Option<Vec<GridPosition>>, qc: u32) -> (r: Option<ValidationError>)
    ensures
        r == position_check(*positions, qc),
{
    match positions {
        None => None,
        Some(ps) => {
            if ps.len() as u64 != qc as u64 {
                let got: u32 = if ps.len() as u64 <= u32::MAX as u64 {
                    ps.len() as u32
                } else {
                    u32::MAX
                };
                return Some(ValidationError::QubitPositionCountMismatch { expected: qc, got });
            }
            let mut seen: HashSet<u32> = HashSet::new();
            let mut i: usize = 0;
            while i < ps.len()
                invariant
                    *positions == Some(*ps),
                    i <= ps@.len(),
                    ps@.len() == qc,
                    forall|k: int| 0 <= k < i ==> !position_error_at(ps@, qc, k),
                    forall|x: u32|
                        seen@.contains(x) <==> (exists|j: int| 0 <= j < i && #[trigger] ps@[j].qubit == x),
                decreases ps@.len() - i,
            {
                let pos = ps[i];
                if pos.qubit >= qc {
                    proof {
                        lemma_first_position_error(ps@, qc, i as int);
                        assert(*positions == Some(*ps));
                        assert(ps@[first_position_error(ps@, qc)] == pos);
                    }
                    return Some(ValidationError::QubitPositionInvalidQubit { qubit_id: pos.qubit, qubit_count: qc });
                }
                let ghost before = seen@;
                if !seen.insert(pos.qubit) {
                    proof {
                        let j = choose|j: int| 0 <= j < i && #[trigger] ps@[j].qubit == pos.qubit;
                        assert(position_error_at(ps@, qc, i as int));
                        lemma_first_position_error(ps@, qc, i as int);
                    }
                    return Some(ValidationError::DuplicateQubitPosition(pos.qubit));
                }
                proof {
                    assert(!position_error_at(ps@, qc, i as int));
                    assert forall|x: u32|
                        seen@.contains(x) <==> (exists|j: int|
                            0 <= j < i + 1 && #[trigger] ps@[j].qubit == x) by {
                        if x == pos.qubit {
                            assert(ps@[i as int].qubit == x);
                        }
                        if exists|j: int| 0 <= j < i + 1 && #[trigger] ps@[j].qubit == x {
                            let j = choose|j: int| 0 <= j < i + 1 && #[trigger] ps@[j].qubit == x;
                            if j < i {
                                assert(before.contains(x));
                            }
                        }
                    }
                }
                i += 1;
            }
            None
        },
    }
}

/// Report the first dependency on a missing operation.
fn check_deps(c: &ProfilerCircuit, id_set: &HashSet<u64>) -> (r: Option<ValidationError>)
    requires
        forall|x: u64| id_set@.contains(x) <==> has_id(c.ops@, x),
    ensures
        r == dep_check(*c),
{
    let mut d: usize = 0;
    while d < c.deps.len()
        invariant
            d <= c.deps@.len(),
            forall|x: u64| id_set@.contains(x) <==> has_id(c.ops@, x),
            forall|k: int| 0 <= k < d ==> !dangling_dep_at(*c, k),
        decreases c.deps@.len() - d,
    {
        let dep = c.deps[d];
        let from_ok = id_set.contains(&dep.from);
        let to_ok = id_set.contains(&dep.to);
        if !from_ok || !to_ok {
            proof {
                assert(dangling_dep_at(*c, d as int));
                let f = first_dangling_dep(*c);
                assert(0 <= f < c.deps@.len() && dangling_dep_at(*c, f) && forall|k: int|
                    0 <= k < f ==> !dangling_dep_at(*c, k));
                if f > d {
                    assert(!dangling_dep_at(*c, d as int));
                }
                assert(f == d);
            }
            if !from_ok {
                return Some(ValidationError::DanglingDependency(dep.from));
            } else {
                return Some(ValidationError::DanglingDependency(dep.to));
            }
        }
        d += 1;
    }
    None
}

/// Report the first measurement that refers to a missing hook.
fn check_hook_refs(c: &ProfilerCircuit) -> (r: Option<ValidationError>)
    ensures
        r == hook_ref_check(*c),
{
    let mut i: usize = 0;
    while i < c.ops.len()
        invariant
            i <= c.ops@.len(),
            forall|k: int| 0 <= k < i ==> !dangling_hook_at(*c, k),
        decreases c.ops@.len() - i,
    {
        if let OpKind::Measurement { hook: Some(id) } = c.ops[i].kind {
            let mut found = false;
            let mut h: usize = 0;
            while h < c.hooks.len()
                invariant
                    h <= c.hooks@.len(),
                    found <==> exists|g: int| 0 <= g < h && #[trigger] c.hooks@[g].id == id,
                decreases c.hooks@.len() - h,
            {
                if c.hooks[h].id == id {
                    found = true;
                }
                h += 1;
            }
            if !found {
                proof {
                    assert(dangling_hook_at(*c, i as int));
                    let f = first_dangling_hook(*c);
                    assert(0 <= f < c.ops@.len() && dangling_hook_at(*c, f) && forall|k: int|
                        0 <= k < f ==> !dangling_hook_at(*c, k));
                    if f > i {
                        assert(!dangling_hook_at(*c, i as int));
                    }
                    assert(f == i);
                }
                return Some(ValidationError::DanglingHookReference(id));
            }
        }
        i += 1;
    }
    None
}

// ── Hook targets ────────────────────────────────────────────────────────────

/// No two operations share an identifier.
pub open spec fn unique_ids(ops: Seq<Operation>) -> bool {
    forall|i: int| 0 <= i < ops.len() ==> !dup_id_at(ops, i)
}

/// `m` maps exactly the operation identifiers to their positions.
pub open spec fn indexes_ops(m: Map<u64, usize>, ops: Seq<Operation>) -> bool {
    &&& forall|x: u64| m.contains_key(x) <==> has_id(ops, x)
    &&& forall|x: u64| #[trigger] m.contains_key(x) ==> m[x] < ops.len() && ops[m[x] as int].id == x
}

proof fn lemma_prefix_concat(base: Seq<u64>, x: Seq<u64>, y: Seq<u64>)
    requires
        is_prefix(x, y),
    ensures
        is_prefix(base + x, base + y),
{
    assert forall|t: int| 0 <= t < (base + x).len() implies #[trigger] (base + x)[t] == (base + y)[t] by {
        if t >= base.len() {
            assert(x[t - base.len()] == y[t - base.len()]);
        }
    }
}

proof fn lemma_prefix_trans(a: Seq<u64>, b: Seq<u64>, c: Seq<u64>)
    requires
        is_prefix(a, b),
        is_prefix(b, c),
    ensures
        is_prefix(a, c),
{
    assert forall|t: int| 0 <= t < a.len() implies #[trigger] a[t] == c[t] by {
        assert(a[t] == b[t]);
        assert(b[t] == c[t]);
    }
}

/// `a` is a prefix of `b`.
pub open spec fn is_prefix(a: Seq<u64>, b: Seq<u64>) -> bool {
    a.len() <= b.len() && forall|t: int| 0 <= t < a.len() ==> #[trigger] a[t] == b[t]
}

proof fn lemma_activation_targets_step(acts: Seq<ConditionalActivation>, a: int)
    requires
        0 <= a < acts.len(),
    ensures
        activation_targets(acts.take(a + 1)) == activation_targets(acts.take(a))
            + acts[a].ops_to_activate@,
{
    assert(acts.take(a + 1).drop_last() =~= acts.take(a));
}

proof fn lemma_hook_targets_step(hooks: Seq<MeasurementHook>, h: int)
    requires
        0 <= h < hooks.len(),
    ensures
        hook_targets(hooks.take(h + 1)) == hook_targets(hooks.take(h)) + activation_targets(
            hooks[h].activations@,
        ),
{
    assert(hooks.take(h + 1).drop_last() =~= hooks.take(h));
}

proof fn lemma_activation_targets_prefix(acts: Seq<ConditionalActivation>, a: int)
    requires
        0 <= a <= acts.len(),
    ensures
        is_prefix(activation_targets(acts.take(a)), activation_targets(acts)),
    decreases acts.len(),
{
    if a == acts.len() {
        assert(acts.take(a) =~= acts);
    } else {
        lemma_activation_targets_prefix(acts.drop_last(), a);
        assert(acts.drop_last().take(a) =~= acts.take(a));
    }
}

proof fn lemma_hook_targets_prefix(hooks: Seq<MeasurementHook>, h: int)
    requires
        0 <= h <= hooks.len(),
    ensures
        is_prefix(hook_targets(hooks.take(h)), hook_targets(hooks)),
    decreases hooks.len(),
{
    if h == hooks.len() {
        assert(hooks.take(h) =~= hooks);
    } else {
        lemma_hook_targets_prefix(hooks.drop_last(), h);
        assert(hooks.drop_last().take(h) =~= hooks.take(h));
    }
}

proof fn lemma_first_bad_target(c: ProfilerCircuit, t: int)
    requires
        0 <= t < hook_targets(c.hooks@).len(),
        bad_target_at(c, t),
        forall|k: int| 0 <= k < t ==> !bad_target_at(c, k),
    ensures
        first_bad_target(c) == t,
        exists|t: int| 0 <= t < hook_targets(c.hooks@).len() && bad_target_at(c, t),
{
    let f = first_bad_target(c);
    assert(0 <= f < hook_targets(c.hooks@).len() && bad_target_at(c, f) && forall|k: int|
        0 <= k < f ==> !bad_target_at(c, k));
    if f > t {
        assert(!bad_target_at(c, t));
    }
}

/// Map each operation identifier to its position.
fn build_index(ops: &Vec<Operation>) -> (m: HashMap<u64, usize>)
    ensures
        indexes_ops(m@, ops@),
{
    let mut m: HashMap<u64, usize> = HashMap::with_capacity(ops.len());
    let mut i: usize = 0;
    while i < ops.len()
        invariant
            i <= ops@.len(),
            forall|x: u64|
                m@.contains_key(x) <==> (exists|j: int| 0 <= j < i && #[trigger] ops@[j].id == x),
            forall|x: u64| #[trigger] m@.contains_key(x) ==> m@[x] < i && ops@[m@[x] as int].id == x,
        decreases ops@.len() - i,
    {
        let id = ops[i].id;
        let ghost before = m@;
        m.insert(id, i);
        proof {
            assert forall|x: u64| #[trigger] m@.contains_key(x) implies m@[x] < i + 1 && ops@[m@[x] as int].id == x by {
                if x != id {
                    assert(before.contains_key(x));
                }
            }
            assert forall|x: u64|
                m@.contains_key(x) <==> (exists|j: int|
                    0 <= j < i + 1 && #[trigger] ops@[j].id == x) by {
                if x == id {
                    assert(ops@[i as int].id == x);
                }
                if exists|j: int| 0 <= j < i + 1 && #[trigger] ops@[j].id == x {
                    let j = choose|j: int| 0 <= j < i + 1 && #[trigger] ops@[j].id == x;
                    if j < i {
                        assert(before.contains_key(x));
                    }
                }
            }
        }
        i += 1;
    }
    m
}

/// Report the first missing or initially active activation target, or
/// return the set of all targets.
fn check_targets(c: &ProfilerCircuit, index: &HashMap<u64, usize>) -> (r: Result<
    HashSet<u64>,
    ValidationError,
>)
    requires
        unique_ids(c.ops@),
        indexes_ops(index@, c.ops@),
    ensures
        match r {
            Ok(s) => target_check(*c) is None && forall|x: u64|
                s@.contains(x) <==> hook_targets(c.hooks@).contains(x),
            Err(e) => target_check(*c) == Some(e),
        },
{
    let ghost all = hook_targets(c.hooks@);
    let mut targets: HashSet<u64> = HashSet::new();
    let mut h: usize = 0;
    while h < c.hooks.len()
        invariant
            unique_ids(c.ops@),
            indexes_ops(index@, c.ops@),
            all == hook_targets(c.hooks@),
            h <= c.hooks@.len(),
            is_prefix(hook_targets(c.hooks@.take(h as int)), all),
            forall|t: int| 0 <= t < hook_targets(c.hooks@.take(h as int)).len() ==> !bad_target_at(*c, t),
            forall|x: u64| targets@.contains(x) <==> hook_targets(c.hooks@.take(h as int)).contains(x),
        decreases c.hooks@.len() - h,
    {
        let hook = &c.hooks[h];
        let ghost base = hook_targets(c.hooks@.take(h as int));
        proof {
            lemma_hook_targets_step(c.hooks@, h as int);
            lemma_hook_targets_prefix(c.hooks@, h as int + 1);
            assert(hook_targets(c.hooks@.take(h as int + 1)) == base + activation_targets(hook.activations@));
        }
        let mut a: usize = 0;
        while a < hook.activations.len()
            invariant
                unique_ids(c.ops@),
                indexes_ops(index@, c.ops@),
                all == hook_targets(c.hooks@),
                h < c.hooks@.len(),
                *hook == c.hooks@[h as int],
                base == hook_targets(c.hooks@.take(h as int)),
                is_prefix(base + activation_targets(hook.activations@), all),
                a <= hook.activations@.len(),
                forall|t: int|
                    0 <= t < (base + activation_targets(hook.activations@.take(a as int))).len()
                        ==> !bad_target_at(*c, t),
                forall|x: u64|
                    targets@.contains(x) <==> (base + activation_targets(
                        hook.activations@.take(a as int),
                    )).contains(x),
            decreases hook.activations@.len() - a,
        {
            let act = &hook.activations[a];
            let ghost mid = base + activation_targets(hook.activations@.take(a as int));
            proof {
                lemma_activation_targets_step(hook.activations@, a as int);
                lemma_activation_targets_prefix(hook.activations@, a as int + 1);
                assert(activation_targets(hook.activations@.take(a as int + 1)) =~= activation_targets(hook.activations@.take(a as int)) + act.ops_to_activate@);
                lemma_prefix_concat(base, activation_targets(hook.activations@.take(a as int + 1)), activation_targets(hook.activations@));
                assert(base + activation_targets(hook.activations@.take(a as int + 1)) =~= mid + act.ops_to_activate@);
                lemma_prefix_trans(mid + act.ops_to_activate@, base + activation_targets(hook.activations@), all);
            }
            let mut k: usize = 0;
            while k < act.ops_to_activate.len()
                invariant
                    unique_ids(c.ops@),
                    indexes_ops(index@, c.ops@),
                    all == hook_targets(c.hooks@),
                    is_prefix(mid + act.ops_to_activate@, all),
                    k <= act.ops_to_activate@.len(),
                    forall|t: int|
                        0 <= t < mid.len() + k ==> !bad_target_at(*c, t),
                    forall|x: u64|
                        targets@.contains(x) <==> (mid + act.ops_to_activate@.take(k as int)).contains(x),
                decreases act.ops_to_activate@.len() - k,
            {
                let x = act.ops_to_activate[k];
                let ghost t = mid.len() + k;
                proof {
                    assert((mid + act.ops_to_activate@)[t] == all[t]);
                    assert(all[t] == x);
                }
                match index.get(&x) {
                    None => {
                        proof {
                            assert(bad_target_at(*c, t));
                            lemma_first_bad_target(*c, t);
                        }
                        return Err(ValidationError::DanglingDependency(x));
                    },
                    Some(idx) => {
                        proof {
                            assert(index@.contains_key(x));
                        }
                        if c.ops[*idx].initially_active {
                            proof {
                                assert(c.ops@[*idx as int].id == x);
                                assert(id_is_active(c.ops@, x));
                                assert(bad_target_at(*c, t));
                                lemma_first_bad_target(*c, t);
                            }
                            return Err(ValidationError::ActiveOpInHook(x));
                        }
                        proof {
                            assert(c.ops@[*idx as int].id == x);
                            assert(!id_is_active(c.ops@, x)) by {
                                if id_is_active(c.ops@, x) {
                                    let i = choose|i: int|
                                        0 <= i < c.ops@.len() && #[trigger] c.ops@[i].id == x
                                            && c.ops@[i].initially_active;
                                    if i < *idx {
                                        assert(dup_id_at(c.ops@, *idx as int));
                                    } else if i > *idx {
                                        assert(dup_id_at(c.ops@, i));
                                    }
                                }
                            }
                            assert(!bad_target_at(*c, t));
                        }
                    },
                }
                let ghost before = targets@;
                targets.insert(x);
                proof {
                    let nxt = mid + act.ops_to_activate@.take(k as int + 1);
                    assert(nxt =~= (mid + act.ops_to_activate@.take(k as int)).push(x));
                    assert forall|y: u64| targets@.contains(y) <==> nxt.contains(y) by {
                        if y == x {
                            assert(nxt[nxt.len() - 1] == x);
                        }
                        if nxt.contains(y) && y != x {
                            let j = choose|j: int| 0 <= j < nxt.len() && nxt[j] == y;
                            assert((mid + act.ops_to_activate@.take(k as int))[j] == y);
                        }
                        if before.contains(y) {
                            let j = choose|j: int| 0 <= j < (mid + act.ops_to_activate@.take(k as int)).len()
                                && (mid + act.ops_to_activate@.take(k as int))[j] == y;
                            assert(nxt[j] == y);
                        }
                    }
                }
                k += 1;
            }
            proof {
                assert(act.ops_to_activate@.take(k as int) =~= act.ops_to_activate@);
                assert(base + activation_targets(hook.activations@.take(a as int + 1)) =~= mid
                    + act.ops_to_activate@);
            }
            a += 1;
        }
        proof {
            assert(hook.activations@.take(a as int) =~= hook.activations@);
            assert(hook_targets(c.hooks@.take(h as int + 1)) =~= base + activation_targets(
                hook.activations@,
            ));
        }
        h += 1;
    }
    proof {
        assert(c.hooks@.take(h as int) =~= c.hooks@);
    }
    Ok(targets)
}

/// Report the first inactive operation that no hook activates.
fn check_orphans(c: &ProfilerCircuit, targets: &HashSet<u64>) -> (r: Option<ValidationError>)
    requires
        forall|x: u64| targets@.contains(x) <==> hook_targets(c.hooks@).contains(x),
    ensures
        r == orphan_check(*c),
{
    let mut i: usize = 0;
    while i < c.ops.len()
        invariant
            i <= c.ops@.len(),
            forall|x: u64| targets@.contains(x) <==> hook_targets(c.hooks@).contains(x),
            forall|k: int| 0 <= k < i ==> !orphan_at(*c, k),
        decreases c.ops@.len() - i,
    {
        let op = &c.ops[i];
        if !op.initially_active && !targets.contains(&op.id) {
            proof {
                assert(orphan_at(*c, i as int));
                let f = first_orphan(*c);
                assert(0 <= f < c.ops@.len() && orphan_at(*c, f) && forall|k: int|
                    0 <= k < f ==> !orphan_at(*c, k));
                if f > i {
                    assert(!orphan_at(*c, i as int));
                }
                assert(f == i);
            }
            return Some(ValidationError::OrphanedInactiveOp(op.id));
        }
        i += 1;
    }
    None
}

// ── Acyclicity (Kahn's algorithm) ───────────────────────────────────────────

/// Position of the operation with identifier `id`.
pub open spec fn idx_of(ops: Seq<Operation>, id: u64) -> int {
    choose|i: int| 0 <= i < ops.len() && ops[i].id == id
}

/// The dependencies as pairs of operation positions.
pub open spec fn edges(c: ProfilerCircuit) -> Seq<(int, int)> {
    c.deps@.map_values(|d: Dependency| (idx_of(c.ops@, d.from), idx_of(c.ops@, d.to)))
}

/// Number of edges into `v` whose source is not in `done`.
pub open spec fn in_count(es: Seq<(int, int)>, v: int, done: Set<int>) -> nat
    decreases es.len(),
{
    if es.len() == 0 {
        0
    } else {
        in_count(es.drop_last(), v, done) + if es.last().1 == v && !done.contains(es.last().0) {
            1nat
        } else {
            0nat
        }
    }
}

/// Targets of the edges out of `u`, in edge order.
pub open spec fn succ_seq(es: Seq<(int, int)>, u: int) -> Seq<int>
    decreases es.len(),
{
    if es.len() == 0 {
        Seq::empty()
    } else if es.last().0 == u {
        succ_seq(es.drop_last(), u).push(es.last().1)
    } else {
        succ_seq(es.drop_last(), u)
    }
}

/// Number of occurrences of `v` in `s`.
pub open spec fn occ(s: Seq<int>, v: int) -> nat
    decreases s.len(),
{
    if s.len() == 0 {
        0
    } else {
        occ(s.drop_last(), v) + if s.last() == v {
            1nat
        } else {
            0nat
        }
    }
}

/// `a` holds the same positions as `b`.
pub open spec fn same_positions(a: Seq<usize>, b: Seq<int>) -> bool {
    a.len() == b.len() && forall|j: int| 0 <= j < a.len() ==> #[trigger] a[j] as int == b[j]
}

proof fn lemma_idx_of(ops: Seq<Operation>, i: int)
    requires
        unique_ids(ops),
        0 <= i < ops.len(),
    ensures
        idx_of(ops, ops[i].id) == i,
{
    let x = ops[i].id;
    let j = idx_of(ops, x);
    assert(0 <= j < ops.len() && ops[j].id == x);
    if j < i {
        assert(dup_id_at(ops, i));
    } else if j > i {
        assert(dup_id_at(ops, j));
    }
}

proof fn lemma_in_count_le(es: Seq<(int, int)>, v: int, done: Set<int>)
    ensures
        in_count(es, v, done) <= es.len(),
    decreases es.len(),
{
    if es.len() > 0 {
        lemma_in_count_le(es.drop_last(), v, done);
    }
}

proof fn lemma_in_count_done(es: Seq<(int, int)>, v: int, done: Set<int>, u: int)
    requires
        !done.contains(u),
    ensures
        in_count(es, v, done) == in_count(es, v, done.insert(u)) + occ(succ_seq(es, u), v),
    decreases es.len(),
{
    if es.len() > 0 {
        lemma_in_count_done(es.drop_last(), v, done, u);
        let s = succ_seq(es.drop_last(), u);
        if es.last().0 == u {
            assert(s.push(es.last().1).drop_last() =~= s);
        }
    }
}

proof fn lemma_in_count_zero(es: Seq<(int, int)>, v: int, done: Set<int>)
    requires
        in_count(es, v, done) == 0,
    ensures
        forall|k: int| 0 <= k < es.len() && #[trigger] es[k].1 == v ==> done.contains(es[k].0),
    decreases es.len(),
{
    if es.len() > 0 {
        lemma_in_count_zero(es.drop_last(), v, done);
        assert forall|k: int| 0 <= k < es.len() && #[trigger] es[k].1 == v implies done.contains(es[k].0) by {
            if k < es.len() - 1 {
                assert(es.drop_last()[k] == es[k]);
            }
        }
    }
}

proof fn lemma_in_count_pos(es: Seq<(int, int)>, v: int, done: Set<int>) -> (k: int)
    requires
        in_count(es, v, done) > 0,
    ensures
        0 <= k < es.len(),
        es[k].1 == v,
        !done.contains(es[k].0),
    decreases es.len(),
{
    if es.last().1 == v && !done.contains(es.last().0) {
        es.len() - 1
    } else {
        let k = lemma_in_count_pos(es.drop_last(), v, done);
        assert(es.drop_last()[k] == es[k]);
        k
    }
}

proof fn lemma_succ_seq_edges(es: Seq<(int, int)>, u: int)
    ensures
        forall|j: int|
            #![trigger succ_seq(es, u)[j]]
            0 <= j < succ_seq(es, u).len() ==> exists|k: int|
                #![trigger es[k]]
                0 <= k < es.len() && es[k] == (u, succ_seq(es, u)[j]),
    decreases es.len(),
{
    if es.len() > 0 {
        lemma_succ_seq_edges(es.drop_last(), u);
        let s = succ_seq(es.drop_last(), u);
        assert forall|j: int| 0 <= j < succ_seq(es, u).len() implies exists|k: int|
            #![trigger es[k]]
            0 <= k < es.len() && es[k] == (u, #[trigger] succ_seq(es, u)[j]) by {
            if j < s.len() {
                assert(s[j] == succ_seq(es.drop_last(), u)[j]);
                let k = choose|k: int| #![trigger es.drop_last()[k]] 0 <= k < es.drop_last().len() && es.drop_last()[k] == (u, s[j]);
                assert(es[k] == es.drop_last()[k]);
            } else {
                assert(es[es.len() - 1] == (u, succ_seq(es, u)[j]));
            }
        }
    }
}

proof fn lemma_occ_take_step(s: Seq<int>, j: int, v: int)
    requires
        0 <= j < s.len(),
    ensures
        occ(s.take(j + 1), v) == occ(s.take(j), v) + if s[j] == v {
            1nat
        } else {
            0nat
        },
{
    assert(s.take(j + 1).drop_last() =~= s.take(j));
}

proof fn lemma_occ_take_le(s: Seq<int>, j: int, v: int)
    requires
        0 <= j <= s.len(),
    ensures
        occ(s.take(j), v) <= occ(s, v),
    decreases s.len(),
{
    if j == s.len() {
        assert(s.take(j) =~= s);
    } else {
        lemma_occ_take_le(s.drop_last(), j, v);
        assert(s.drop_last().take(j) =~= s.take(j));
    }
}

proof fn lemma_edges_take_step(es: Seq<(int, int)>, d: int, v: int, u: int)
    requires
        0 <= d < es.len(),
    ensures
        in_count(es.take(d + 1), v, Set::empty()) == in_count(es.take(d), v, Set::empty()) + if es[d].1
            == v {
            1nat
        } else {
            0nat
        },
        succ_seq(es.take(d + 1), u) == if es[d].0 == u {
            succ_seq(es.take(d), u).push(es[d].1)
        } else {
            succ_seq(es.take(d), u)
        },
{
    assert(es.take(d + 1).drop_last() =~= es.take(d));
}

proof fn lemma_min_rank(n: int, done: Set<int>, r: spec_fn(int) -> int, w: int)
    requires
        0 <= w < n,
        !done.contains(w),
    ensures
        exists|m: int|
            0 <= m < n && !done.contains(m) && forall|x: int|
                0 <= x < n && !done.contains(x) ==> r(m) <= #[trigger] r(x),
    decreases n,
{
    if n == 1 {
        assert(w == 0);
        assert forall|x: int| 0 <= x < n && !done.contains(x) implies r(0) <= #[trigger] r(x) by {
            assert(x == 0);
        }
    } else if w == n - 1 && forall|x: int| 0 <= x < n - 1 ==> done.contains(x) {
        assert forall|x: int| 0 <= x < n && !done.contains(x) implies r(w) <= #[trigger] r(x) by {
            assert(x == n - 1);
        }
    } else {
        let w2 = if w < n - 1 {
            w
        } else {
            choose|x: int| 0 <= x < n - 1 && !done.contains(x)
        };
        lemma_min_rank(n - 1, done, r, w2);
        let m = choose|m: int|
            0 <= m < n - 1 && !done.contains(m) && forall|x: int|
                0 <= x < n - 1 && !done.contains(x) ==> r(m) <= #[trigger] r(x);
        if !done.contains(n - 1) && r(n - 1) < r(m) {
            assert forall|x: int| 0 <= x < n && !done.contains(x) implies r(n - 1) <= #[trigger] r(x) by {
                if x < n - 1 {
                    assert(r(m) <= r(x));
                }
            }
        } else {
            assert forall|x: int| 0 <= x < n && !done.contains(x) implies r(m) <= #[trigger] r(x) by {
                if x < n - 1 {
                    assert(r(m) <= r(x));
                }
            }
        }
    }
}

/// Positions of every edge lie within the operations.
proof fn lemma_edges_in_range(c: ProfilerCircuit)
    requires
        forall|d: int| 0 <= d < c.deps@.len() ==> !dangling_dep_at(c, d),
    ensures
        forall|k: int|
            0 <= k < edges(c).len() ==> 0 <= #[trigger] edges(c)[k].0 < c.ops@.len() && 0
                <= edges(c)[k].1 < c.ops@.len(),
        edges(c).len() == c.deps@.len(),
{
    assert forall|k: int| 0 <= k < edges(c).len() implies 0 <= #[trigger] edges(c)[k].0 < c.ops@.len()
        && 0 <= edges(c)[k].1 < c.ops@.len() by {
        assert(!dangling_dep_at(c, k));
        let d = c.deps@[k];
        assert(has_id(c.ops@, d.from));
        assert(has_id(c.ops@, d.to));
    }
}

/// Decide acyclicity with Kahn's algorithm: repeatedly remove an operation
/// with no pending predecessors; every operation is removed iff the
/// dependencies can be ordered.
fn check_acyclic(c: &ProfilerCircuit, index: &HashMap<u64, usize>) -> (r: bool)
    requires
        unique_ids(c.ops@),
        indexes_ops(index@, c.ops@),
        forall|d: int| 0 <= d < c.deps@.len() ==> !dangling_dep_at(*c, d),
    ensures
        r == is_acyclic(*c),
{
    let num_ops = c.ops.len();
    let ghost n = num_ops as int;
    let ghost es = edges(*c);
    proof {
        lemma_edges_in_range(*c);
    }
    let mut in_degree: Vec<usize> = Vec::new();
    let mut successors: Vec<Vec<usize>> = Vec::new();
    let mut i: usize = 0;
    while i < num_ops
        invariant
            i <= num_ops,
            in_degree@.len() == i,
            successors@.len() == i,
            forall|v: int| 0 <= v < i ==> #[trigger] in_degree@[v] == 0,
            forall|v: int| 0 <= v < i ==> (#[trigger] successors@[v])@.len() == 0,
        decreases num_ops - i,
    {
        in_degree.push(0);
        successors.push(Vec::new());
        i += 1;
    }
    let mut d: usize = 0;
    while d < c.deps.len()
        invariant
            num_ops == c.ops@.len(),
            n == num_ops,
            es == edges(*c),
            es.len() == c.deps@.len(),
            unique_ids(c.ops@),
            indexes_ops(index@, c.ops@),
            forall|k: int| 0 <= k < es.len() ==> 0 <= #[trigger] es[k].0 < n && 0 <= es[k].1 < n,
            forall|k: int| 0 <= k < c.deps@.len() ==> !dangling_dep_at(*c, k),
            d <= c.deps@.len(),
            in_degree@.len() == n,
            successors@.len() == n,
            forall|v: int| 0 <= v < n ==> #[trigger] in_degree@[v] == in_count(es.take(d as int), v, Set::empty()),
            forall|u: int| 0 <= u < n ==> same_positions(#[trigger] successors@[u]@, succ_seq(es.take(d as int), u)),
        decreases c.deps@.len() - d,
    {
        let dep = c.deps[d];
        match (index.get(&dep.from), index.get(&dep.to)) {
            (Some(from_idx), Some(to_idx)) => {
                let f = *from_idx;
                let t = *to_idx;
                proof {
                    assert(index@.contains_key(dep.from));
                    assert(index@.contains_key(dep.to));
                    lemma_idx_of(c.ops@, f as int);
                    lemma_idx_of(c.ops@, t as int);
                    assert(es[d as int] == (f as int, t as int));
                    lemma_in_count_le(es.take(d as int), t as int, Set::empty());
                }
                let ghost old_succ = successors@;
                let ghost old_deg = in_degree@;
                successors[f].push(t);
                in_degree[t] = in_degree[t] + 1;
                proof {
                    assert forall|v: int| 0 <= v < n implies #[trigger] in_degree@[v] == in_count(es.take(d as int + 1), v, Set::empty()) by {
                        lemma_edges_take_step(es, d as int, v, 0);
                    }
                    assert forall|u: int| 0 <= u < n implies same_positions(#[trigger] successors@[u]@, succ_seq(es.take(d as int + 1), u)) by {
                        lemma_edges_take_step(es, d as int, 0, u);
                        if u != f {
                            assert(successors@[u] == old_succ[u]);
                        }
                    }
                }
            },
            _ => {
                proof {
                    assert(!dangling_dep_at(*c, d as int));
                    assert(has_id(c.ops@, dep.from) && has_id(c.ops@, dep.to));
                    assert(false);
                }
            },
        }
        d += 1;
    }
    proof {
        assert(es.take(c.deps@.len() as int) =~= es);
    }
    let mut queue: VecDeque<usize> = VecDeque::new();
    let mut idx: usize = 0;
    while idx < num_ops
        invariant
            num_ops == c.ops@.len(),
            n == num_ops,
            idx <= num_ops,
            in_degree@.len() == n,
            forall|j: int| 0 <= j < queue@.len() ==> #[trigger] queue@[j] < idx && in_degree@[queue@[j] as int] == 0,
            forall|a: int, b: int| 0 <= a < b < queue@.len() ==> queue@[a] != queue@[b],
            forall|v: int| 0 <= v < idx && #[trigger] in_degree@[v] == 0 ==> queue@.contains(v as usize),
        decreases num_ops - idx,
    {
        if in_degree[idx] == 0 {
            let ghost before = queue@;
            queue.push_back(idx);
            proof {
                assert forall|v: int| 0 <= v < idx + 1 && #[trigger] in_degree@[v] == 0 implies queue@.contains(v as usize) by {
                    if v == idx {
                        assert(queue@[queue@.len() - 1] == idx);
                    } else {
                        let j = choose|j: int| 0 <= j < before.len() && before[j] == v as usize;
                        assert(queue@[j] == v as usize);
                    }
                }
            }
        }
        idx += 1;
    }
    let mut visited: u64 = 0;
    let ghost mut done: Set<int> = Set::empty();
    let ghost mut pos: Seq<int> = Seq::new(num_ops as nat, |v: int| 0int);
    proof {
        lemma_int_range_facts(n);
    }
    while queue.len() > 0
        invariant
            num_ops == c.ops@.len(),
            n == num_ops,
            es == edges(*c),
            es.len() == c.deps@.len(),
            forall|k: int| 0 <= k < es.len() ==> 0 <= #[trigger] es[k].0 < n && 0 <= es[k].1 < n,
            in_degree@.len() == n,
            successors@.len() == n,
            forall|u: int| 0 <= u < n ==> same_positions(#[trigger] successors@[u]@, succ_seq(es, u)),
            vstd::set_lib::set_int_range(0, n).finite(),
            vstd::set_lib::set_int_range(0, n).len() == n,
            done.finite(),
            done.len() == visited,
            visited <= n,
            forall|x: int| #[trigger] done.contains(x) ==> 0 <= x < n && pos[x] < visited,
            pos.len() == n,
            forall|k: int|
                0 <= k < es.len() && done.contains(#[trigger] es[k].1) ==> done.contains(es[k].0)
                    && pos[es[k].0] < pos[es[k].1],
            forall|v: int| 0 <= v < n && !done.contains(v) ==> #[trigger] in_degree@[v] == in_count(es, v, done),
            forall|j: int|
                0 <= j < queue@.len() ==> #[trigger] queue@[j] < n && !done.contains(queue@[j] as int)
                    && in_degree@[queue@[j] as int] == 0,
            forall|a: int, b: int| 0 <= a < b < queue@.len() ==> queue@[a] != queue@[b],
            forall|v: int|
                0 <= v < n && !done.contains(v) && #[trigger] in_degree@[v] == 0 ==> queue@.contains(v as usize),
        decreases n - visited,
    {
        let ghost old_queue = queue@;
        let node = match queue.pop_front() {
            Some(x) => x,
            None => {
                proof {
                    assert(false);
                }
                0
            },
        };
        let ghost u = node as int;
        let ghost old_done = done;
        proof {
            assert(node == old_queue[0]);
            assert(!done.contains(u));
            lemma_in_count_zero(es, u, done);
            assert(done.insert(u).subset_of(vstd::set_lib::set_int_range(0, n)));
            vstd::set_lib::lemma_len_subset(done.insert(u), vstd::set_lib::set_int_range(0, n));
            assert(done.insert(u).len() == done.len() + 1);
            pos = pos.update(u, visited as int);
            done = done.insert(u);
            assert forall|w: int| 0 <= w < n implies #[trigger] in_count(es, w, old_done) == in_count(es, w, done) + occ(succ_seq(es, u), w) by {
                lemma_in_count_done(es, w, old_done, u);
            }
            lemma_succ_seq_edges(es, u);
            assert forall|j: int| 0 <= j < succ_seq(es, u).len() implies 0 <= #[trigger] succ_seq(es, u)[j] < n && !done.contains(succ_seq(es, u)[j]) by {
                let k = choose|k: int| #![trigger es[k]] 0 <= k < es.len() && es[k] == (u, succ_seq(es, u)[j]);
                assert(0 <= es[k].0 < n);
                if old_done.contains(es[k].1) {
                    assert(old_done.contains(es[k].0));
                }
                if es[k].1 == u {
                    assert(old_done.contains(es[k].0));
                }
            }
            assert forall|j: int| 0 <= j < queue@.len() implies #[trigger] queue@[j] != node by {
                assert(queue@[j] == old_queue[j + 1]);
            }
            assert forall|v: int|
                0 <= v < n && !done.contains(v) && #[trigger] in_degree@[v] == 0 implies queue@.contains(v as usize) by {
                assert(old_queue.contains(v as usize));
                let jq = choose|jq: int| 0 <= jq < old_queue.len() && old_queue[jq] == v as usize;
                assert(jq != 0);
                assert(queue@[jq - 1] == v as usize);
            }
        }
        visited = visited + 1;
        let succs = &successors[node];
        let ghost sq = succ_seq(es, u);
        let mut j: usize = 0;
        while j < succs.len()
            invariant
                num_ops == c.ops@.len(),
                n == num_ops,
                0 <= u < n,
                *succs == successors@[u],
                same_positions(succs@, sq),
                sq == succ_seq(es, u),
                forall|jj: int| 0 <= jj < sq.len() ==> 0 <= #[trigger] sq[jj] < n && !done.contains(sq[jj]),
                forall|w: int| 0 <= w < n ==> #[trigger] in_count(es, w, old_done) == in_count(es, w, done) + occ(sq, w),
                in_degree@.len() == n,
                j <= succs@.len(),
                forall|w: int| 0 <= w < n && !done.contains(w) ==> #[trigger] in_degree@[w] + occ(sq.take(j as int), w) == in_count(es, w, old_done),
                forall|x: int| #[trigger] done.contains(x) ==> 0 <= x < n,
                forall|jq: int|
                    0 <= jq < queue@.len() ==> #[trigger] queue@[jq] < n && !done.contains(queue@[jq] as int)
                        && in_degree@[queue@[jq] as int] == 0,
                forall|a: int, b: int| 0 <= a < b < queue@.len() ==> queue@[a] != queue@[b],
                forall|v: int|
                    0 <= v < n && !done.contains(v) && #[trigger] in_degree@[v] == 0 ==> queue@.contains(v as usize),
            decreases succs@.len() - j,
        {
            let v = succs[j];
            proof {
                assert(sq[j as int] == v as int);
                lemma_occ_take_step(sq, j as int, v as int);
                lemma_occ_take_le(sq, j as int + 1, v as int);
                assert(in_degree@[v as int] >= 1);
                assert forall|w: int| 0 <= w < n && w != v implies occ(sq.take(j as int + 1), w) == occ(sq.take(j as int), w) by {
                    lemma_occ_take_step(sq, j as int, w);
                }
                assert forall|jq: int| 0 <= jq < queue@.len() implies #[trigger] queue@[jq] != v by {}
            }
            let ghost qb = queue@;
            in_degree[v] = in_degree[v] - 1;
            if in_degree[v] == 0 {
                queue.push_back(v);
                proof {
                    assert(queue@[queue@.len() - 1] == v);
                    assert forall|w: int| 0 <= w < n && !done.contains(w) && #[trigger] in_degree@[w] == 0 implies queue@.contains(w as usize) by {
                        if w != v {
                            let jq = choose|jq: int| 0 <= jq < qb.len() && qb[jq] == w as usize;
                            assert(queue@[jq] == w as usize);
                        }
                    }
                }
            }
            j += 1;
        }
        proof {
            assert(sq.take(j as int) =~= sq);
            assert forall|k: int|
                0 <= k < es.len() && done.contains(#[trigger] es[k].1) implies done.contains(es[k].0)
                    && pos[es[k].0] < pos[es[k].1] by {
                if es[k].1 == u {
                    assert(old_done.contains(es[k].0));
                } else {
                    assert(old_done.contains(es[k].1));
                }
            }
        }
    }
    proof {
        lemma_int_range_facts(n);
    }
    if visited == num_ops as u64 {
        proof {
            assert forall|v: int| 0 <= v < n implies done.contains(v) by {
                if !done.contains(v) {
                    vstd::set_lib::lemma_len_subset(done, vstd::set_lib::set_int_range(0, n).remove(v));
                }
            }
            let ops = c.ops@;
            let rank = |id: u64| pos[idx_of(ops, id)];
            assert forall|k: int| 0 <= k < c.deps@.len() implies rank(#[trigger] c.deps@[k].from) < rank(c.deps@[k].to) by {
                assert(es[k] == (idx_of(ops, c.deps@[k].from), idx_of(ops, c.deps@[k].to)));
                assert(0 <= es[k].1 < n);
                assert(done.contains(es[k].1));
            }
            assert(is_ranking(*c, rank));
        }
        true
    } else {
        proof {
            assert(exists|v: int| 0 <= v < n && !done.contains(v)) by {
                if forall|v: int| 0 <= v < n ==> done.contains(v) {
                    vstd::set_lib::lemma_len_subset(vstd::set_lib::set_int_range(0, n), done);
                }
            }
            if is_acyclic(*c) {
                let rank = choose|rank: spec_fn(u64) -> int| #[trigger] is_ranking(*c, rank);
                let ops = c.ops@;
                let r = |i: int| rank(ops[i].id);
                let v1 = choose|v: int| 0 <= v < n && !done.contains(v);
                lemma_min_rank(n, done, r, v1);
                let m = choose|m: int|
                    0 <= m < n && !done.contains(m) && forall|x: int|
                        0 <= x < n && !done.contains(x) ==> r(m) <= #[trigger] r(x);
                assert(in_degree@[m] != 0) by {
                    if in_degree@[m] == 0 {
                        assert(queue@.contains(m as usize));
                    }
                }
                let k = lemma_in_count_pos(es, m, done);
                let u0 = es[k].0;
                let dep = c.deps@[k];
                assert(es[k] == (idx_of(ops, dep.from), idx_of(ops, dep.to)));
                assert(!dangling_dep_at(*c, k));
                assert(has_id(ops, dep.from));
                assert(has_id(ops, dep.to));
                assert(ops[u0].id == dep.from);
                assert(ops[m].id == dep.to);
                assert(rank(dep.from) < rank(dep.to));
                assert(r(m) <= r(u0));
                assert(false);
            }
        }
        false
    }
}

proof fn lemma_int_range_facts(n: int)
    requires
        n >= 0,
    ensures
        vstd::set_lib::set_int_range(0, n).finite(),
        vstd::set_lib::set_int_range(0, n).len() == n,
{
    vstd::set_lib::lemma_int_range(0, n);
}

/// Validate that a [`ProfilerCircuit`] is well-formed.
///
/// Checks, in this order, and reports the first failure:
/// - the circuit is non-empty;
/// - no two operations share an identifier;
/// - every qubit reference is below `qubit_count`;
/// - qubit positions, if present, number `qubit_count`, are in range and unique;
/// - every dependency endpoint names an existing operation;
/// - every measurement hook reference names an existing hook;
/// - every hook activation target exists and is initially inactive;
/// - every inactive operation is the target of some hook;
/// - the dependency graph is acyclic.
pub fn validate(circuit: ProfilerCircuit) -> (r: Result<ValidatedCircuit, ValidationError>)
    ensures
        match r {
            Ok(v) => validation_result(circuit) == Ok::<(), ValidationError>(()) && v@ == circuit,
            Err(e) => validation_result(circuit) == Err::<(), ValidationError>(e),
        },
{
    if circuit.ops.len() == 0 {
        return Err(ValidationError::EmptyCircuit);
    }
    let id_set = match collect_ids(&circuit.ops) {
        Ok(s) => s,
        Err(id) => {
            return Err(ValidationError::DuplicateOpId(id));
        },
    };
    if let Some(e) = check_qubits(&circuit.ops, circuit.qubit_count) {
        return Err(e);
    }
    if let Some(e) = check_positions(&circuit.qubit_positions, circuit.qubit_count) {
        return Err(e);
    }
    if let Some(e) = check_deps(&circuit, &id_set) {
        return Err(e);
    }
    if let Some(e) = check_hook_refs(&circuit) {
        return Err(e);
    }
    let index = build_index(&circuit.ops);
    let targets = match check_targets(&circuit, &index) {
        Ok(t) => t,
        Err(e) => {
            return Err(e);
        },
    };
    if let Some(e) = check_orphans(&circuit, &targets) {
        return Err(e);
    }
    proof {
        assert forall|d: int| 0 <= d < circuit.deps@.len() implies !dangling_dep_at(circuit, d) by {
            if dangling_dep_at(circuit, d) {
                assert(dep_check(circuit) is Some);
            }
        }
    }
    if !check_acyclic(&circuit, &index) {
        return Err(ValidationError::CyclicDag);
    }
    Ok(ValidatedCircuit { inner: circuit })
}


/// Every activation target of a valid circuit names one of its operations.
#[verifier::spinoff_prover]
#[verifier::rlimit(40)]
pub proof fn lemma_valid_target_exists(c: ProfilerCircuit, h: int, a: int, k: int)
    requires
        is_valid(c),
        0 <= h < c.hooks@.len(),
        0 <= a < c.hooks@[h].activations@.len(),
        0 <= k < c.hooks@[h].activations@[a].ops_to_activate@.len(),
    ensures
        has_id(c.ops@, c.hooks@[h].activations@[a].ops_to_activate@[k]),
{
    let hooks = c.hooks@;
    let acts = hooks[h].activations@;
    let x = acts[a].ops_to_activate@[k];
    lemma_hook_targets_step(hooks, h);
    lemma_hook_targets_prefix(hooks, h + 1);
    lemma_activation_targets_step(acts, a);
    lemma_activation_targets_prefix(acts, a + 1);
    let base = hook_targets(hooks.take(h));
    let mid = activation_targets(acts.take(a));
    let t = base.len() + mid.len() + k;
    assert(activation_targets(acts.take(a + 1))[mid.len() + k] == x);
    assert(activation_targets(acts)[mid.len() + k] == x);
    assert(hook_targets(hooks.take(h + 1))[t] == x);
    assert(hook_targets(hooks)[t] == x);
    assert(target_check(c) is None);
    assert(!bad_target_at(c, t));
}

} // verus!
