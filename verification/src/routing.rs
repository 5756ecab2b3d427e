//! Routing cost models: latency estimation for multi-qubit gates.

use vstd::prelude::*;

use crate::circuit::GridPosition;
use crate::circuit::QubitId;

verus! {

/// `x` clamped to the range of `u32`.
pub open spec fn saturate_u32(x: int) -> u32 {
    if x > u32::MAX {
        u32::MAX
    } else {
        x as u32
    }
}

/// The distance between two coordinates.
pub open spec fn abs_diff(a: u32, b: u32) -> int {
    if a >= b {
        a - b
    } else {
        b - a
    }
}

/// Latency of the fixed-overhead model: nothing for a gate on fewer than
/// two qubits, `overhead_cycles` otherwise.
pub open spec fn scalar_latency(overhead_cycles: u32, qubits: Seq<QubitId>) -> u32 {
    if qubits.len() < 2 {
        0
    } else {
        overhead_cycles
    }
}

/// Latency of the grid model: the Manhattan distance between the first two
/// qubits times `cycles_per_hop`, each step saturating at `u32::MAX`; zero
/// for a gate on fewer than two qubits or a qubit without a position.
pub open spec fn manhattan_latency(
    cycles_per_hop: u32,
    qubits: Seq<QubitId>,
    positions: Seq<(u32, u32)>,
) -> u32 {
    if qubits.len() < 2 {
        0
    } else {
        let qa = qubits[0] as int;
        let qb = qubits[1] as int;
        if qa >= positions.len() || qb >= positions.len() {
            0
        } else {
            let (ra, ca) = positions[qa];
            let (rb, cb) = positions[qb];
            let dist = saturate_u32(abs_diff(ra, rb) + abs_diff(ca, cb));
            saturate_u32(dist * cycles_per_hop)
        }
    }
}

/// Routing cost model. Returns latency in QEC cycles.
pub trait RoutingModel {
    /// The latency of a gate on `qubits` given the position index.
    spec fn latency_spec(&self, qubits: Seq<QubitId>, positions: Seq<(u32, u32)>) -> u32;

    /// Latency of a gate acting on `qubits`, where `positions[q]` is the grid
    /// position `(row, col)` of qubit `q`.
    fn latency(&self, qubits: &[QubitId], positions: &[(u32, u32)]) -> (r: u32)
        ensures
            r == self.latency_spec(qubits@, positions@),
    ;
}

/// Fixed overhead per multi-qubit gate. Ignores topology.
pub struct ScalarRouting {
    pub overhead_cycles: u32,
}

impl RoutingModel for ScalarRouting {
    open spec fn latency_spec(&self, qubits: Seq<QubitId>, positions: Seq<(u32, u32)>) -> u32 {
        scalar_latency(self.overhead_cycles, qubits)
    }

    fn latency(&self, qubits: &[QubitId], positions: &[(u32, u32)]) -> (r: u32) {
        if qubits.len() < 2 {
            0
        } else {
            self.overhead_cycles
        }
    }
}

/// Manhattan distance on a logical qubit grid.
pub struct ManhattanRouting {
    pub cycles_per_hop: u32,
}

fn saturating_abs_sum(a1: u32, b1: u32, a2: u32, b2: u32) -> (r: u32)
    ensures
        r == saturate_u32(abs_diff(a1, b1) + abs_diff(a2, b2)),
{
    let d1: u64 = if a1 >= b1 { (a1 - b1) as u64 } else { (b1 - a1) as u64 };
    let d2: u64 = if a2 >= b2 { (a2 - b2) as u64 } else { (b2 - a2) as u64 };
    let s: u64 = d1 + d2;
    if s > u32::MAX as u64 {
        u32::MAX
    } else {
        s as u32
    }
}

fn saturating_mul_u32(a: u32, b: u32) -> (r: u32)
    ensures
        r == saturate_u32(a * b),
{
    assert(a * b <= u32::MAX * u32::MAX) by (nonlinear_arith)
        requires
            a <= u32::MAX,
            b <= u32::MAX,
    {
    }
    let p: u64 = (a as u64) * (b as u64);
    if p > u32::MAX as u64 {
        u32::MAX
    } else {
        p as u32
    }
}

impl RoutingModel for ManhattanRouting {
    open spec fn latency_spec(&self, qubits: Seq<QubitId>, positions: Seq<(u32, u32)>) -> u32 {
        manhattan_latency(self.cycles_per_hop, qubits, positions)
    }

    fn latency(&self, qubits: &[QubitId], positions: &[(u32, u32)]) -> (r: u32) {
        if qubits.len() < 2 {
            return 0;
        }
        let qa = qubits[0] as usize;
        let qb = qubits[1] as usize;
        if qa >= positions.len() || qb >= positions.len() {
            return 0;
        }
        let (ra, ca) = positions[qa];
        let (rb, cb) = positions[qb];
        let dist = saturating_abs_sum(ra, rb, ca, cb);
        saturating_mul_u32(dist, self.cycles_per_hop)
    }
}

/// The position index that `positions` describe for `qubit_count` qubits:
/// every qubit at `(0, 0)` unless a later entry of `positions` names it.
pub open spec fn position_index_spec(positions: Seq<GridPosition>, qubit_count: u32) -> Seq<
    (u32, u32),
>
    decreases positions.len(),
{
    if positions.len() == 0 {
        Seq::new(qubit_count as nat, |i: int| (0u32, 0u32))
    } else {
        let rest = position_index_spec(positions.drop_last(), qubit_count);
        let p = positions.last();
        if (p.qubit as int) < qubit_count as int {
            rest.update(p.qubit as int, (p.row, p.col))
        } else {
            rest
        }
    }
}

/// Build a flat position index, `qubit_id -> (row, col)`, sized to
/// `qubit_count`. Qubits without a position sit at `(0, 0)`; entries naming a
/// qubit outside the range are ignored; a later entry for a qubit wins.
pub fn build_position_index(positions: &[GridPosition], qubit_count: u32) -> (idx: Vec<(u32, u32)>)
    ensures
        idx@ == position_index_spec(positions@, qubit_count),
        idx@.len() == qubit_count,
{
    let n = qubit_count as usize;
    let mut idx: Vec<(u32, u32)> = Vec::with_capacity(n);
    let mut k: usize = 0;
    while k < n
        invariant
            k <= n,
            n == qubit_count,
            idx@ == Seq::new(k as nat, |i: int| (0u32, 0u32)),
        decreases n - k,
    {
        idx.push((0u32, 0u32));
        k += 1;
        proof {
            assert(idx@ =~= Seq::new(k as nat, |i: int| (0u32, 0u32)));
        }
    }
    proof {
        assert(positions@.subrange(0, 0) =~= Seq::<GridPosition>::empty());
    }
    let mut j: usize = 0;
    while j < positions.len()
        invariant
            j <= positions@.len(),
            n == qubit_count,
            idx@ == position_index_spec(positions@.subrange(0, j as int), qubit_count),
            idx@.len() == qubit_count,
        decreases positions@.len() - j,
    {
        let pos = positions[j];
        proof {
            assert(positions@.subrange(0, j as int + 1).drop_last() =~= positions@.subrange(
                0,
                j as int,
            ));
            lemma_position_index_len(positions@.subrange(0, j as int), qubit_count);
        }
        if (pos.qubit as usize) < idx.len() {
            idx.set(pos.qubit as usize, (pos.row, pos.col));
        }
        j += 1;
    }
    proof {
        assert(positions@.subrange(0, positions@.len() as int) =~= positions@);
    }
    idx
}

proof fn lemma_position_index_len(positions: Seq<GridPosition>, qubit_count: u32)
    ensures
        position_index_spec(positions, qubit_count).len() == qubit_count,
    decreases positions.len(),
{
    if positions.len() > 0 {
        lemma_position_index_len(positions.drop_last(), qubit_count);
    }
}

/// Enum dispatch over the routing models.
pub enum RoutingKind {
    Scalar(ScalarRouting),
    Manhattan(ManhattanRouting),
}

impl RoutingModel for RoutingKind {
    open spec fn latency_spec(&self, qubits: Seq<QubitId>, positions: Seq<(u32, u32)>) -> u32 {
        match self {
            RoutingKind::Scalar(r) => scalar_latency(r.overhead_cycles, qubits),
            RoutingKind::Manhattan(r) => manhattan_latency(r.cycles_per_hop, qubits, positions),
        }
    }

    fn latency(&self, qubits: &[QubitId], positions: &[(u32, u32)]) -> (r: u32) {
        match self {
            RoutingKind::Scalar(r) => r.latency(qubits, positions),
            RoutingKind::Manhattan(r) => r.latency(qubits, positions),
        }
    }
}

} // verus!
