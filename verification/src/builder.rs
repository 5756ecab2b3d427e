//! Building a profiler circuit gate by gate, as the framework adapters do:
//! each gate depends on the previous gate on each of its qubits.

use std::collections::HashMap;

use vstd::prelude::*;

use crate::circuit::CircuitMetadata;
use crate::circuit::Dependency;
use crate::circuit::OpKind;
use crate::circuit::Operation;
use crate::circuit::ProfilerCircuit;
use crate::circuit::QubitId;
use crate::validate::validate;
use crate::validate::validation_result;
use crate::validate::ValidatedCircuit;
use crate::validate::ValidationError;

verus! {

broadcast use vstd::std_specs::hash::group_hash_axioms;

// ── Qubit registry ──────────────────────────────────────────────────────────

/// Why a qubit reference cannot be resolved.
#[derive(Debug, Clone, Copy, PartialEq, Eq, Structural)]
pub enum QubitResolveError {
    /// The register was never declared.
    Unresolved,
    /// The index lies beyond the register.
    IndexOutOfBounds { index: u32, size: u32 },
    /// A register of several qubits is named without an index.
    BareMultiQubitRegister,
}

/// Declared qubit registers, numbered consecutively from zero. Registers
/// are named by symbol numbers.
pub struct QubitRegistry {
    qubit_count: u32,
    symbols: HashMap<u64, (QubitId, u32)>,
}

impl QubitRegistry {
    /// Qubits declared so far (saturating).
    pub closed spec fn count_spec(&self) -> u32 {
        self.qubit_count
    }

    /// The registers: symbol to `(first qubit, size)`.
    pub closed spec fn registers(&self) -> Map<u64, (QubitId, u32)> {
        self.symbols@
    }

    /// An empty registry.
    pub fn new() -> (r: Self)
        ensures
            r.count_spec() == 0,
            r.registers() == Map::<u64, (QubitId, u32)>::empty(),
    {
        QubitRegistry { qubit_count: 0, symbols: HashMap::new() }
    }

    /// Qubits declared so far.
    pub fn qubit_count(&self) -> (n: u32)
        ensures
            n == self.count_spec(),
    {
        self.qubit_count
    }

    /// Declare register `sym` of `count` qubits after those declared so far.
    pub fn register(&mut self, sym: u64, count: u32)
        ensures
            final(self).registers() == old(self).registers().insert(sym, (old(self).count_spec(), count)),
            final(self).count_spec() == (if old(self).count_spec() + count > u32::MAX {
                u32::MAX as int
            } else {
                old(self).count_spec() + count
            }),
    {
        let start = self.qubit_count;
        self.symbols.insert(sym, (start, count));
        self.qubit_count = self.qubit_count.saturating_add(count);
    }

    /// The qubit that `sym`, indexed by `index` if given, refers to.
    pub fn resolve(&self, sym: u64, index: Option<u32>) -> (r: Result<QubitId, QubitResolveError>)
        ensures
            !self.registers().contains_key(sym) ==> r == Err::<QubitId, QubitResolveError>(QubitResolveError::Unresolved),
            self.registers().contains_key(sym) ==> {
                let (start, count) = self.registers()[sym];
                r == match index {
                    Some(i) => if i < count {
                        Ok::<QubitId, QubitResolveError>(((start + i) % 0x1_0000_0000) as u32)
                    } else {
                        Err(QubitResolveError::IndexOutOfBounds { index: i, size: count })
                    },
                    None => if count == 1 {
                        Ok(start)
                    } else {
                        Err(QubitResolveError::BareMultiQubitRegister)
                    },
                }
            },
    {
        let (start, count) = match self.symbols.get(&sym) {
            Some(v) => *v,
            None => {
                return Err(QubitResolveError::Unresolved);
            },
        };
        match index {
            Some(i) => if i < count {
                Ok(start.wrapping_add(i))
            } else {
                Err(QubitResolveError::IndexOutOfBounds { index: i, size: count })
            },
            None => if count == 1 {
                Ok(start)
            } else {
                Err(QubitResolveError::BareMultiQubitRegister)
            },
        }
    }
}


// ── Circuit builder ─────────────────────────────────────────────────────────

/// Linking a gate `id` on `qubits`: for each qubit in range, in order, a
/// dependency from the last gate on it, if any, then `id` becomes its last
/// gate. Gives the new last gates and the dependencies added.
pub open spec fn link(last: Seq<Option<u64>>, qubits: Seq<QubitId>, id: u64) -> (Seq<Option<u64>>, Seq<Dependency>)
    decreases qubits.len(),
{
    if qubits.len() == 0 {
        (last, Seq::empty())
    } else {
        let prev = link(last, qubits.drop_last(), id);
        let q = qubits.last() as int;
        if q < prev.0.len() {
            let deps = match prev.0[q] {
                Some(from) => prev.1.push(Dependency { from, to: id }),
                None => prev.1,
            };
            (prev.0.update(q, Some(id)), deps)
        } else {
            prev
        }
    }
}

/// The largest depth among the qubits of `qubits` in range, zero if none.
pub open spec fn max_depth_on(depth: Seq<u64>, qubits: Seq<QubitId>) -> nat
    decreases qubits.len(),
{
    if qubits.len() == 0 {
        0
    } else {
        let m = max_depth_on(depth, qubits.drop_last());
        let q = qubits.last() as int;
        if q < depth.len() && depth[q] > m {
            depth[q] as nat
        } else {
            m
        }
    }
}

/// The largest entry of `s`, zero if none.
pub open spec fn max_of(s: Seq<u64>) -> nat
    decreases s.len(),
{
    if s.len() == 0 {
        0
    } else {
        let m = max_of(s.drop_last());
        if s.last() > m {
            s.last() as nat
        } else {
            m
        }
    }
}

/// `s` resized to `n` entries, new ones `fill`.
pub open spec fn resized<A>(s: Seq<A>, n: nat, fill: A) -> Seq<A> {
    if n <= s.len() {
        s.take(n as int)
    } else {
        s + Seq::new((n - s.len()) as nat, |i: int| fill)
    }
}

/// Accumulates operations, dependencies, per-qubit depth and gate counts.
pub struct CircuitBuilder {
    qubit_count: u32,
    ops: Vec<Operation>,
    deps: Vec<Dependency>,
    last_on_qubit: Vec<Option<u64>>,
    next_id: u64,
    t_count: u64,
    clifford_count: u64,
    rotation_count: u64,
    depth_at_qubit: Vec<u64>,
}

impl CircuitBuilder {
    /// The operations so far; operation `i` has id `i`.
    pub closed spec fn ops_spec(&self) -> Seq<Operation> {
        self.ops@
    }

    /// The dependencies so far.
    pub closed spec fn deps_spec(&self) -> Seq<Dependency> {
        self.deps@
    }

    /// The last gate on each qubit.
    pub closed spec fn last_spec(&self) -> Seq<Option<u64>> {
        self.last_on_qubit@
    }

    /// The depth reached on each qubit.
    pub closed spec fn depth_spec(&self) -> Seq<u64> {
        self.depth_at_qubit@
    }

    /// The number of qubits.
    pub closed spec fn qubit_count_spec(&self) -> u32 {
        self.qubit_count
    }

    /// The T-gate, Clifford and rotation counts.
    pub closed spec fn counts_spec(&self) -> (u64, u64, u64) {
        (self.t_count, self.clifford_count, self.rotation_count)
    }

    /// What every builder keeps: ids are positions, every last gate and
    /// every dependency names an earlier or the same operation, depths and
    /// counts are bounded by the number of operations.
    pub closed spec fn inv(&self) -> bool {
        let n = self.ops@.len();
        &&& self.next_id == n
        &&& forall|i: int| 0 <= i < n ==> (#[trigger] self.ops@[i]).id == i
        &&& forall|i: int| 0 <= i < n ==> (#[trigger] self.ops@[i]).initially_active
        &&& forall|q: int|
            0 <= q < self.last_on_qubit@.len() ==> ((#[trigger] self.last_on_qubit@[q]) matches Some(x) ==> x < n)
        &&& forall|d: int|
            0 <= d < self.deps@.len() ==> (#[trigger] self.deps@[d]).from <= self.deps@[d].to && self.deps@[d].to < n
        &&& forall|q: int| 0 <= q < self.depth_at_qubit@.len() ==> #[trigger] self.depth_at_qubit@[q] <= n
        &&& self.t_count + self.clifford_count + self.rotation_count <= n
        &&& self.depth_at_qubit@.len() == self.qubit_count
        &&& self.last_on_qubit@.len() == self.qubit_count
    }

    /// A builder for `qubit_count` qubits and no operation.
    pub fn new(qubit_count: u32) -> (b: Self)
        ensures
            b.inv(),
            b.ops_spec() == Seq::<Operation>::empty(),
            b.deps_spec() == Seq::<Dependency>::empty(),
            b.last_spec() == Seq::new(qubit_count as nat, |i: int| None::<u64>),
            b.depth_spec() == Seq::new(qubit_count as nat, |i: int| 0u64),
            b.qubit_count_spec() == qubit_count,
            b.counts_spec() == (0u64, 0u64, 0u64),
            b.model() == initial_model(qubit_count),
    {
        let mut b = CircuitBuilder {
            qubit_count: 0,
            ops: Vec::new(),
            deps: Vec::new(),
            last_on_qubit: Vec::new(),
            next_id: 0,
            t_count: 0,
            clifford_count: 0,
            rotation_count: 0,
            depth_at_qubit: Vec::new(),
        };
        b.set_qubit_count(qubit_count);
        proof {
            assert(b.last_on_qubit@ =~= Seq::new(qubit_count as nat, |i: int| None::<u64>));
            assert(b.depth_at_qubit@ =~= Seq::new(qubit_count as nat, |i: int| 0u64));
            assert(b.model().ops =~= Seq::<(OpKind, Seq<QubitId>)>::empty());
        }
        b
    }

    /// Set the number of qubits: the per-qubit state is resized, new qubits
    /// having no last gate and depth zero.
    pub fn set_qubit_count(&mut self, qubit_count: u32)
        requires
            old(self).inv(),
        ensures
            final(self).inv(),
            final(self).qubit_count_spec() == qubit_count,
            final(self).last_spec() == resized(old(self).last_spec(), qubit_count as nat, None),
            final(self).depth_spec() == resized(old(self).depth_spec(), qubit_count as nat, 0u64),
            final(self).ops_spec() == old(self).ops_spec(),
            final(self).deps_spec() == old(self).deps_spec(),
            final(self).counts_spec() == old(self).counts_spec(),
            final(self).model() == set_count_model(old(self).model(), qubit_count),
    {
        let n = qubit_count as usize;
        self.qubit_count = qubit_count;
        resize_last(&mut self.last_on_qubit, n);
        resize_depth(&mut self.depth_at_qubit, n);
        proof {
            assert(self.model().ops =~= old(self).model().ops);
        }
    }
}


fn resize_last(v: &mut Vec<Option<u64>>, n: usize)
    ensures
        final(v)@ == resized(old(v)@, n as nat, None),
{
    if n <= v.len() {
        v.truncate(n);
    } else {
        let ghost l0 = v@;
        while v.len() < n
            invariant
                l0.len() <= v@.len() <= n,
                v@ == l0 + Seq::new((v@.len() - l0.len()) as nat, |i: int| None::<u64>),
            decreases n - v@.len(),
        {
            v.push(None);
            proof {
                assert(v@ =~= l0 + Seq::new((v@.len() - l0.len()) as nat, |i: int| None::<u64>));
            }
        }
    }
}

fn resize_depth(v: &mut Vec<u64>, n: usize)
    ensures
        final(v)@ == resized(old(v)@, n as nat, 0u64),
{
    if n <= v.len() {
        v.truncate(n);
    } else {
        let ghost d0 = v@;
        while v.len() < n
            invariant
                d0.len() <= v@.len() <= n,
                v@ == d0 + Seq::new((v@.len() - d0.len()) as nat, |i: int| 0u64),
            decreases n - v@.len(),
        {
            v.push(0);
            proof {
                assert(v@ =~= d0 + Seq::new((v@.len() - d0.len()) as nat, |i: int| 0u64));
            }
        }
    }
}


/// The counts after adding a gate of kind `k`.
pub open spec fn counted(c: (u64, u64, u64), k: OpKind) -> (int, int, int) {
    match k {
        OpKind::TGate => (c.0 + 1, c.1 as int, c.2 as int),
        OpKind::Clifford => (c.0 as int, c.1 + 1, c.2 as int),
        OpKind::Rotation { .. } => (c.0 as int, c.1 as int, c.2 + 1),
        OpKind::Measurement { .. } => (c.0 as int, c.1 as int, c.2 as int),
    }
}

proof fn lemma_link_shape(last: Seq<Option<u64>>, qubits: Seq<QubitId>, id: u64)
    requires
        forall|q: int| 0 <= q < last.len() ==> ((#[trigger] last[q]) matches Some(x) ==> x < id),
    ensures
        link(last, qubits, id).0.len() == last.len(),
        forall|q: int|
            0 <= q < last.len() ==> ((#[trigger] link(last, qubits, id).0[q]) matches Some(x) ==> x <= id),
        forall|d: int|
            0 <= d < link(last, qubits, id).1.len() ==> (#[trigger] link(last, qubits, id).1[d]).from <= id
                && link(last, qubits, id).1[d].to == id,
    decreases qubits.len(),
{
    if qubits.len() > 0 {
        lemma_link_shape(last, qubits.drop_last(), id);
        let prev = link(last, qubits.drop_last(), id);
        let cur = link(last, qubits, id);
        let q = qubits.last() as int;
        if q < prev.0.len() {
            assert forall|d: int| 0 <= d < cur.1.len() implies (#[trigger] cur.1[d]).from <= id && cur.1[d].to == id by {
                if d < prev.1.len() {
                    assert(cur.1[d] == prev.1[d]);
                }
            }
        }
    }
}

proof fn lemma_max_depth_bound(depth: Seq<u64>, qubits: Seq<QubitId>, n: nat)
    requires
        forall|q: int| 0 <= q < depth.len() ==> #[trigger] depth[q] <= n,
    ensures
        max_depth_on(depth, qubits) <= n,
    decreases qubits.len(),
{
    if qubits.len() > 0 {
        lemma_max_depth_bound(depth, qubits.drop_last(), n);
    }
}

/// The abstract state of a builder: each operation's kind and qubits (its
/// id is its position), the dependencies, the last gate and depth of each
/// qubit, the qubit count and the T-gate, Clifford and rotation counts.
pub struct BuilderModel {
    pub ops: Seq<(OpKind, Seq<QubitId>)>,
    pub deps: Seq<Dependency>,
    pub last: Seq<Option<u64>>,
    pub depth: Seq<u64>,
    pub qubit_count: u32,
    pub counts: (u64, u64, u64),
}

/// The state of a new builder for `qubit_count` qubits.
pub open spec fn initial_model(qubit_count: u32) -> BuilderModel {
    BuilderModel {
        ops: Seq::empty(),
        deps: Seq::empty(),
        last: Seq::new(qubit_count as nat, |i: int| None::<u64>),
        depth: Seq::new(qubit_count as nat, |i: int| 0u64),
        qubit_count,
        counts: (0u64, 0u64, 0u64),
    }
}

/// `c` is the circuit of state `m` with the given name and framework:
/// operation `i` has id `i`, the kind and qubits of the state's `i`-th
/// operation and is active; the dependencies are the state's; no positions
/// and no hooks; metadata from the counts and the largest qubit depth.
pub open spec fn model_built(m: BuilderModel, c: ProfilerCircuit, name: Seq<char>, framework: Seq<char>) -> bool {
    &&& c.ops@.len() == m.ops.len()
    &&& forall|i: int|
        0 <= i < m.ops.len() ==> {
            &&& (#[trigger] c.ops@[i]).id == i
            &&& c.ops@[i].kind == m.ops[i].0
            &&& c.ops@[i].qubits@ == m.ops[i].1
            &&& c.ops@[i].initially_active
        }
    &&& c.deps@ == m.deps
    &&& c.qubit_count == m.qubit_count
    &&& c.qubit_positions is None
    &&& c.hooks@.len() == 0
    &&& c.metadata.name@ == name
    &&& c.metadata.source_framework@ == framework
    &&& c.metadata.t_count == m.counts.0
    &&& c.metadata.clifford_count == m.counts.1
    &&& c.metadata.rotation_count == m.counts.2
    &&& c.metadata.depth == max_of(m.depth)
}

/// The state after setting the qubit count to `n`.
pub open spec fn set_count_model(m: BuilderModel, n: u32) -> BuilderModel {
    BuilderModel {
        last: resized(m.last, n as nat, None),
        depth: resized(m.depth, n as nat, 0u64),
        qubit_count: n,
        ..m
    }
}

/// The counts after adding a gate of kind `k`, wrapping.
pub open spec fn counted_u64(c: (u64, u64, u64), k: OpKind) -> (u64, u64, u64) {
    let r = counted(c, k);
    (r.0 as u64, r.1 as u64, r.2 as u64)
}

/// The state after emitting a gate of kind `kind` on `qubits`.
pub open spec fn emit_model(m: BuilderModel, kind: OpKind, qubits: Seq<QubitId>) -> BuilderModel {
    let id = m.ops.len() as u64;
    let l = link(m.last, qubits, id);
    let d = max_depth_on(m.depth, qubits) + 1;
    BuilderModel {
        ops: m.ops.push((kind, qubits)),
        deps: m.deps + l.1,
        last: l.0,
        depth: Seq::new(
            m.depth.len(),
            |q: int|
                if qubits.contains(q as QubitId) {
                    d as u64
                } else {
                    m.depth[q]
                },
        ),
        qubit_count: m.qubit_count,
        counts: counted_u64(m.counts, kind),
    }
}

impl CircuitBuilder {
    /// The abstract state.
    pub closed spec fn model(&self) -> BuilderModel {
        BuilderModel {
            ops: Seq::new(self.ops@.len(), |i: int| (self.ops@[i].kind, self.ops@[i].qubits@)),
            deps: self.deps@,
            last: self.last_on_qubit@,
            depth: self.depth_at_qubit@,
            qubit_count: self.qubit_count,
            counts: (self.t_count, self.clifford_count, self.rotation_count),
        }
    }
}

impl CircuitBuilder {
    /// Append a gate of kind `kind` on `qubits`, with the next id. For each
    /// of its qubits in order, it depends on the previous gate on that qubit
    /// and becomes the qubit's last gate; its depth is one more than the
    /// largest depth among its qubits, and those qubits take that depth.
    /// Qubits beyond the qubit count are carried on the operation but take
    /// no part in dependencies or depth.
    pub fn emit_operation(&mut self, kind: OpKind, qubits: &[QubitId])
        requires
            old(self).inv(),
        ensures
            final(self).inv(),
            final(self).ops_spec().len() == old(self).ops_spec().len() + 1,
            final(self).ops_spec().drop_last() == old(self).ops_spec(),
            final(self).ops_spec().last().id == old(self).ops_spec().len(),
            final(self).ops_spec().last().kind == kind,
            final(self).ops_spec().last().qubits@ == qubits@,
            final(self).ops_spec().last().initially_active,
            final(self).last_spec() == link(old(self).last_spec(), qubits@, old(self).ops_spec().len() as u64).0,
            final(self).deps_spec() == old(self).deps_spec() + link(
                old(self).last_spec(),
                qubits@,
                old(self).ops_spec().len() as u64,
            ).1,
            final(self).depth_spec().len() == old(self).depth_spec().len(),
            forall|q: int|
                0 <= q < old(self).depth_spec().len() ==> #[trigger] final(self).depth_spec()[q] == if qubits@.contains(
                    q as QubitId,
                ) {
                    (max_depth_on(old(self).depth_spec(), qubits@) + 1) as int
                } else {
                    old(self).depth_spec()[q] as int
                },
            final(self).qubit_count_spec() == old(self).qubit_count_spec(),
            final(self).counts_spec().0 == counted(old(self).counts_spec(), kind).0,
            final(self).counts_spec().1 == counted(old(self).counts_spec(), kind).1,
            final(self).counts_spec().2 == counted(old(self).counts_spec(), kind).2,
            final(self).model() == emit_model(old(self).model(), kind, qubits@),
    {
        let id = self.next_id;
        let ghost n = self.ops@.len();
        let ghost last0 = self.last_on_qubit@;
        let ghost deps0 = self.deps@;
        let ghost depth0 = self.depth_at_qubit@;
        let mut qv: Vec<QubitId> = Vec::with_capacity(qubits.len());
        let mut k: usize = 0;
        while k < qubits.len()
            invariant
                k <= qubits@.len(),
                qv@ == qubits@.take(k as int),
            decreases qubits@.len() - k,
        {
            qv.push(qubits[k]);
            k += 1;
            proof {
                assert(qv@ =~= qubits@.take(k as int));
            }
        }
        proof {
            assert(qubits@.take(qubits@.len() as int) =~= qubits@);
        }
        self.ops.push(Operation { id, kind, qubits: qv, initially_active: true });
        let ghost ops1 = self.ops@;
        proof {
            lemma_link_shape(last0, qubits@, id);
            assert(qubits@.take(0) =~= Seq::<QubitId>::empty());
        }
        let mut i: usize = 0;
        while i < qubits.len()
            invariant
                self.ops@ == ops1,
                self.next_id == id,
                self.t_count == old(self).t_count,
                self.clifford_count == old(self).clifford_count,
                self.rotation_count == old(self).rotation_count,
                self.qubit_count == old(self).qubit_count,
                self.depth_at_qubit@ == depth0,
                i <= qubits@.len(),
                id == n,
                forall|q: int| 0 <= q < last0.len() ==> ((#[trigger] last0[q]) matches Some(x) ==> x < id),
                self.last_on_qubit@ == link(last0, qubits@.take(i as int), id).0,
                self.deps@ == deps0 + link(last0, qubits@.take(i as int), id).1,
                last0.len() == link(last0, qubits@.take(i as int), id).0.len(),
            decreases qubits@.len() - i,
        {
            let q = qubits[i] as usize;
            proof {
                assert(qubits@.take(i as int + 1).drop_last() =~= qubits@.take(i as int));
                lemma_link_shape(last0, qubits@.take(i as int + 1), id);
            }
            if q < self.last_on_qubit.len() {
                match self.last_on_qubit[q] {
                    Some(prev_id) => {
                        self.deps.push(Dependency { from: prev_id, to: id });
                    },
                    None => {},
                }
                self.last_on_qubit.set(q, Some(id));
            }
            proof {
                assert(self.deps@ =~= deps0 + link(last0, qubits@.take(i as int + 1), id).1);
            }
            i += 1;
        }
        proof {
            lemma_max_depth_bound(depth0, qubits@, n);
        }
        let mut m: u64 = 0;
        let mut j: usize = 0;
        while j < qubits.len()
            invariant
                self.ops@ == ops1,
                self.next_id == id,
                self.t_count == old(self).t_count,
                self.clifford_count == old(self).clifford_count,
                self.rotation_count == old(self).rotation_count,
                self.qubit_count == old(self).qubit_count,
                self.last_on_qubit@ == link(last0, qubits@, id).0,
                self.deps@ == deps0 + link(last0, qubits@, id).1,
                j <= qubits@.len(),
                self.depth_at_qubit@ == depth0,
                m == max_depth_on(depth0, qubits@.take(j as int)),
                forall|q: int| 0 <= q < depth0.len() ==> #[trigger] depth0[q] <= n,
            decreases qubits@.len() - j,
        {
            let q = qubits[j] as usize;
            proof {
                assert(qubits@.take(j as int + 1).drop_last() =~= qubits@.take(j as int));
            }
            if q < self.depth_at_qubit.len() && self.depth_at_qubit[q] > m {
                m = self.depth_at_qubit[q];
            }
            j += 1;
        }
        proof {
            assert(m <= n);
            assert(self.ops@.len() == n + 1);
            assert(self.ops.len() == self.ops@.len());
        }
        let op_depth = m + 1;
        let mut j: usize = 0;
        while j < qubits.len()
            invariant
                self.ops@ == ops1,
                self.next_id == id,
                self.t_count == old(self).t_count,
                self.clifford_count == old(self).clifford_count,
                self.rotation_count == old(self).rotation_count,
                self.qubit_count == old(self).qubit_count,
                self.last_on_qubit@ == link(last0, qubits@, id).0,
                self.deps@ == deps0 + link(last0, qubits@, id).1,
                j <= qubits@.len(),
                self.depth_at_qubit@.len() == depth0.len(),
                depth0.len() <= u32::MAX,
                op_depth == max_depth_on(depth0, qubits@) + 1,
                forall|q: int|
                    0 <= q < depth0.len() ==> #[trigger] self.depth_at_qubit@[q] == if qubits@.take(j as int).contains(
                        q as QubitId,
                    ) {
                        op_depth as int
                    } else {
                        depth0[q] as int
                    },
            decreases qubits@.len() - j,
        {
            let q = qubits[j] as usize;
            if q < self.depth_at_qubit.len() {
                self.depth_at_qubit.set(q, op_depth);
            }
            proof {
                let tk = qubits@.take(j as int + 1);
                let pre = qubits@.take(j as int);
                assert(tk =~= pre.push(qubits@[j as int]));
                assert forall|r: int| 0 <= r < depth0.len() implies #[trigger] tk.contains(r as QubitId) == (pre.contains(
                    r as QubitId,
                ) || r as QubitId == qubits@[j as int]) by {
                    if pre.contains(r as QubitId) {
                        let w = choose|w: int| 0 <= w < pre.len() && pre[w] == r as QubitId;
                        assert(tk[w] == r as QubitId);
                    }
                    if tk.contains(r as QubitId) {
                        let w = choose|w: int| 0 <= w < tk.len() && tk[w] == r as QubitId;
                        if w < j {
                            assert(pre[w] == r as QubitId);
                        }
                    }
                    if r as QubitId == qubits@[j as int] {
                        assert(tk[j as int] == r as QubitId);
                    }
                }
            }
            j += 1;
        }
        proof {
            assert(qubits@.take(qubits@.len() as int) =~= qubits@);
        }
        match kind {
            OpKind::TGate => {
                self.t_count = self.t_count + 1;
            },
            OpKind::Clifford => {
                self.clifford_count = self.clifford_count + 1;
            },
            OpKind::Rotation { .. } => {
                self.rotation_count = self.rotation_count + 1;
            },
            OpKind::Measurement { .. } => {},
        }
        self.next_id = id + 1;
        proof {
            let l = link(last0, qubits@, id);
            assert forall|d: int| 0 <= d < self.deps@.len() implies (#[trigger] self.deps@[d]).from <= self.deps@[d].to
                && self.deps@[d].to < n + 1 by {
                if d >= deps0.len() {
                    assert(self.deps@[d] == l.1[d - deps0.len()]);
                }
            }
            assert forall|q: int| 0 <= q < self.last_on_qubit@.len() implies ((#[trigger] self.last_on_qubit@[q]) matches Some(
                x,
            ) ==> x < n + 1) by {
                assert(l.0[q] matches Some(x) ==> x <= id);
            }
            assert forall|i: int| 0 <= i < n + 1 implies (#[trigger] self.ops@[i]).id == i by {
                if i < n {
                    assert(self.ops@[i] == self.ops@.drop_last()[i]);
                }
            }
            assert(self.ops@.drop_last() =~= old(self).ops@);
            let m0 = old(self).model();
            let m1 = emit_model(m0, kind, qubits@);
            assert(self.model().ops =~= m1.ops) by {
                assert forall|i: int| 0 <= i < n + 1 implies self.model().ops[i] == m1.ops[i] by {
                    if i < n {
                        assert(self.ops@[i] == old(self).ops@[i]);
                    }
                }
            }
            assert(self.model().depth =~= m1.depth);
        }
    }
}


impl CircuitBuilder {
    /// `c` is the circuit of this builder with the given name and framework:
    /// its operations and dependencies, no positions and no hooks, and
    /// metadata from the counts and the largest qubit depth.
    pub open spec fn built(&self, c: ProfilerCircuit, name: Seq<char>, framework: Seq<char>) -> bool {
        &&& c.ops@ == self.ops_spec()
        &&& c.deps@ == self.deps_spec()
        &&& c.qubit_count == self.qubit_count_spec()
        &&& c.qubit_positions is None
        &&& c.hooks@.len() == 0
        &&& c.metadata.name@ == name
        &&& c.metadata.source_framework@ == framework
        &&& c.metadata.t_count == self.counts_spec().0
        &&& c.metadata.clifford_count == self.counts_spec().1
        &&& c.metadata.rotation_count == self.counts_spec().2
        &&& c.metadata.depth == max_of(self.depth_spec())
    }

    /// The circuit built so far, with the given name and framework.
    pub fn into_circuit(self, name: String, framework: String) -> (c: ProfilerCircuit)
        requires
            self.inv(),
        ensures
            self.built(c, name@, framework@),
    {
        let mut max_depth: u64 = 0;
        let mut i: usize = 0;
        while i < self.depth_at_qubit.len()
            invariant
                i <= self.depth_at_qubit@.len(),
                max_depth == max_of(self.depth_at_qubit@.take(i as int)),
            decreases self.depth_at_qubit@.len() - i,
        {
            proof {
                assert(self.depth_at_qubit@.take(i as int + 1).drop_last() =~= self.depth_at_qubit@.take(i as int));
            }
            if self.depth_at_qubit[i] > max_depth {
                max_depth = self.depth_at_qubit[i];
            }
            i += 1;
        }
        proof {
            assert(self.depth_at_qubit@.take(self.depth_at_qubit@.len() as int) =~= self.depth_at_qubit@);
        }
        ProfilerCircuit {
            ops: self.ops,
            deps: self.deps,
            qubit_count: self.qubit_count,
            qubit_positions: None,
            hooks: Vec::new(),
            metadata: CircuitMetadata {
                name,
                source_framework: framework,
                t_count: self.t_count,
                clifford_count: self.clifford_count,
                rotation_count: self.rotation_count,
                depth: max_depth,
            },
        }
    }

    /// Validate the circuit built so far, with the given name and framework.
    pub fn finish(self, name: String, framework: String) -> (r: Result<ValidatedCircuit, ValidationError>)
        requires
            self.inv(),
        ensures
            exists|c: ProfilerCircuit|
                #![trigger model_built(self.model(), c, name@, framework@)]
                model_built(self.model(), c, name@, framework@) && match r {
                    Ok(v) => validation_result(c) is Ok && v@ == c,
                    Err(e) => validation_result(c) == Err::<(), ValidationError>(e),
                },
    {
        let ghost b = self;
        let c = self.into_circuit(name, framework);
        let ghost cv = c;
        let r = validate(c);
        proof {
            assert(b.built(cv, name@, framework@));
            assert(model_built(b.model(), cv, name@, framework@));
        }
        r
    }
}

proof fn lemma_max_depth_on(depth: Seq<u64>, qubits: Seq<QubitId>)
    ensures
        forall|j: int|
            0 <= j < qubits.len() && (qubits[j] as int) < depth.len() ==> depth[qubits[j] as int] <= max_depth_on(
                depth,
                qubits,
            ),
        max_depth_on(depth, qubits) == 0 || exists|j: int|
            0 <= j < qubits.len() && (qubits[j] as int) < depth.len() && depth[qubits[j] as int] == max_depth_on(
                depth,
                qubits,
            ),
    decreases qubits.len(),
{
    if qubits.len() > 0 {
        let p = qubits.drop_last();
        lemma_max_depth_on(depth, p);
        assert forall|j: int|
            0 <= j < qubits.len() && (qubits[j] as int) < depth.len() implies depth[qubits[j] as int] <= max_depth_on(
            depth,
            qubits,
        ) by {
            if j < p.len() {
                assert(qubits[j] == p[j]);
            }
        }
        if max_depth_on(depth, qubits) != 0 {
            if max_depth_on(depth, qubits) == max_depth_on(depth, p) {
                let j = choose|j: int|
                    0 <= j < p.len() && (p[j] as int) < depth.len() && depth[p[j] as int] == max_depth_on(depth, p);
                assert(qubits[j] == p[j]);
            } else {
                assert(qubits[qubits.len() - 1] == qubits.last());
            }
        }
    }
}

proof fn lemma_max_of(s: Seq<u64>)
    ensures
        forall|i: int| 0 <= i < s.len() ==> s[i] <= max_of(s),
        max_of(s) == 0 || exists|i: int| 0 <= i < s.len() && s[i] == max_of(s),
    decreases s.len(),
{
    if s.len() > 0 {
        let p = s.drop_last();
        lemma_max_of(p);
        assert forall|i: int| 0 <= i < s.len() implies s[i] <= max_of(s) by {
            if i < p.len() {
                assert(s[i] == p[i]);
            }
        }
        if max_of(s) != 0 {
            if max_of(s) == max_of(p) {
                let i = choose|i: int| 0 <= i < p.len() && p[i] == max_of(p);
                assert(s[i] == p[i]);
            } else {
                assert(s[s.len() - 1] == s.last());
            }
        }
    }
}

/// Emitting a gate on `qubits` puts it one layer after the deepest of its
/// qubits: each of its qubits (in range) then has a depth greater than the
/// depth any of them had, and exactly one more than the deepest of them (or
/// one when none had depth); the other qubits keep theirs, and the
/// circuit's depth, the largest qubit depth, never decreases. Depths are
/// assumed below `u64::MAX`, and there is one depth per `u32` qubit index
/// at most.
pub proof fn law_emit_depth(m: BuilderModel, kind: OpKind, qubits: Seq<QubitId>)
    requires
        m.depth.len() <= u32::MAX,
        forall|q: int| 0 <= q < m.depth.len() ==> #[trigger] m.depth[q] < u64::MAX,
    ensures
        ({
            let n = emit_model(m, kind, qubits);
            &&& n.depth.len() == m.depth.len()
            &&& forall|j: int, k: int|
                0 <= j < qubits.len() && 0 <= k < qubits.len() && (qubits[j] as int) < m.depth.len() && (
                qubits[k] as int) < m.depth.len() ==> n.depth[qubits[j] as int] > m.depth[qubits[k] as int]
            &&& forall|j: int|
                0 <= j < qubits.len() && (qubits[j] as int) < m.depth.len() ==> (n.depth[qubits[j] as int] == 1
                    || exists|k: int|
                    0 <= k < qubits.len() && (qubits[k] as int) < m.depth.len() && n.depth[qubits[j] as int]
                        == m.depth[qubits[k] as int] + 1)
            &&& forall|q: int| 0 <= q < m.depth.len() && !qubits.contains(q as QubitId) ==> n.depth[q] == m.depth[q]
            &&& max_of(n.depth) >= max_of(m.depth)
        }),
{
    let n = emit_model(m, kind, qubits);
    lemma_max_depth_on(m.depth, qubits);
    let d = max_depth_on(m.depth, qubits);
    assert(d < u64::MAX) by {
        if d != 0 {
            let j = choose|j: int|
                0 <= j < qubits.len() && (qubits[j] as int) < m.depth.len() && m.depth[qubits[j] as int] == d;
            assert(m.depth[qubits[j] as int] < u64::MAX);
        }
    }
    assert forall|j: int| 0 <= j < qubits.len() && (qubits[j] as int) < m.depth.len() implies n.depth[qubits[j] as int]
        == d + 1 by {
        assert(qubits.contains(qubits[j]));
        assert(qubits[j] as int as QubitId == qubits[j]);
    }
    lemma_max_of(m.depth);
    lemma_max_of(n.depth);
    if max_of(m.depth) != 0 {
        let i = choose|i: int| 0 <= i < m.depth.len() && m.depth[i] == max_of(m.depth);
        if qubits.contains(i as QubitId) {
            let j = choose|j: int| 0 <= j < qubits.len() && qubits[j] == i as QubitId;
            assert(qubits[j] as int == i);
        }
        assert(n.depth[i] >= m.depth[i]);
    }
}

/// Linking gate `id` on `qubits` makes it the last gate of each of its
/// qubits (in range) and leaves the others alone; every dependency added
/// ends at `id`, and one runs from each qubit's previous last gate, if it
/// had one.
pub proof fn law_link(last: Seq<Option<u64>>, qubits: Seq<QubitId>, id: u64)
    requires
        last.len() <= u32::MAX,
    ensures
        ({
            let r = link(last, qubits, id);
            &&& r.0.len() == last.len()
            &&& forall|q: int|
                0 <= q < last.len() ==> r.0[q] == if qubits.contains(q as QubitId) {
                    Some(id)
                } else {
                    last[q]
                }
            &&& forall|i: int| 0 <= i < r.1.len() ==> (#[trigger] r.1[i]).to == id
            &&& forall|j: int|
                0 <= j < qubits.len() && (qubits[j] as int) < last.len() && last[qubits[j] as int] is Some && (forall|k: int|
                    0 <= k < j ==> qubits[k] != qubits[j]) ==> r.1.contains(
                    Dependency { from: last[qubits[j] as int]->0, to: id },
                )
        }),
    decreases qubits.len(),
{
    if qubits.len() > 0 {
        let p = qubits.drop_last();
        law_link(last, p, id);
        let prev = link(last, p, id);
        let r = link(last, qubits, id);
        let ql = qubits.last();
        assert forall|q: int| 0 <= q < last.len() implies r.0[q] == if qubits.contains(q as QubitId) {
            Some(id)
        } else {
            last[q]
        } by {
            assert(qubits.contains(q as QubitId) == (p.contains(q as QubitId) || ql == q as QubitId)) by {
                if qubits.contains(q as QubitId) {
                    let k = choose|k: int| 0 <= k < qubits.len() && qubits[k] == q as QubitId;
                    if k < p.len() {
                        assert(p[k] == qubits[k]);
                    }
                }
                if p.contains(q as QubitId) {
                    let k = choose|k: int| 0 <= k < p.len() && p[k] == q as QubitId;
                    assert(qubits[k] == p[k]);
                }
                assert(qubits[qubits.len() - 1] == ql);
            }
            assert((ql as int == q) == (ql == q as QubitId));
        }
        assert forall|j: int|
            0 <= j < qubits.len() && (qubits[j] as int) < last.len() && last[qubits[j] as int] is Some && (forall|k: int|
                0 <= k < j ==> qubits[k] != qubits[j]) implies r.1.contains(
            Dependency { from: last[qubits[j] as int]->0, to: id },
        ) by {
            if j < p.len() {
                assert(qubits[j] == p[j]);
                assert forall|k: int| 0 <= k < j implies p[k] != p[j] by {
                    assert(p[k] == qubits[k]);
                }
                let d = Dependency { from: last[qubits[j] as int]->0, to: id };
                assert(prev.1.contains(d));
                let w = choose|w: int| 0 <= w < prev.1.len() && prev.1[w] == d;
                if (ql as int) < prev.0.len() {
                    if prev.0[ql as int] is Some {
                        assert(r.1[w] == d);
                    }
                }
            } else {
                assert(qubits[j] == ql);
                assert(!p.contains(ql)) by {
                    if p.contains(ql) {
                        let k = choose|k: int| 0 <= k < p.len() && p[k] == ql;
                        assert(qubits[k] == p[k]);
                    }
                }
                assert(prev.0[ql as int] == last[ql as int]);
                assert(r.1[prev.1.len() as int] == Dependency { from: last[qubits[j] as int]->0, to: id });
            }
        }
        assert forall|i: int| 0 <= i < r.1.len() implies (#[trigger] r.1[i]).to == id by {
            if i < prev.1.len() {
                if (ql as int) < prev.0.len() {
                    if prev.0[ql as int] is Some {
                        assert(r.1[i] == prev.1[i]);
                    }
                }
            }
        }
    }
}

} // verus!
