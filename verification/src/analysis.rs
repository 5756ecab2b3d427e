//! Post-hoc trace analysis: a single pass over the trace events into a
//! time-bucketed profile.
//!
//! The profile holds counts; the floating-point figures (factory
//! utilization as a fraction, infidelity) are derived from them by the
//! caller.

use std::collections::HashMap;

use vstd::prelude::*;

use crate::trace::Trace;
use crate::trace::TraceEvent;
use crate::trace::TraceEventKind;

verus! {

broadcast use vstd::std_specs::hash::group_hash_axioms;

/// Per-bucket classification of the dominant execution bottleneck.
#[derive(Debug, Clone, Copy, PartialEq, Eq, Structural)]
pub enum BottleneckType {
    /// No contention: magic state supply meets demand.
    NoBottleneck,
    /// T-gates are waiting for magic states.
    FactoryThroughput,
    /// Both factory failures and gate stalls occurred in the same bucket.
    Balanced,
}

/// A single stall record: one gate that waited for a magic state.
#[derive(Debug, Clone, Copy, PartialEq, Eq, Structural)]
pub struct StallRecord {
    /// Cycle at which this gate was finally served.
    pub cycle: u64,
    /// Trace id of this gate.
    pub gate_id: u64,
    /// Cycles this gate spent waiting for a magic state.
    pub wait_cycles: u64,
}

/// Time-bucketed counts of a trace. Every per-bucket vector is indexed by
/// `cycle / resolution`, the last bucket taking every later cycle.
#[derive(Debug, Clone)]
pub struct ProfileCounts {
    /// Cycles per time bucket.
    pub resolution: u64,
    /// Total simulation cycles of the trace.
    pub total_cycles: u64,
    /// Per-bucket number of factories in active production.
    pub factory_active: Vec<u32>,
    /// Per-bucket buffer occupancy: the last value observed in the bucket.
    pub buffer_occupancy: Vec<u32>,
    /// Per-bucket bottleneck classification.
    pub bottleneck_type: Vec<BottleneckType>,
    /// The gates that waited for a magic state, in trace order.
    pub stall_events: Vec<StallRecord>,
    /// Number of injection errors.
    pub injection_errors: u64,
    /// Number of fixups inserted.
    pub fixups_inserted: u64,
    /// Sum of fixup durations: cycles added by injection errors.
    pub critical_path_extension: u64,
    /// Bit pattern of the logical error probability per consumed state.
    pub p_logical_bits: u64,
    /// Total magic states consumed, as the trace reports it.
    pub magic_states_consumed: u64,
    /// Per-bucket magic states consumed.
    pub magic_states_per_bucket: Vec<u64>,
}

/// Post-hoc trace analyzer. Stateless.
pub struct ProfileAnalyzer;

// ── The model ───────────────────────────────────────────────────────────────

/// The number of buckets for `total` cycles at resolution `res` (at least 1).
pub open spec fn num_buckets(total: u64, res: u64) -> nat {
    let q = total / res;
    let n = if q + 1 > u64::MAX {
        u64::MAX as int
    } else {
        q + 1
    };
    if n > usize::MAX {
        (usize::MAX / 2) as nat
    } else {
        n as nat
    }
}

/// The bucket of `cycle`: `cycle / res`, the last bucket taking the rest.
pub open spec fn bucket_of(cycle: u64, res: u64, nb: nat) -> int {
    let q = cycle / res;
    if q >= nb - 1 {
        nb - 1
    } else {
        q as int
    }
}

/// `x` clamped to `u64`.
pub open spec fn sat_u64(x: nat) -> u64 {
    if x > u64::MAX {
        u64::MAX
    } else {
        x as u64
    }
}

/// `x` clamped to `u32`.
pub open spec fn sat_u32(x: nat) -> u32 {
    if x > u32::MAX {
        u32::MAX
    } else {
        x as u32
    }
}

/// A gate served after waiting.
pub open spec fn is_stall(k: TraceEventKind) -> bool {
    k matches TraceEventKind::GateServed { wait, .. } && wait > 0
}

/// Events of `t` in bucket `b` satisfying `p`.
pub open spec fn count_in_bucket(
    t: Seq<TraceEvent>,
    p: spec_fn(TraceEventKind) -> bool,
    res: u64,
    nb: nat,
    b: int,
) -> nat
    decreases t.len(),
{
    if t.len() == 0 {
        0
    } else {
        count_in_bucket(t.drop_last(), p, res, nb, b) + if p(t.last().kind) && bucket_of(
            t.last().cycle,
            res,
            nb,
        ) == b {
            1nat
        } else {
            0nat
        }
    }
}

/// Events of `t` satisfying `p`.
pub open spec fn count_kind(t: Seq<TraceEvent>, p: spec_fn(TraceEventKind) -> bool) -> nat
    decreases t.len(),
{
    if t.len() == 0 {
        0
    } else {
        count_kind(t.drop_last(), p) + if p(t.last().kind) {
            1nat
        } else {
            0nat
        }
    }
}

/// The occupancy of the last buffer event of `t` in bucket `b`; zero if none.
pub open spec fn last_occupancy(t: Seq<TraceEvent>, res: u64, nb: nat, b: int) -> u32
    decreases t.len(),
{
    if t.len() == 0 {
        0
    } else {
        let e = t.last();
        match e.kind {
            TraceEventKind::BufferEnqueue { occupancy } => if bucket_of(e.cycle, res, nb) == b {
                occupancy
            } else {
                last_occupancy(t.drop_last(), res, nb, b)
            },
            TraceEventKind::BufferDequeue { occupancy } => if bucket_of(e.cycle, res, nb) == b {
                occupancy
            } else {
                last_occupancy(t.drop_last(), res, nb, b)
            },
            _ => last_occupancy(t.drop_last(), res, nb, b),
        }
    }
}

/// One stall record per gate served after waiting, in trace order.
pub open spec fn stall_records(t: Seq<TraceEvent>) -> Seq<StallRecord>
    decreases t.len(),
{
    if t.len() == 0 {
        Seq::empty()
    } else {
        let prev = stall_records(t.drop_last());
        let e = t.last();
        match e.kind {
            TraceEventKind::GateServed { gate, wait } => if wait > 0 {
                prev.push(StallRecord { cycle: e.cycle, gate_id: gate, wait_cycles: wait as u64 })
            } else {
                prev
            },
            _ => prev,
        }
    }
}

/// The cycle of the last start of factory `fid` in `t`.
pub open spec fn last_start(t: Seq<TraceEvent>, fid: u16) -> Option<u64>
    decreases t.len(),
{
    if t.len() == 0 {
        None
    } else {
        match t.last().kind {
            TraceEventKind::FactoryStarted { factory_id } => if factory_id == fid {
                Some(t.last().cycle)
            } else {
                last_start(t.drop_last(), fid)
            },
            _ => last_start(t.drop_last(), fid),
        }
    }
}

/// The factory an event ends a production attempt of.
pub open spec fn ended_factory(k: TraceEventKind) -> Option<u16> {
    match k {
        TraceEventKind::FactoryProduced { factory_id } => Some(factory_id),
        TraceEventKind::FactoryFailed { factory_id } => Some(factory_id),
        _ => None,
    }
}

/// The active intervals, as `(first bucket, last bucket)`, that the
/// production and failure events of `t` close: from the bucket of the last
/// start of that factory (one of the first `fc`) to the bucket of the event.
pub open spec fn closed_intervals(t: Seq<TraceEvent>, fc: nat, res: u64, nb: nat) -> Seq<(int, int)>
    decreases t.len(),
{
    if t.len() == 0 {
        Seq::empty()
    } else {
        let prev = closed_intervals(t.drop_last(), fc, res, nb);
        let e = t.last();
        match ended_factory(e.kind) {
            Some(fid) => if (fid as int) < fc && last_start(t.drop_last(), fid) is Some {
                prev.push(
                    (
                        bucket_of(last_start(t.drop_last(), fid)->0, res, nb),
                        bucket_of(e.cycle, res, nb),
                    ),
                )
            } else {
                prev
            },
            None => prev,
        }
    }
}

/// The intervals still open at the end: for each of the first `upto`
/// factories that ever started, from the bucket of its last start to `last_b`.
pub open spec fn open_intervals(t: Seq<TraceEvent>, upto: nat, res: u64, nb: nat, last_b: int) -> Seq<(int, int)>
    decreases upto,
{
    if upto == 0 {
        Seq::empty()
    } else {
        let prev = open_intervals(t, (upto - 1) as nat, res, nb, last_b);
        let fid = (upto - 1) as u16;
        match last_start(t, fid) {
            Some(s) => prev.push((bucket_of(s, res, nb), last_b)),
            None => prev,
        }
    }
}

/// Intervals starting at or before bucket `b`.
pub open spec fn started_by(ivs: Seq<(int, int)>, b: int) -> int
    decreases ivs.len(),
{
    if ivs.len() == 0 {
        0
    } else {
        started_by(ivs.drop_last(), b) + if ivs.last().0 <= b {
            1int
        } else {
            0int
        }
    }
}

/// Intervals ending before bucket `b`.
pub open spec fn ended_before(ivs: Seq<(int, int)>, b: int) -> int
    decreases ivs.len(),
{
    if ivs.len() == 0 {
        0
    } else {
        ended_before(ivs.drop_last(), b) + if ivs.last().1 < b {
            1int
        } else {
            0int
        }
    }
}

/// Intervals covering bucket `b`.
pub open spec fn covering(ivs: Seq<(int, int)>, b: int) -> int
    decreases ivs.len(),
{
    if ivs.len() == 0 {
        0
    } else {
        covering(ivs.drop_last(), b) + if ivs.last().0 <= b <= ivs.last().1 {
            1int
        } else {
            0int
        }
    }
}

/// The active count reported for a running total `r`.
pub open spec fn active_of(r: int) -> u32 {
    if r > 0 {
        r as u32
    } else {
        0
    }
}

/// The bottleneck of a bucket with `stalls` stalls and `failures` failures.
pub open spec fn bottleneck_of(stalls: u32, failures: u32) -> BottleneckType {
    if stalls > 0 && failures > 0 {
        BottleneckType::Balanced
    } else if stalls > 0 {
        BottleneckType::FactoryThroughput
    } else {
        BottleneckType::NoBottleneck
    }
}

/// Fixups inserted and not yet completed, with their insertion cycle, and the
/// running sum of completed fixup durations.
pub open spec fn fixup_scan(t: Seq<TraceEvent>) -> (Map<u64, u64>, nat)
    decreases t.len(),
{
    if t.len() == 0 {
        (Map::empty(), 0)
    } else {
        let prev = fixup_scan(t.drop_last());
        let e = t.last();
        match e.kind {
            TraceEventKind::FixupInserted { fixup, .. } => (prev.0.insert(fixup, e.cycle), prev.1),
            TraceEventKind::FixupCompleted { fixup } => if prev.0.contains_key(fixup) {
                let start = prev.0[fixup];
                (prev.0.remove(fixup), prev.1 + if e.cycle >= start {
                    (e.cycle - start) as nat
                } else {
                    0nat
                })
            } else {
                prev
            },
            _ => prev,
        }
    }
}


/// The number of intervals starting at bucket `k` less the number ending
/// just before it: the difference-array entry at `k`.
pub open spec fn delta_at(ivs: Seq<(int, int)>, k: int) -> int
    decreases ivs.len(),
{
    if ivs.len() == 0 {
        0
    } else {
        delta_at(ivs.drop_last(), k) + (if ivs.last().0 == k {
            1int
        } else {
            0int
        }) - (if ivs.last().1 + 1 == k {
            1int
        } else {
            0int
        })
    }
}

/// The running total of the difference array up to bucket `b`.
pub open spec fn prefix_delta(ivs: Seq<(int, int)>, b: int) -> int
    decreases b + 1,
{
    if b < 0 {
        0
    } else {
        prefix_delta(ivs, b - 1) + delta_at(ivs, b)
    }
}

/// Every interval lies in buckets `0..nb`.
pub open spec fn in_buckets(ivs: Seq<(int, int)>, nb: nat) -> bool {
    forall|j: int| 0 <= j < ivs.len() ==> 0 <= (#[trigger] ivs[j]).0 < nb && 0 <= ivs[j].1 < nb
}

proof fn lemma_step_counts(ivs: Seq<(int, int)>, b: int)
    requires
        forall|j: int| 0 <= j < ivs.len() ==> 0 <= (#[trigger] ivs[j]).0 && 0 <= ivs[j].1,
        b >= 0,
    ensures
        started_by(ivs, b) - ended_before(ivs, b) == started_by(ivs, b - 1) - ended_before(ivs, b - 1)
            + delta_at(ivs, b),
    decreases ivs.len(),
{
    if ivs.len() > 0 {
        lemma_step_counts(ivs.drop_last(), b);
    }
}

proof fn lemma_counts_before_zero(ivs: Seq<(int, int)>)
    requires
        forall|j: int| 0 <= j < ivs.len() ==> 0 <= (#[trigger] ivs[j]).0 && 0 <= ivs[j].1,
    ensures
        started_by(ivs, -1) == 0,
        ended_before(ivs, -1) == 0,
    decreases ivs.len(),
{
    if ivs.len() > 0 {
        lemma_counts_before_zero(ivs.drop_last());
    }
}

/// The running total of the difference array at `b` is the number of
/// intervals started by `b` less the number ended before it.
proof fn lemma_prefix_delta(ivs: Seq<(int, int)>, b: int)
    requires
        forall|j: int| 0 <= j < ivs.len() ==> 0 <= (#[trigger] ivs[j]).0 && 0 <= ivs[j].1,
        b >= -1,
    ensures
        prefix_delta(ivs, b) == started_by(ivs, b) - ended_before(ivs, b),
    decreases b + 1,
{
    if b < 0 {
        lemma_counts_before_zero(ivs);
    } else {
        lemma_prefix_delta(ivs, b - 1);
        lemma_step_counts(ivs, b);
    }
}

proof fn lemma_started_ended_covering(ivs: Seq<(int, int)>, b: int)
    requires
        forall|j: int| 0 <= j < ivs.len() ==> (#[trigger] ivs[j]).0 <= ivs[j].1,
    ensures
        started_by(ivs, b) - ended_before(ivs, b) == covering(ivs, b),
    decreases ivs.len(),
{
    if ivs.len() > 0 {
        lemma_started_ended_covering(ivs.drop_last(), b);
    }
}

proof fn lemma_delta_bound(ivs: Seq<(int, int)>, k: int)
    ensures
        -(ivs.len() as int) <= delta_at(ivs, k) <= ivs.len(),
    decreases ivs.len(),
{
    if ivs.len() > 0 {
        lemma_delta_bound(ivs.drop_last(), k);
    }
}

proof fn lemma_counts_bound(ivs: Seq<(int, int)>, b: int)
    ensures
        0 <= started_by(ivs, b) <= ivs.len(),
        0 <= ended_before(ivs, b) <= ivs.len(),
    decreases ivs.len(),
{
    if ivs.len() > 0 {
        lemma_counts_bound(ivs.drop_last(), b);
    }
}

/// All active intervals of `t`: those its events close, then those still open.
pub open spec fn all_intervals(t: Seq<TraceEvent>, fc: nat, res: u64, total: u64) -> Seq<(int, int)> {
    let nb = num_buckets(total, res);
    closed_intervals(t, fc, res, nb) + open_intervals(t, fc, res, nb, bucket_of(total, res, nb))
}

/// The resolution actually used: at least one cycle.
pub open spec fn effective_resolution(resolution: u64) -> u64 {
    if resolution == 0 {
        1
    } else {
        resolution
    }
}

fn to_bucket(cycle: u64, res: u64, nb: usize) -> (b: usize)
    requires
        res >= 1,
        nb >= 1,
    ensures
        b == bucket_of(cycle, res, nb as nat),
{
    let q = cycle / res;
    if q >= (nb - 1) as u64 {
        nb - 1
    } else {
        q as usize
    }
}

fn zeros_u32(n: usize) -> (v: Vec<u32>)
    ensures
        v@ == Seq::new(n as nat, |i: int| 0u32),
{
    let mut v: Vec<u32> = Vec::with_capacity(n);
    let mut i: usize = 0;
    while i < n
        invariant
            i <= n,
            v@ == Seq::new(i as nat, |k: int| 0u32),
        decreases n - i,
    {
        v.push(0);
        i += 1;
        proof {
            assert(v@ =~= Seq::new(i as nat, |k: int| 0u32));
        }
    }
    v
}

fn zeros_u64(n: usize) -> (v: Vec<u64>)
    ensures
        v@ == Seq::new(n as nat, |i: int| 0u64),
{
    let mut v: Vec<u64> = Vec::with_capacity(n);
    let mut i: usize = 0;
    while i < n
        invariant
            i <= n,
            v@ == Seq::new(i as nat, |k: int| 0u64),
        decreases n - i,
    {
        v.push(0);
        i += 1;
        proof {
            assert(v@ =~= Seq::new(i as nat, |k: int| 0u64));
        }
    }
    v
}

fn zeros_i64(n: usize) -> (v: Vec<i64>)
    ensures
        v@ == Seq::new(n as nat, |i: int| 0i64),
{
    let mut v: Vec<i64> = Vec::with_capacity(n);
    let mut i: usize = 0;
    while i < n
        invariant
            i <= n,
            v@ == Seq::new(i as nat, |k: int| 0i64),
        decreases n - i,
    {
        v.push(0);
        i += 1;
        proof {
            assert(v@ =~= Seq::new(i as nat, |k: int| 0i64));
        }
    }
    v
}

/// The accumulators of the single pass.
struct Scan {
    deltas: Vec<i64>,
    failures: Vec<u32>,
    occupancy: Vec<u32>,
    stalls: Vec<u32>,
    served: Vec<u64>,
    stall_events: Vec<StallRecord>,
    injection_errors: u64,
    fixups_inserted: u64,
    critical_path_extension: u64,
    factory_starts: Vec<Option<u64>>,
    ivs: Ghost<Seq<(int, int)>>,
}

pub open spec fn is_failure(k: TraceEventKind) -> bool {
    k is FactoryFailed
}

pub open spec fn is_served(k: TraceEventKind) -> bool {
    k is GateServed
}

pub open spec fn is_injection(k: TraceEventKind) -> bool {
    k is InjectionError
}

pub open spec fn is_fixup_inserted(k: TraceEventKind) -> bool {
    k is FixupInserted
}

impl Scan {
    /// The accumulators hold what the events `t` give.
    spec fn matches(&self, t: Seq<TraceEvent>, fc: nat, res: u64, nb: nat) -> bool {
        let ivs = self.ivs@;
        &&& ivs == closed_intervals(t, fc, res, nb)
        &&& in_buckets(ivs, nb)
        &&& self.deltas@.len() == if nb < usize::MAX { nb + 1 } else { nb }
        &&& forall|k: int| 0 <= k < self.deltas@.len() ==> (#[trigger] self.deltas@[k]) == delta_at(ivs, k)
        &&& self.failures@.len() == nb
        &&& self.occupancy@.len() == nb
        &&& self.stalls@.len() == nb
        &&& self.served@.len() == nb
        &&& forall|b: int|
            0 <= b < nb ==> (#[trigger] self.failures@[b]) == sat_u32(
                count_in_bucket(t, |k: TraceEventKind| is_failure(k), res, nb, b),
            )
        &&& forall|b: int| 0 <= b < nb ==> (#[trigger] self.occupancy@[b]) == last_occupancy(t, res, nb, b)
        &&& forall|b: int|
            0 <= b < nb ==> (#[trigger] self.stalls@[b]) == sat_u32(
                count_in_bucket(t, |k: TraceEventKind| is_stall(k), res, nb, b),
            )
        &&& forall|b: int|
            0 <= b < nb ==> (#[trigger] self.served@[b]) == sat_u64(
                count_in_bucket(t, |k: TraceEventKind| is_served(k), res, nb, b),
            )
        &&& self.stall_events@ == stall_records(t)
        &&& self.injection_errors == count_kind(t, |k: TraceEventKind| is_injection(k))
        &&& self.fixups_inserted == count_kind(t, |k: TraceEventKind| is_fixup_inserted(k))
        &&& self.critical_path_extension == sat_u64(fixup_scan(t).1)
        &&& self.factory_starts@.len() == fc
        &&& forall|f: int| 0 <= f < fc ==> (#[trigger] self.factory_starts@[f]) == last_start(t, f as u16)
    }
}


proof fn lemma_closed_len(t: Seq<TraceEvent>, fc: nat, res: u64, nb: nat)
    ensures
        closed_intervals(t, fc, res, nb).len() <= t.len(),
    decreases t.len(),
{
    if t.len() > 0 {
        lemma_closed_len(t.drop_last(), fc, res, nb);
    }
}

proof fn lemma_count_kind_len(t: Seq<TraceEvent>, p: spec_fn(TraceEventKind) -> bool)
    ensures
        count_kind(t, p) <= t.len(),
    decreases t.len(),
{
    if t.len() > 0 {
        lemma_count_kind_len(t.drop_last(), p);
    }
}

/// The largest trace the analyzer takes: far more events than any memory
/// can hold.
pub open spec fn max_trace_len() -> nat {
    0x1000_0000_0000_0000
}

fn set_start(starts: &mut Vec<Option<u64>>, factory_id: u16, cycle: u64)
    ensures
        final(starts)@ == if (factory_id as int) < old(starts)@.len() {
            old(starts)@.update(factory_id as int, Some(cycle))
        } else {
            old(starts)@
        },
{
    if (factory_id as usize) < starts.len() {
        starts.set(factory_id as usize, Some(cycle));
    }
}

fn absorb(
    scan: &mut Scan,
    fixup_starts: &mut HashMap<u64, u64>,
    e: TraceEvent,
    Ghost(t): Ghost<Seq<TraceEvent>>,
    fc: usize,
    res: u64,
    nb: usize,
)
    requires
        old(scan).matches(t, fc as nat, res, nb as nat),
        old(fixup_starts)@ == fixup_scan(t).0,
        res >= 1,
        nb >= 1,
        fc <= 0x10000,
        t.len() + 1 < max_trace_len(),
    ensures
        final(scan).matches(t.push(e), fc as nat, res, nb as nat),
        final(fixup_starts)@ == fixup_scan(t.push(e)).0,
{
    let ghost t2 = t.push(e);
    proof {
        assert(t2.drop_last() =~= t);
        assert(t2.last() == e);
        lemma_closed_len(t, fc as nat, res, nb as nat);
        lemma_count_kind_len(t, |k: TraceEventKind| is_injection(k));
        lemma_count_kind_len(t, |k: TraceEventKind| is_fixup_inserted(k));
    }
    let b = to_bucket(e.cycle, res, nb);
    match e.kind {
        TraceEventKind::FactoryStarted { factory_id } => {
            set_start(&mut scan.factory_starts, factory_id, e.cycle);
            proof {
                assert forall|f: int| 0 <= f < fc implies (#[trigger] scan.factory_starts@[f]) == last_start(t2, f as u16) by {
                    if f != factory_id as int {
                        assert((f as u16) != factory_id);
                    }
                }
                assert(fixup_scan(t2) == fixup_scan(t));
            }
        },
        TraceEventKind::FactoryProduced { factory_id } => {
            let fid = factory_id as usize;
            if fid < fc {
                match scan.factory_starts[fid] {
                    Some(start) => {
                        let sb = to_bucket(start, res, nb);
                        proof {
                            lemma_delta_bound(scan.ivs@, sb as int);
                            lemma_delta_bound(scan.ivs@, b as int + 1);
                            assert(scan.factory_starts@[fid as int] == last_start(t, factory_id));
                        }
                        let d = scan.deltas[sb];
                        scan.deltas.set(sb, d + 1);
                        if b + 1 < scan.deltas.len() {
                            let d2 = scan.deltas[b + 1];
                            scan.deltas.set(b + 1, d2 - 1);
                        }
                        let ghost old_ivs = scan.ivs@;
                        scan.ivs = Ghost(scan.ivs@.push((sb as int, b as int)));
                        proof {
                            let ivs = scan.ivs@;
                            assert(ivs.drop_last() =~= old_ivs);
                            assert forall|j: int| 0 <= j < ivs.len() implies 0 <= (#[trigger] ivs[j]).0 < nb && 0 <= ivs[j].1 < nb by {
                                if j < old_ivs.len() {
                                    assert(ivs[j] == old_ivs[j]);
                                }
                            }
                        }
                    },
                    None => {},
                }
            }
        },
        TraceEventKind::FactoryFailed { factory_id } => {
            let fid = factory_id as usize;
            if fid < fc {
                match scan.factory_starts[fid] {
                    Some(start) => {
                        let sb = to_bucket(start, res, nb);
                        proof {
                            lemma_delta_bound(scan.ivs@, sb as int);
                            lemma_delta_bound(scan.ivs@, b as int + 1);
                            assert(scan.factory_starts@[fid as int] == last_start(t, factory_id));
                        }
                        let d = scan.deltas[sb];
                        scan.deltas.set(sb, d + 1);
                        if b + 1 < scan.deltas.len() {
                            let d2 = scan.deltas[b + 1];
                            scan.deltas.set(b + 1, d2 - 1);
                        }
                        let ghost old_ivs = scan.ivs@;
                        scan.ivs = Ghost(scan.ivs@.push((sb as int, b as int)));
                        proof {
                            let ivs = scan.ivs@;
                            assert(ivs.drop_last() =~= old_ivs);
                            assert forall|j: int| 0 <= j < ivs.len() implies 0 <= (#[trigger] ivs[j]).0 < nb && 0 <= ivs[j].1 < nb by {
                                if j < old_ivs.len() {
                                    assert(ivs[j] == old_ivs[j]);
                                }
                            }
                        }
                    },
                    None => {},
                }
            }
            let f = scan.failures[b];
            scan.failures.set(b, f.saturating_add(1));
        },
        TraceEventKind::BufferEnqueue { occupancy } => {
            scan.occupancy.set(b, occupancy);
        },
        TraceEventKind::BufferDequeue { occupancy } => {
            scan.occupancy.set(b, occupancy);
        },
        TraceEventKind::GateServed { gate, wait } => {
            if wait > 0 {
                scan.stall_events.push(StallRecord { cycle: e.cycle, gate_id: gate, wait_cycles: wait as u64 });
                let st = scan.stalls[b];
                scan.stalls.set(b, st.saturating_add(1));
            }
            let sv = scan.served[b];
            scan.served.set(b, sv.saturating_add(1));
        },
        TraceEventKind::InjectionError { .. } => {
            scan.injection_errors = scan.injection_errors + 1;
        },
        TraceEventKind::FixupInserted { fixup, .. } => {
            scan.fixups_inserted = scan.fixups_inserted + 1;
            fixup_starts.insert(fixup, e.cycle);
        },
        TraceEventKind::FixupCompleted { fixup } => {
            match fixup_starts.remove(&fixup) {
                Some(start) => {
                    scan.critical_path_extension = scan.critical_path_extension.saturating_add(
                        e.cycle.saturating_sub(start),
                    );
                },
                None => {},
            }
        },
        _ => {},
    }
}


fn nones(n: usize) -> (v: Vec<Option<u64>>)
    ensures
        v@ == Seq::new(n as nat, |i: int| None::<u64>),
{
    let mut v: Vec<Option<u64>> = Vec::with_capacity(n);
    let mut i: usize = 0;
    while i < n
        invariant
            i <= n,
            v@ == Seq::new(i as nat, |k: int| None::<u64>),
        decreases n - i,
    {
        v.push(None);
        i += 1;
        proof {
            assert(v@ =~= Seq::new(i as nat, |k: int| None::<u64>));
        }
    }
    v
}

proof fn lemma_in_buckets_bounds(ivs: Seq<(int, int)>, nb: nat)
    requires
        in_buckets(ivs, nb),
    ensures
        forall|j: int| 0 <= j < ivs.len() ==> 0 <= (#[trigger] ivs[j]).0 && 0 <= ivs[j].1,
{
    assert forall|j: int| 0 <= j < ivs.len() implies 0 <= (#[trigger] ivs[j]).0 && 0 <= ivs[j].1 by {
        assert(0 <= ivs[j].0 < nb);
    }
}

impl ProfileAnalyzer {
    /// Analyze `trace` into time-bucketed counts.
    ///
    /// `factory_count` bounds the factory ids that are tracked; `resolution`
    /// is cycles per bucket, taken as at least one. There are
    /// `total_cycles / resolution + 1` buckets.
    ///
    /// The active count of a bucket comes from a difference array over the
    /// active intervals of the factories: from a factory's start to the
    /// event that ends its attempt, and, for the last start of each factory,
    /// to the end of the trace.
    pub fn analyze(trace: &Trace, factory_count: u16, resolution: u64) -> (p: ProfileCounts)
        requires
            trace.events@.len() < max_trace_len(),
        ensures
            ({
                let t = trace.events@;
                let res = effective_resolution(resolution);
                let nb = num_buckets(trace.total_cycles, res);
                let ivs = all_intervals(t, factory_count as nat, res, trace.total_cycles);
                &&& p.resolution == res
                &&& p.total_cycles == trace.total_cycles
                &&& p.factory_active@.len() == nb
                &&& forall|b: int|
                    0 <= b < nb ==> #[trigger] p.factory_active@[b] == active_of(
                        started_by(ivs, b) - ended_before(ivs, b),
                    )
                &&& p.buffer_occupancy@.len() == nb
                &&& forall|b: int| 0 <= b < nb ==> #[trigger] p.buffer_occupancy@[b] == last_occupancy(t, res, nb, b)
                &&& p.bottleneck_type@.len() == nb
                &&& forall|b: int|
                    0 <= b < nb ==> #[trigger] p.bottleneck_type@[b] == bottleneck_of(
                        sat_u32(count_in_bucket(t, |k: TraceEventKind| is_stall(k), res, nb, b)),
                        sat_u32(count_in_bucket(t, |k: TraceEventKind| is_failure(k), res, nb, b)),
                    )
                &&& p.magic_states_per_bucket@.len() == nb
                &&& forall|b: int|
                    0 <= b < nb ==> #[trigger] p.magic_states_per_bucket@[b] == sat_u64(
                        count_in_bucket(t, |k: TraceEventKind| is_served(k), res, nb, b),
                    )
                &&& p.stall_events@ == stall_records(t)
                &&& p.injection_errors == count_kind(t, |k: TraceEventKind| is_injection(k))
                &&& p.fixups_inserted == count_kind(t, |k: TraceEventKind| is_fixup_inserted(k))
                &&& p.critical_path_extension == sat_u64(fixup_scan(t).1)
                &&& p.p_logical_bits == trace.p_logical_bits
                &&& p.magic_states_consumed == trace.magic_states_consumed
            }),
    {
        let ghost t = trace.events@;
        let res: u64 = if resolution == 0 { 1 } else { resolution };
        let total = trace.total_cycles;
        let q = total / res;
        let n64 = q.saturating_add(1);
        let nb: usize = if n64 > usize::MAX as u64 { usize::MAX / 2 } else { n64 as usize };
        let dl = nb.saturating_add(1);
        let fc = factory_count as usize;
        let mut scan = Scan {
            deltas: zeros_i64(dl),
            failures: zeros_u32(nb),
            occupancy: zeros_u32(nb),
            stalls: zeros_u32(nb),
            served: zeros_u64(nb),
            stall_events: Vec::new(),
            injection_errors: 0,
            fixups_inserted: 0,
            critical_path_extension: 0,
            factory_starts: nones(fc),
            ivs: Ghost(Seq::empty()),
        };
        let mut fixups: HashMap<u64, u64> = HashMap::new();
        proof {
            assert(t.take(0) =~= Seq::<TraceEvent>::empty());
            assert(fixups@ =~= fixup_scan(t.take(0)).0);
        }
        let mut i: usize = 0;
        while i < trace.events.len()
            invariant
                t == trace.events@,
                t.len() < max_trace_len(),
                i <= t.len(),
                res >= 1,
                nb >= 1,
                fc <= 0x10000,
                nb == num_buckets(total, res),
                total == trace.total_cycles,
                scan.matches(t.take(i as int), fc as nat, res, nb as nat),
                fixups@ == fixup_scan(t.take(i as int)).0,
            decreases t.len() - i,
        {
            let e = trace.events[i];
            absorb(&mut scan, &mut fixups, e, Ghost(t.take(i as int)), fc, res, nb);
            proof {
                assert(t.take(i as int + 1) =~= t.take(i as int).push(e));
            }
            i += 1;
        }
        proof {
            assert(t.take(t.len() as int) =~= t);
        }
        let ghost closed = scan.ivs@;
        let ghost s0 = scan;
        let last_b = to_bucket(total, res, nb);
        let mut f: usize = 0;
        proof {
            assert(closed + open_intervals(t, 0, res, nb as nat, last_b as int) =~= closed);
            lemma_closed_len(t, fc as nat, res, nb as nat);
        }
        while f < fc
            invariant
                f <= fc,
                fc <= 0x10000,
                res >= 1,
                nb >= 1,
                last_b < nb,
                t.len() < max_trace_len(),
                closed.len() <= t.len(),
                closed == closed_intervals(t, fc as nat, res, nb as nat),
                scan.ivs@ == closed + open_intervals(t, f as nat, res, nb as nat, last_b as int),
                scan.ivs@.len() <= closed.len() + f,
                in_buckets(scan.ivs@, nb as nat),
                scan.deltas@.len() == if nb < usize::MAX { nb + 1 } else { nb as int },
                forall|k: int| 0 <= k < scan.deltas@.len() ==> (#[trigger] scan.deltas@[k]) == delta_at(scan.ivs@, k),
                scan.factory_starts@.len() == fc,
                forall|g: int| 0 <= g < fc ==> (#[trigger] scan.factory_starts@[g]) == last_start(t, g as u16),
                scan.failures == s0.failures,
                scan.occupancy == s0.occupancy,
                scan.stalls == s0.stalls,
                scan.served == s0.served,
                scan.stall_events == s0.stall_events,
                scan.injection_errors == s0.injection_errors,
                scan.fixups_inserted == s0.fixups_inserted,
                scan.critical_path_extension == s0.critical_path_extension,
            decreases fc - f,
        {
            match scan.factory_starts[f] {
                Some(start) => {
                    let sb = to_bucket(start, res, nb);
                    proof {
                        lemma_delta_bound(scan.ivs@, sb as int);
                        lemma_delta_bound(scan.ivs@, last_b as int + 1);
                    }
                    let d = scan.deltas[sb];
                    scan.deltas.set(sb, d + 1);
                    if last_b + 1 < scan.deltas.len() {
                        let d2 = scan.deltas[last_b + 1];
                        scan.deltas.set(last_b + 1, d2 - 1);
                    }
                    let ghost old_ivs = scan.ivs@;
                    scan.ivs = Ghost(scan.ivs@.push((sb as int, last_b as int)));
                    proof {
                        let ivs = scan.ivs@;
                        assert(ivs.drop_last() =~= old_ivs);
                        assert(scan.factory_starts@[f as int] == last_start(t, f as u16));
                        assert(open_intervals(t, (f + 1) as nat, res, nb as nat, last_b as int) == open_intervals(
                            t,
                            f as nat,
                            res,
                            nb as nat,
                            last_b as int,
                        ).push((sb as int, last_b as int)));
                        assert(ivs =~= closed + open_intervals(t, (f + 1) as nat, res, nb as nat, last_b as int));
                        assert forall|j: int| 0 <= j < ivs.len() implies 0 <= (#[trigger] ivs[j]).0 < nb && 0 <= ivs[j].1 < nb by {
                            if j < old_ivs.len() {
                                assert(ivs[j] == old_ivs[j]);
                            }
                        }
                    }
                },
                None => {
                    proof {
                        assert(scan.factory_starts@[f as int] == last_start(t, f as u16));
                    }
                },
            }
            f += 1;
        }
        let ghost all = scan.ivs@;
        proof {
            assert(all == all_intervals(t, factory_count as nat, res, total));
            lemma_in_buckets_bounds(all, nb as nat);
        }
        let mut active: Vec<u32> = Vec::with_capacity(nb);
        let mut running: i64 = 0;
        let mut b: usize = 0;
        while b < nb
            invariant
                b <= nb,
                nb <= scan.deltas@.len(),
                all.len() < max_trace_len() + 0x10000,
                forall|j: int| 0 <= j < all.len() ==> 0 <= (#[trigger] all[j]).0 && 0 <= all[j].1,
                forall|k: int| 0 <= k < scan.deltas@.len() ==> (#[trigger] scan.deltas@[k]) == delta_at(all, k),
                running == prefix_delta(all, b - 1),
                active@.len() == b,
                forall|k: int| 0 <= k < b ==> #[trigger] active@[k] == active_of(
                    started_by(all, k) - ended_before(all, k),
                ),
            decreases nb - b,
        {
            proof {
                lemma_prefix_delta(all, b as int);
                lemma_counts_bound(all, b as int);
            }
            running = running + scan.deltas[b];
            let a: u32 = if running > 0 { running as u32 } else { 0 };
            active.push(a);
            b += 1;
        }
        let mut bottleneck: Vec<BottleneckType> = Vec::with_capacity(nb);
        let mut k: usize = 0;
        while k < nb
            invariant
                k <= nb,
                scan.stalls@.len() == nb,
                scan.failures@.len() == nb,
                bottleneck@.len() == k,
                forall|j: int| 0 <= j < k ==> #[trigger] bottleneck@[j] == bottleneck_of(scan.stalls@[j], scan.failures@[j]),
            decreases nb - k,
        {
            let st = scan.stalls[k];
            let fl = scan.failures[k];
            let bt = if st > 0 && fl > 0 {
                BottleneckType::Balanced
            } else if st > 0 {
                BottleneckType::FactoryThroughput
            } else {
                BottleneckType::NoBottleneck
            };
            bottleneck.push(bt);
            k += 1;
        }
        ProfileCounts {
            resolution: res,
            total_cycles: total,
            factory_active: active,
            buffer_occupancy: scan.occupancy,
            bottleneck_type: bottleneck,
            stall_events: scan.stall_events,
            injection_errors: scan.injection_errors,
            fixups_inserted: scan.fixups_inserted,
            critical_path_extension: scan.critical_path_extension,
            p_logical_bits: trace.p_logical_bits,
            magic_states_consumed: trace.magic_states_consumed,
            magic_states_per_bucket: scan.served,
        }
    }
}


/// The events of `t` are in cycle order and none is later than `total`.
pub open spec fn ordered_within(t: Seq<TraceEvent>, total: u64) -> bool {
    &&& forall|i: int, j: int| 0 <= i < j < t.len() ==> #[trigger] t[i].cycle <= #[trigger] t[j].cycle
    &&& forall|i: int| 0 <= i < t.len() ==> (#[trigger] t[i]).cycle <= total
}

proof fn lemma_bucket_monotone(c1: u64, c2: u64, res: u64, nb: nat)
    requires
        c1 <= c2,
        res >= 1,
    ensures
        bucket_of(c1, res, nb) <= bucket_of(c2, res, nb),
{
    vstd::arithmetic::div_mod::lemma_div_is_ordered(c1 as int, c2 as int, res as int);
}

proof fn lemma_last_start_occurs(t: Seq<TraceEvent>, fid: u16)
    requires
        last_start(t, fid) is Some,
    ensures
        exists|i: int| 0 <= i < t.len() && (#[trigger] t[i]).cycle == last_start(t, fid)->0,
    decreases t.len(),
{
    let e = t.last();
    let n = t.len() - 1;
    match e.kind {
        TraceEventKind::FactoryStarted { factory_id } => {
            if factory_id == fid {
                assert(t[n].cycle == last_start(t, fid)->0);
            } else {
                lemma_last_start_occurs(t.drop_last(), fid);
                let i = choose|i: int| 0 <= i < t.drop_last().len() && (#[trigger] t.drop_last()[i]).cycle == last_start(t.drop_last(), fid)->0;
                assert(t[i] == t.drop_last()[i]);
            }
        },
        _ => {
            lemma_last_start_occurs(t.drop_last(), fid);
            let i = choose|i: int| 0 <= i < t.drop_last().len() && (#[trigger] t.drop_last()[i]).cycle == last_start(t.drop_last(), fid)->0;
            assert(t[i] == t.drop_last()[i]);
        },
    }
}

proof fn lemma_closed_ordered(t: Seq<TraceEvent>, fc: nat, res: u64, nb: nat, total: u64)
    requires
        ordered_within(t, total),
        res >= 1,
    ensures
        forall|j: int|
            0 <= j < closed_intervals(t, fc, res, nb).len() ==> (#[trigger] closed_intervals(t, fc, res, nb)[j]).0
                <= closed_intervals(t, fc, res, nb)[j].1,
    decreases t.len(),
{
    if t.len() > 0 {
        let p = t.drop_last();
        assert(ordered_within(p, total)) by {
            assert forall|i: int, j: int| 0 <= i < j < p.len() implies #[trigger] p[i].cycle <= #[trigger] p[j].cycle by {
                assert(t[i].cycle <= t[j].cycle);
            }
            assert forall|i: int| 0 <= i < p.len() implies (#[trigger] p[i]).cycle <= total by {
                assert(t[i].cycle <= total);
            }
        }
        lemma_closed_ordered(p, fc, res, nb, total);
        let prev = closed_intervals(p, fc, res, nb);
        let cur = closed_intervals(t, fc, res, nb);
        let e = t.last();
        if let Some(fid) = ended_factory(e.kind) {
            if (fid as int) < fc && last_start(p, fid) is Some {
                lemma_last_start_occurs(p, fid);
                let i = choose|i: int| 0 <= i < p.len() && (#[trigger] p[i]).cycle == last_start(p, fid)->0;
                assert(t[i].cycle <= t[t.len() - 1].cycle);
                lemma_bucket_monotone(last_start(p, fid)->0, e.cycle, res, nb);
            }
        }
        assert forall|j: int| 0 <= j < cur.len() implies (#[trigger] cur[j]).0 <= cur[j].1 by {
            if j < prev.len() {
                assert(cur[j] == prev[j]);
            }
        }
    }
}

proof fn lemma_open_ordered(t: Seq<TraceEvent>, upto: nat, res: u64, nb: nat, total: u64)
    requires
        ordered_within(t, total),
        res >= 1,
    ensures
        forall|j: int|
            0 <= j < open_intervals(t, upto, res, nb, bucket_of(total, res, nb)).len() ==> (
            #[trigger] open_intervals(t, upto, res, nb, bucket_of(total, res, nb))[j]).0 <= open_intervals(
                t,
                upto,
                res,
                nb,
                bucket_of(total, res, nb),
            )[j].1,
    decreases upto,
{
    if upto > 0 {
        let lb = bucket_of(total, res, nb);
        lemma_open_ordered(t, (upto - 1) as nat, res, nb, total);
        let prev = open_intervals(t, (upto - 1) as nat, res, nb, lb);
        let cur = open_intervals(t, upto, res, nb, lb);
        let fid = (upto - 1) as u16;
        if last_start(t, fid) is Some {
            lemma_last_start_occurs(t, fid);
            let i = choose|i: int| 0 <= i < t.len() && (#[trigger] t[i]).cycle == last_start(t, fid)->0;
            assert(t[i].cycle <= total);
            lemma_bucket_monotone(last_start(t, fid)->0, total, res, nb);
        }
        assert forall|j: int| 0 <= j < cur.len() implies (#[trigger] cur[j]).0 <= cur[j].1 by {
            if j < prev.len() {
                assert(cur[j] == prev[j]);
            }
        }
    }
}

/// For a trace in cycle order with no event after its total cycle, the
/// running total of the difference array at each bucket is the number of
/// active intervals covering that bucket: the one-pass count agrees with
/// counting interval by interval.
pub proof fn law_active_counts_cover(t: Seq<TraceEvent>, fc: nat, resolution: u64, total: u64, b: int)
    requires
        ordered_within(t, total),
    ensures
        ({
            let ivs = all_intervals(t, fc, effective_resolution(resolution), total);
            started_by(ivs, b) - ended_before(ivs, b) == covering(ivs, b)
        }),
{
    let res = effective_resolution(resolution);
    let nb = num_buckets(total, res);
    let closed = closed_intervals(t, fc, res, nb);
    let open = open_intervals(t, fc, res, nb, bucket_of(total, res, nb));
    lemma_closed_ordered(t, fc, res, nb, total);
    lemma_open_ordered(t, fc, res, nb, total);
    let ivs = closed + open;
    assert forall|j: int| 0 <= j < ivs.len() implies (#[trigger] ivs[j]).0 <= ivs[j].1 by {
        if j < closed.len() {
            assert(ivs[j] == closed[j]);
        } else {
            assert(ivs[j] == open[j - closed.len()]);
        }
    }
    lemma_started_ended_covering(ivs, b);
}


/// The sum of the first `n` entries of `s`.
pub open spec fn sum_first(s: Seq<u64>, n: int) -> nat
    decreases n,
{
    if n <= 0 {
        0
    } else {
        sum_first(s, n - 1) + s[n - 1] as nat
    }
}

/// Running sums of `per_bucket`, each saturating at `u64::MAX`.
pub fn cumulative_sums(per_bucket: &[u64]) -> (r: Vec<u64>)
    ensures
        r@.len() == per_bucket@.len(),
        forall|i: int| 0 <= i < r@.len() ==> #[trigger] r@[i] == sat_u64(sum_first(per_bucket@, i + 1)),
        forall|i: int, j: int| 0 <= i <= j < r@.len() ==> #[trigger] r@[i] <= #[trigger] r@[j],
        r@.len() > 0 ==> r@.last() == sat_u64(sum_first(per_bucket@, per_bucket@.len() as int)),
{
    let mut r: Vec<u64> = Vec::with_capacity(per_bucket.len());
    let mut running: u64 = 0;
    let mut i: usize = 0;
    while i < per_bucket.len()
        invariant
            i <= per_bucket@.len(),
            r@.len() == i,
            running == sat_u64(sum_first(per_bucket@, i as int)),
            forall|k: int| 0 <= k < i ==> #[trigger] r@[k] == sat_u64(sum_first(per_bucket@, k + 1)),
        decreases per_bucket@.len() - i,
    {
        running = running.saturating_add(per_bucket[i]);
        r.push(running);
        i += 1;
    }
    proof {
        assert forall|i: int, j: int| 0 <= i <= j < r@.len() implies #[trigger] r@[i] <= #[trigger] r@[j] by {
            lemma_sum_first_monotone(per_bucket@, i + 1, j + 1);
        }
    }
    r
}

proof fn lemma_sum_first_monotone(s: Seq<u64>, a: int, b: int)
    requires
        a <= b,
    ensures
        sum_first(s, a) <= sum_first(s, b),
    decreases b - a,
{
    if a < b {
        lemma_sum_first_monotone(s, a, b - 1);
        if b > 0 {
            assert(sum_first(s, b) == sum_first(s, b - 1) + s[b - 1] as nat);
        }
    }
}

impl ProfileCounts {
    /// Per-bucket cumulative magic states consumed: running sums of
    /// `magic_states_per_bucket`, saturating.
    pub fn cumulative_magic_states(&self) -> (r: Vec<u64>)
        ensures
            r@.len() == self.magic_states_per_bucket@.len(),
            forall|i: int|
                0 <= i < r@.len() ==> #[trigger] r@[i] == sat_u64(sum_first(self.magic_states_per_bucket@, i + 1)),
    {
        cumulative_sums(self.magic_states_per_bucket.as_slice())
    }
}

/// The critical-path extension is the sum of fixup durations: appending to
/// any trace the insertion of a fixup not yet pending at `c1` and its
/// completion at `c2 >= c1` raises it by exactly `c2 - c1`, and a trace with
/// no completed fixup has none.
pub proof fn law_fixup_durations_add(t: Seq<TraceEvent>, f: u64, original: u64, c1: u64, c2: u64)
    requires
        !fixup_scan(t).0.contains_key(f),
        c1 <= c2,
    ensures
        fixup_scan(
            t + seq![
                TraceEvent { cycle: c1, kind: TraceEventKind::FixupInserted { fixup: f, original } },
                TraceEvent { cycle: c2, kind: TraceEventKind::FixupCompleted { fixup: f } },
            ],
        ).1 == fixup_scan(t).1 + (c2 - c1),
        fixup_scan(
            t + seq![
                TraceEvent { cycle: c1, kind: TraceEventKind::FixupInserted { fixup: f, original } },
                TraceEvent { cycle: c2, kind: TraceEventKind::FixupCompleted { fixup: f } },
            ],
        ).0 == fixup_scan(t).0,
{
    let e1 = TraceEvent { cycle: c1, kind: TraceEventKind::FixupInserted { fixup: f, original } };
    let e2 = TraceEvent { cycle: c2, kind: TraceEventKind::FixupCompleted { fixup: f } };
    let t1 = t.push(e1);
    let t2 = t1.push(e2);
    assert(t + seq![e1, e2] =~= t2);
    assert(t1.drop_last() =~= t);
    assert(t2.drop_last() =~= t1);
    assert(fixup_scan(t1).0 == fixup_scan(t).0.insert(f, c1));
    assert(fixup_scan(t2).0 =~= fixup_scan(t).0);
}

/// A trace without fixup completions adds nothing to the critical path.
pub proof fn law_no_fixups_no_extension(t: Seq<TraceEvent>)
    requires
        forall|i: int| 0 <= i < t.len() ==> !((#[trigger] t[i]).kind is FixupCompleted),
    ensures
        fixup_scan(t).1 == 0,
    decreases t.len(),
{
    if t.len() > 0 {
        assert forall|i: int| 0 <= i < t.drop_last().len() implies !((#[trigger] t.drop_last()[i]).kind is FixupCompleted) by {
            assert(t.drop_last()[i] == t[i]);
        }
        law_no_fixups_no_extension(t.drop_last());
        assert(t[t.len() - 1] == t.last());
    }
}

proof fn lemma_count_kind_filter(t: Seq<TraceEvent>, p: spec_fn(TraceEventKind) -> bool, q: spec_fn(TraceEvent) -> bool)
    requires
        forall|e: TraceEvent| #[trigger] q(e) == p(e.kind),
    ensures
        count_kind(t, p) == t.filter(q).len(),
    decreases t.len(),
{
    reveal(Seq::filter);
    if t.len() > 0 {
        lemma_count_kind_filter(t.drop_last(), p, q);
    }
}

/// The event counts of a trace count exactly the events of each kind: the
/// stall count the gates served after a nonzero wait, the injection errors,
/// the fixups inserted, the factory failures, the served gates and the
/// states wasted on a full buffer.
pub proof fn law_event_counts(t: Seq<TraceEvent>)
    ensures
        count_kind(t, |k: TraceEventKind| is_stall(k)) == t.filter(
            |e: TraceEvent| e.kind is GateServed && e.kind->wait > 0,
        ).len(),
        count_kind(t, |k: TraceEventKind| is_injection(k)) == t.filter(|e: TraceEvent| e.kind is InjectionError).len(),
        count_kind(t, |k: TraceEventKind| is_fixup_inserted(k)) == t.filter(|e: TraceEvent| e.kind is FixupInserted).len(),
        count_kind(t, |k: TraceEventKind| is_failure(k)) == t.filter(|e: TraceEvent| e.kind is FactoryFailed).len(),
        count_kind(t, |k: TraceEventKind| is_served(k)) == t.filter(|e: TraceEvent| e.kind is GateServed).len(),
        count_kind(t, |k: TraceEventKind| crate::summary::is_buffer_full(k)) == t.filter(
            |e: TraceEvent| e.kind is BufferFull,
        ).len(),
{
    lemma_count_kind_filter(
        t,
        |k: TraceEventKind| is_stall(k),
        |e: TraceEvent| e.kind is GateServed && e.kind->wait > 0,
    );
    lemma_count_kind_filter(t, |k: TraceEventKind| is_injection(k), |e: TraceEvent| e.kind is InjectionError);
    lemma_count_kind_filter(t, |k: TraceEventKind| is_fixup_inserted(k), |e: TraceEvent| e.kind is FixupInserted);
    lemma_count_kind_filter(t, |k: TraceEventKind| is_failure(k), |e: TraceEvent| e.kind is FactoryFailed);
    lemma_count_kind_filter(t, |k: TraceEventKind| is_served(k), |e: TraceEvent| e.kind is GateServed);
    lemma_count_kind_filter(
        t,
        |k: TraceEventKind| crate::summary::is_buffer_full(k),
        |e: TraceEvent| e.kind is BufferFull,
    );
}

} // verus!
