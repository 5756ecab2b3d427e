//! Per-replica totals of a trace, for Monte Carlo aggregation.

use vstd::prelude::*;

use crate::analysis::count_kind;
use crate::analysis::is_injection;
use crate::analysis::is_fixup_inserted;
use crate::analysis::is_stall;
use crate::analysis::max_trace_len;
use crate::analysis::sat_u64;
use crate::trace::Trace;
use crate::trace::TraceEvent;
use crate::trace::TraceEventKind;

verus! {

/// Integer totals of one trace.
#[derive(Debug, Clone, Copy, PartialEq, Eq, Structural)]
pub struct TraceTotals {
    /// Number of gates served after waiting.
    pub stall_count: u64,
    /// Sum of all waits, saturating.
    pub total_stall_cycles: u64,
    /// Longest single wait.
    pub max_stall_cycles: u64,
    /// Number of injection errors.
    pub injection_errors: u64,
    /// Number of fixups inserted.
    pub fixups_inserted: u64,
    /// Number of states produced into a full buffer.
    pub buffer_full_events: u64,
    /// Sum over production attempts of their duration, saturating.
    pub total_factory_active_cycles: u64,
}

/// The wait of a stall event, zero for any other event.
pub open spec fn wait_of(k: TraceEventKind) -> nat {
    match k {
        TraceEventKind::GateServed { wait, .. } => wait as nat,
        _ => 0,
    }
}

/// The sum of the waits in `t`.
pub open spec fn total_wait(t: Seq<TraceEvent>) -> nat
    decreases t.len(),
{
    if t.len() == 0 {
        0
    } else {
        total_wait(t.drop_last()) + wait_of(t.last().kind)
    }
}

/// The longest wait in `t`, zero if none.
pub open spec fn max_wait(t: Seq<TraceEvent>) -> nat
    decreases t.len(),
{
    if t.len() == 0 {
        0
    } else {
        let m = max_wait(t.drop_last());
        let w = wait_of(t.last().kind);
        if w > m {
            w
        } else {
            m
        }
    }
}

/// A buffer-full event.
pub open spec fn is_buffer_full(k: TraceEventKind) -> bool {
    k is BufferFull
}

/// The start of the attempt of factory `fid` still running after `t`: set
/// by a start, cleared by a production or failure.
pub open spec fn pending_start(t: Seq<TraceEvent>, fid: u16) -> Option<u64>
    decreases t.len(),
{
    if t.len() == 0 {
        None
    } else {
        let e = t.last();
        match e.kind {
            TraceEventKind::FactoryStarted { factory_id } => if factory_id == fid {
                Some(e.cycle)
            } else {
                pending_start(t.drop_last(), fid)
            },
            TraceEventKind::FactoryProduced { factory_id } => if factory_id == fid {
                None
            } else {
                pending_start(t.drop_last(), fid)
            },
            TraceEventKind::FactoryFailed { factory_id } => if factory_id == fid {
                None
            } else {
                pending_start(t.drop_last(), fid)
            },
            _ => pending_start(t.drop_last(), fid),
        }
    }
}

/// The factory whose attempt an event ends.
pub open spec fn ending(k: TraceEventKind) -> Option<u16> {
    match k {
        TraceEventKind::FactoryProduced { factory_id } => Some(factory_id),
        TraceEventKind::FactoryFailed { factory_id } => Some(factory_id),
        _ => None,
    }
}

/// The summed duration of the attempts of the first `fc` factories that end
/// in `t`, each from its pending start to its end (zero if the end comes
/// first).
pub open spec fn active_cycles(t: Seq<TraceEvent>, fc: nat) -> nat
    decreases t.len(),
{
    if t.len() == 0 {
        0
    } else {
        let p = t.drop_last();
        let e = t.last();
        active_cycles(p, fc) + match ending(e.kind) {
            Some(fid) => if (fid as int) < fc && pending_start(p, fid) is Some {
                let s = pending_start(p, fid)->0;
                if e.cycle >= s {
                    (e.cycle - s) as nat
                } else {
                    0nat
                }
            } else {
                0nat
            },
            None => 0nat,
        }
    }
}

/// Totals of `trace` over the first `factory_count` factories.
pub fn trace_totals(trace: &Trace, factory_count: u16) -> (r: TraceTotals)
    requires
        trace.events@.len() < max_trace_len(),
    ensures
        r.stall_count == count_kind(trace.events@, |k: TraceEventKind| is_stall(k)),
        r.total_stall_cycles == sat_u64(total_wait(trace.events@)),
        r.max_stall_cycles == max_wait(trace.events@),
        r.injection_errors == count_kind(trace.events@, |k: TraceEventKind| is_injection(k)),
        r.fixups_inserted == count_kind(trace.events@, |k: TraceEventKind| is_fixup_inserted(k)),
        r.buffer_full_events == count_kind(trace.events@, |k: TraceEventKind| is_buffer_full(k)),
        r.total_factory_active_cycles == sat_u64(active_cycles(trace.events@, factory_count as nat)),
{
    let ghost t = trace.events@;
    let fc = factory_count as usize;
    let mut stall_count: u64 = 0;
    let mut total_stall_cycles: u64 = 0;
    let mut max_stall_cycles: u64 = 0;
    let mut injection_errors: u64 = 0;
    let mut fixups_inserted: u64 = 0;
    let mut buffer_full_events: u64 = 0;
    let mut active: u64 = 0;
    let mut starts: Vec<Option<u64>> = Vec::with_capacity(fc);
    let mut f: usize = 0;
    while f < fc
        invariant
            f <= fc,
            starts@.len() == f,
            forall|g: int| 0 <= g < f ==> (#[trigger] starts@[g]) is None,
        decreases fc - f,
    {
        starts.push(None);
        f += 1;
    }
    proof {
        assert(t.take(0) =~= Seq::<TraceEvent>::empty());
    }
    let mut i: usize = 0;
    while i < trace.events.len()
        invariant
            t == trace.events@,
            t.len() < max_trace_len(),
            i <= t.len(),
            starts@.len() == fc,
            fc <= 0x10000,
            forall|g: int| 0 <= g < fc ==> (#[trigger] starts@[g]) == pending_start(t.take(i as int), g as u16),
            stall_count == count_kind(t.take(i as int), |k: TraceEventKind| is_stall(k)),
            total_stall_cycles == sat_u64(total_wait(t.take(i as int))),
            max_stall_cycles == max_wait(t.take(i as int)),
            injection_errors == count_kind(t.take(i as int), |k: TraceEventKind| is_injection(k)),
            fixups_inserted == count_kind(t.take(i as int), |k: TraceEventKind| is_fixup_inserted(k)),
            buffer_full_events == count_kind(t.take(i as int), |k: TraceEventKind| is_buffer_full(k)),
            active == sat_u64(active_cycles(t.take(i as int), fc as nat)),
            stall_count <= i,
            injection_errors <= i,
            fixups_inserted <= i,
            buffer_full_events <= i,
        decreases t.len() - i,
    {
        let e = trace.events[i];
        let ghost p = t.take(i as int);
        proof {
            assert(t.take(i as int + 1) =~= p.push(e));
            assert(p.push(e).drop_last() =~= p);
        }
        match e.kind {
            TraceEventKind::GateServed { wait, .. } => {
                if wait > 0 {
                    let w = wait as u64;
                    stall_count = stall_count + 1;
                    total_stall_cycles = total_stall_cycles.saturating_add(w);
                    if w > max_stall_cycles {
                        max_stall_cycles = w;
                    }
                }
            },
            TraceEventKind::InjectionError { .. } => {
                injection_errors = injection_errors + 1;
            },
            TraceEventKind::FixupInserted { .. } => {
                fixups_inserted = fixups_inserted + 1;
            },
            TraceEventKind::BufferFull => {
                buffer_full_events = buffer_full_events + 1;
            },
            TraceEventKind::FactoryStarted { factory_id } => {
                if (factory_id as usize) < fc {
                    starts.set(factory_id as usize, Some(e.cycle));
                }
                proof {
                    assert forall|g: int| 0 <= g < fc implies (#[trigger] starts@[g]) == pending_start(
                        p.push(e),
                        g as u16,
                    ) by {
                        if g != factory_id as int {
                            assert((g as u16) != factory_id);
                        }
                    }
                }
            },
            TraceEventKind::FactoryProduced { factory_id } => {
                active = close_attempt(&mut starts, factory_id, e.cycle, active, Ghost(p), Ghost(fc as nat));
            },
            TraceEventKind::FactoryFailed { factory_id } => {
                active = close_attempt(&mut starts, factory_id, e.cycle, active, Ghost(p), Ghost(fc as nat));
            },
            _ => {},
        }
        proof {
            assert(p.push(e) =~= t.take(i as int + 1));
        }
        i += 1;
    }
    proof {
        assert(t.take(t.len() as int) =~= t);
    }
    TraceTotals {
        stall_count,
        total_stall_cycles,
        max_stall_cycles,
        injection_errors,
        fixups_inserted,
        buffer_full_events,
        total_factory_active_cycles: active,
    }
}

/// End the attempt of factory `factory_id` at `cycle`: add its duration to
/// `active` when it has a pending start, and clear that start.
fn close_attempt(
    starts: &mut Vec<Option<u64>>,
    factory_id: u16,
    cycle: u64,
    active: u64,
    Ghost(p): Ghost<Seq<TraceEvent>>,
    Ghost(fc): Ghost<nat>,
) -> (r: u64)
    requires
        old(starts)@.len() == fc,
        fc <= 0x10000,
        forall|g: int| 0 <= g < fc ==> (#[trigger] old(starts)@[g]) == pending_start(p, g as u16),
        active == sat_u64(active_cycles(p, fc)),
    ensures
        final(starts)@.len() == fc,
        forall|e: TraceEvent|
            #![trigger p.push(e)]
            ending(e.kind) == Some(factory_id) && e.cycle == cycle ==> {
                &&& forall|g: int| 0 <= g < fc ==> (#[trigger] final(starts)@[g]) == pending_start(p.push(e), g as u16)
                &&& r == sat_u64(active_cycles(p.push(e), fc))
            },
{
    let fid = factory_id as usize;
    if fid < starts.len() {
        let slot = starts[fid];
        starts.set(fid, None);
        match slot {
            Some(start) => {
                let r = active.saturating_add(cycle.saturating_sub(start));
                proof {
                    assert forall|e: TraceEvent|
                        #![trigger p.push(e)]
                        ending(e.kind) == Some(factory_id) && e.cycle == cycle implies {
                            &&& forall|g: int| 0 <= g < fc ==> (#[trigger] starts@[g]) == pending_start(p.push(e), g as u16)
                            &&& r == sat_u64(active_cycles(p.push(e), fc))
                        } by {
                        assert(p.push(e).drop_last() =~= p);
                        assert forall|g: int| 0 <= g < fc implies (#[trigger] starts@[g]) == pending_start(
                            p.push(e),
                            g as u16,
                        ) by {
                            if g != fid as int {
                                assert((g as u16) != factory_id);
                            }
                        }
                        assert(old(starts)@[fid as int] == pending_start(p, factory_id));
                    }
                }
                r
            },
            None => {
                proof {
                    assert forall|e: TraceEvent|
                        #![trigger p.push(e)]
                        ending(e.kind) == Some(factory_id) && e.cycle == cycle implies {
                            &&& forall|g: int| 0 <= g < fc ==> (#[trigger] starts@[g]) == pending_start(p.push(e), g as u16)
                            &&& active == sat_u64(active_cycles(p.push(e), fc))
                        } by {
                        assert(p.push(e).drop_last() =~= p);
                        assert forall|g: int| 0 <= g < fc implies (#[trigger] starts@[g]) == pending_start(
                            p.push(e),
                            g as u16,
                        ) by {
                            if g != fid as int {
                                assert((g as u16) != factory_id);
                            }
                        }
                        assert(old(starts)@[fid as int] == pending_start(p, factory_id));
                    }
                }
                active
            },
        }
    } else {
        proof {
            assert forall|e: TraceEvent|
                #![trigger p.push(e)]
                ending(e.kind) == Some(factory_id) && e.cycle == cycle implies {
                    &&& forall|g: int| 0 <= g < fc ==> (#[trigger] starts@[g]) == pending_start(p.push(e), g as u16)
                    &&& active == sat_u64(active_cycles(p.push(e), fc))
                } by {
                assert(p.push(e).drop_last() =~= p);
                assert forall|g: int| 0 <= g < fc implies (#[trigger] starts@[g]) == pending_start(
                    p.push(e),
                    g as u16,
                ) by {
                    assert((g as u16) != factory_id);
                }
            }
        }
        active
    }
}

/// The longest stall of a trace is the longest wait of a served gate: no
/// served gate waited longer, and it is the wait of one of them (zero when
/// none waited).
pub proof fn law_max_stall(t: Seq<TraceEvent>)
    ensures
        forall|i: int|
            0 <= i < t.len() ==> (#[trigger] t[i]).kind is GateServed ==> t[i].kind->wait <= max_wait(t),
        max_wait(t) == 0 || exists|i: int|
            0 <= i < t.len() && (#[trigger] t[i]).kind is GateServed && t[i].kind->wait == max_wait(t),
    decreases t.len(),
{
    if t.len() > 0 {
        let p = t.drop_last();
        law_max_stall(p);
        assert forall|i: int|
            0 <= i < t.len() implies (#[trigger] t[i]).kind is GateServed ==> t[i].kind->wait <= max_wait(t) by {
            if i < p.len() {
                assert(t[i] == p[i]);
            }
        }
        if max_wait(t) != 0 {
            if max_wait(t) == max_wait(p) {
                let i = choose|i: int|
                    0 <= i < p.len() && (#[trigger] p[i]).kind is GateServed && p[i].kind->wait == max_wait(p);
                assert(t[i] == p[i]);
            } else {
                assert(t[t.len() - 1] == t.last());
            }
        }
    }
}

/// Total stall cycles add up over the parts of a trace, and the longest
/// stall of a trace is the longer of its parts' longest stalls.
pub proof fn law_stalls_concat(a: Seq<TraceEvent>, b: Seq<TraceEvent>)
    ensures
        total_wait(a + b) == total_wait(a) + total_wait(b),
        max_wait(a + b) == if max_wait(a) >= max_wait(b) {
            max_wait(a)
        } else {
            max_wait(b)
        },
    decreases b.len(),
{
    if b.len() == 0 {
        assert(a + b =~= a);
    } else {
        law_stalls_concat(a, b.drop_last());
        assert((a + b).drop_last() =~= a + b.drop_last());
        assert((a + b).last() == b.last());
    }
}

} // verus!
