//! Trace event types: collected during simulation, analyzed after.

use vstd::prelude::*;

use crate::circuit::MeasurementOutcome;

verus! {

/// Bit flag for synthetic (fixup) operation ids in trace events.
///
/// Original circuit operations carry their IR `OpId` directly. Fixup nodes
/// injected by the engine carry `SYNTHETIC_ID_FLAG | counter`;
/// [`TraceEventKind::FixupInserted`] links the two.
pub const SYNTHETIC_ID_FLAG: u64 = 0x8000_0000_0000_0000u64;

/// A single timestamped event in the execution trace.
#[derive(Debug, Clone, Copy, PartialEq, Eq, Structural)]
pub struct TraceEvent {
    pub cycle: u64,
    pub kind: TraceEventKind,
}

/// Classification of trace events.
#[derive(Debug, Clone, Copy, PartialEq, Eq, Structural)]
pub enum TraceEventKind {
    FactoryStarted { factory_id: u16 },
    FactoryProduced { factory_id: u16 },
    FactoryFailed { factory_id: u16 },
    GateReady { gate: u64 },
    GateScheduled { gate: u64 },
    GateStalled { gate: u64 },
    GateServed { gate: u64, wait: u32 },
    GateCompleted { gate: u64 },
    InjectionError { gate: u64 },
    FixupInserted { fixup: u64, original: u64 },
    FixupCompleted { fixup: u64 },
    BufferEnqueue { occupancy: u32 },
    BufferDequeue { occupancy: u32 },
    BufferFull,
    RoutingStarted { gate: u64 },
    RoutingCompleted { gate: u64, latency: u32 },
    MeasurementOutcome { gate: u64, outcome: MeasurementOutcome },
    OpsActivated { gate: u64, activated_count: u32 },
}

/// Complete execution trace: the primary output of the engine.
///
/// The logical error probability per consumed magic state is held as the
/// IEEE-754 binary64 bit pattern of the value.
#[derive(Debug, Clone, PartialEq)]
pub struct Trace {
    pub schema_version: String,
    pub events: Vec<TraceEvent>,
    pub seed: u64,
    pub total_cycles: u64,
    /// True if simulation was stopped by `max_cycles` before all ops completed.
    pub truncated: bool,
    /// Bit pattern of the logical error probability per consumed magic state.
    pub p_logical_bits: u64,
    /// Total magic states consumed during simulation.
    pub magic_states_consumed: u64,
}

/// Append-only event accumulator.
pub struct TraceCollector {
    events: Vec<TraceEvent>,
}

impl View for TraceCollector {
    type V = Seq<TraceEvent>;

    closed spec fn view(&self) -> Seq<TraceEvent> {
        self.events@
    }
}

/// The magic states consumed in `t`: one per gate served from the buffer.
pub open spec fn states_consumed(t: Seq<TraceEvent>) -> nat
    decreases t.len(),
{
    if t.len() == 0 {
        0
    } else {
        states_consumed(t.drop_last()) + if t.last().kind is GateServed {
            1nat
        } else {
            0nat
        }
    }
}

impl TraceCollector {
    /// Create an empty collector with room for `capacity_hint` events.
    pub fn new(capacity_hint: usize) -> (c: Self)
        ensures
            c@ == Seq::<TraceEvent>::empty(),
    {
        TraceCollector { events: Vec::with_capacity(capacity_hint) }
    }

    /// The magic states consumed in the events collected so far.
    pub fn consumed_states(&self) -> (n: u64)
        ensures
            n == states_consumed(self@),
    {
        let mut n: u64 = 0;
        let mut i: usize = 0;
        while i < self.events.len()
            invariant
                i <= self.events@.len(),
                n == states_consumed(self.events@.take(i as int)),
                n <= i,
            decreases self.events@.len() - i,
        {
            proof {
                assert(self.events@.take(i as int + 1).drop_last() =~= self.events@.take(i as int));
            }
            match self.events[i].kind {
                TraceEventKind::GateServed { .. } => {
                    n = n + 1;
                },
                _ => {},
            }
            i += 1;
        }
        proof {
            assert(self.events@.take(self.events@.len() as int) =~= self.events@);
        }
        n
    }

    /// A collector holds at most `usize::MAX` events.
    pub proof fn lemma_len_bound(&self)
        ensures
            self@.len() <= usize::MAX,
    {
        assert(self.events.len() == self.events@.len());
    }

    /// Append one event.
    pub fn record(&mut self, cycle: u64, kind: TraceEventKind)
        ensures
            final(self)@ == old(self)@.push(TraceEvent { cycle, kind }),
    {
        self.events.push(TraceEvent { cycle, kind });
    }

    /// The events recorded so far.
    pub fn len(&self) -> (n: usize)
        ensures
            n == self@.len(),
    {
        self.events.len()
    }

    /// Seal the event stream into a complete trace.
    pub fn finish(self, seed: u64, total_cycles: u64, p_logical_bits: u64, magic_states_consumed: u64) -> (t: Trace)
        ensures
            t.schema_version@ == "1.1"@,
            t.events@ == self@,
            t.seed == seed,
            t.total_cycles == total_cycles,
            !t.truncated,
            t.p_logical_bits == p_logical_bits,
            t.magic_states_consumed == magic_states_consumed,
    {
        Trace {
            schema_version: "1.1".to_owned(),
            events: self.events,
            seed,
            total_cycles,
            truncated: false,
            p_logical_bits,
            magic_states_consumed,
        }
    }

    /// Seal the event stream as a truncated trace (stopped by `max_cycles`).
    pub fn finish_truncated(
        self,
        seed: u64,
        total_cycles: u64,
        p_logical_bits: u64,
        magic_states_consumed: u64,
    ) -> (t: Trace)
        ensures
            t.schema_version@ == "1.1"@,
            t.events@ == self@,
            t.seed == seed,
            t.total_cycles == total_cycles,
            t.truncated,
            t.p_logical_bits == p_logical_bits,
            t.magic_states_consumed == magic_states_consumed,
    {
        Trace {
            schema_version: "1.1".to_owned(),
            events: self.events,
            seed,
            total_cycles,
            truncated: true,
            p_logical_bits,
            magic_states_consumed,
        }
    }
}

/// The view of a collector made by `TraceCollector::new(hint)` after
/// `record(cycle, kind)` was called with each pair of `calls` in order.
pub open spec fn collected(hint: usize, calls: Seq<(u64, TraceEventKind)>) -> Seq<TraceEvent>
    decreases calls.len(),
{
    if calls.len() == 0 {
        Seq::empty()
    } else {
        collected(hint, calls.drop_last()).push(TraceEvent { cycle: calls.last().0, kind: calls.last().1 })
    }
}

/// The capacity hint has no observable effect: collectors made with any two
/// hints and given the same `record` calls hold the same events, those of
/// the calls in order, and so seal into the same trace.
pub proof fn law_capacity_hint_unobservable(h1: usize, h2: usize, calls: Seq<(u64, TraceEventKind)>)
    ensures
        collected(h1, calls) == collected(h2, calls),
        collected(h1, calls) == calls.map_values(|c: (u64, TraceEventKind)| TraceEvent { cycle: c.0, kind: c.1 }),
    decreases calls.len(),
{
    if calls.len() > 0 {
        law_capacity_hint_unobservable(h1, h2, calls.drop_last());
        assert(collected(h1, calls) =~= calls.map_values(|c: (u64, TraceEventKind)| TraceEvent { cycle: c.0, kind: c.1 }));
    }
}

} // verus!
