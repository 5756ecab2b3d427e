//! Discrete-event simulation engine.
//!
//! `Engine` drives the circuit graph through factory events, gate
//! scheduling, magic-state consumption, stall tracking and injection-error
//! recovery. Every stochastic decision (a factory's production time, an
//! injection error, a measurement outcome) is asked of an [`EngineOracle`];
//! the engine is verified for every answer it may give.

use std::collections::VecDeque;

use vstd::prelude::*;

use crate::buffer::MagicStateBuffer;
use crate::circuit::ConditionalActivation;
use crate::circuit::MeasurementHook;
use crate::circuit::MeasurementHookId;
use crate::circuit::Operation;
use crate::circuit::MeasurementOutcome;
use crate::dag::angle_table_of;
use crate::dag::count_active;
use crate::dag::Dag;
use crate::dag::DagBuild;
use crate::dag::DagError;
use crate::dag::ready_roots;
use crate::dag::OpData;
use crate::dag::OpKind;
use crate::events::EngineEvent;
use crate::events::EventQueue;
use crate::events::TimedEvent;
use crate::events::inserted_in_order;
use crate::events::next_seq_after;
use crate::factory::FactoryOutcome;
use crate::ready_queue::FifoReadyQueue;
use crate::ready_queue::OpKey;
use crate::ready_queue::ReadyQueue;
use crate::routing::build_position_index;
use crate::routing::RoutingKind;
use crate::routing::RoutingModel;
use crate::trace::Trace;
use crate::trace::TraceCollector;
use crate::trace::TraceEvent;
use crate::trace::TraceEventKind;
use crate::trace::SYNTHETIC_ID_FLAG;
use crate::validate::lemma_valid_target_exists;
use crate::validate::ValidatedCircuit;

verus! {

/// Configuration for [`Engine`] construction.
#[derive(Debug, Clone, Copy)]
pub struct EngineConfig {
    /// Seed of the random streams. Same seed and inputs give the same trace.
    pub seed: u64,
    /// Maximum simulation cycles. `None` runs to completion. When hit, the
    /// engine stops and the trace records `truncated: true`.
    pub max_cycles: Option<u64>,
}

/// The hardware parameters the engine uses, as plain values.
pub struct EngineParams {
    /// Number of magic-state factories.
    pub factory_count: u32,
    /// Buffer capacity.
    pub buffer_capacity: u32,
    /// States in the buffer at cycle zero (clamped to the capacity).
    pub buffer_preload: u32,
    /// The routing cost model.
    pub routing: RoutingKind,
    /// QEC cycles per measurement.
    pub measurement_cycles: u32,
    /// Classical feedback delay in QEC cycles (0: instant activation).
    pub feedback_delay: u64,
    /// QEC cycles per injected fixup.
    pub fixup_cost_cycles: u32,
    /// Bit pattern of the logical error probability per consumed state.
    pub p_logical_bits: u64,
}

/// Errors that can occur during engine construction.
#[derive(Debug)]
pub enum EngineError {
    TooManyRotationAngles(usize),
    NoFactories,
    ZeroBuffer,
    MissingQubitPositions,
    DanglingHookTarget { hook_id: MeasurementHookId, op_id: u64 },
    Internal(String),
}

impl EngineError {
    /// The error for a graph construction failure.
    pub fn from_dag(err: DagError) -> (e: Self)
        ensures
            err matches DagError::TooManyDistinctAngles(n) ==> e == EngineError::TooManyRotationAngles(n),
            err matches DagError::Internal(m) ==> e matches EngineError::Internal(m2) && m2@ == m@,
    {
        match err {
            DagError::TooManyDistinctAngles(n) => EngineError::TooManyRotationAngles(n),
            DagError::Internal(msg) => EngineError::Internal(msg),
        }
    }
}

/// Where the engine gets its stochastic decisions from.
///
/// What the engine does with each answer is stated by the functions that
/// take it as an argument: [`start_factories`] and [`Engine::schedule_attempt`]
/// for factory outcomes, [`Engine::complete_gate_with`] for injection errors
/// and measurement outcomes, and [`Engine::dispatch_hook_with`] for
/// measurement outcomes.
pub trait EngineOracle {
    /// Whether the magic state consumed by a completing T-gate or rotation
    /// suffered an injection error.
    fn injection_error(&mut self) -> bool;

    /// The outcome of a measurement that carries a hook.
    fn measurement_outcome(&mut self) -> MeasurementOutcome;

    /// The outcome of the production attempt that factory `factory_id`
    /// starts at `current_cycle`.
    fn factory_outcome(&mut self, factory_id: u16, current_cycle: u64) -> FactoryOutcome;
}

// ── The laws the trace obeys ────────────────────────────────────────────────

/// Kinds that consume a magic state.
pub open spec fn needs_magic(k: OpKind) -> bool {
    k is TGate || k is Rotation
}

/// No operation consumes a magic state.
pub open spec fn magic_free(ops: Seq<OpData>) -> bool {
    forall|i: int| 0 <= i < ops.len() ==> !needs_magic(#[trigger] ops[i].kind)
}

/// Completion events: of a gate or of a fixup.
pub open spec fn is_completion(k: TraceEventKind) -> bool {
    k is GateCompleted || k is FixupCompleted
}

/// The number of completion events in `t`.
pub open spec fn completions(t: Seq<TraceEvent>) -> nat
    decreases t.len(),
{
    if t.len() == 0 {
        0
    } else {
        completions(t.drop_last()) + if is_completion(t.last().kind) {
            1nat
        } else {
            0nat
        }
    }
}

/// A buffer event reports an occupancy within `cap`.
pub open spec fn occupancy_ok(k: TraceEventKind, cap: nat) -> bool {
    match k {
        TraceEventKind::BufferEnqueue { occupancy } => occupancy <= cap,
        TraceEventKind::BufferDequeue { occupancy } => occupancy <= cap,
        _ => true,
    }
}

/// The trace is ordered by cycle, reaches no later than `cur`, and every
/// buffer event reports an occupancy within `cap`.
pub open spec fn trace_ok(t: Seq<TraceEvent>, cur: u64, cap: nat) -> bool {
    &&& forall|i: int, j: int| 0 <= i < j < t.len() ==> #[trigger] t[i].cycle <= #[trigger] t[j].cycle
    &&& forall|i: int| 0 <= i < t.len() ==> (#[trigger] t[i]).cycle <= cur
    &&& forall|i: int| 0 <= i < t.len() ==> occupancy_ok((#[trigger] t[i]).kind, cap)
}

/// No stall event in `t`.
pub open spec fn no_stalls(t: Seq<TraceEvent>) -> bool {
    forall|i: int| 0 <= i < t.len() ==> !((#[trigger] t[i]).kind is GateStalled)
}

/// The operation an engine event refers to lies in the arena of `n` nodes.
pub open spec fn event_in_range(e: EngineEvent, n: nat) -> bool {
    match e {
        EngineEvent::GateCompleted { gate } => (gate.0 as int) < n,
        EngineEvent::HookActivation { gate, .. } => (gate.0 as int) < n,
        _ => true,
    }
}

/// A trace event at `cycle`.
pub open spec fn ev(cycle: u64, kind: TraceEventKind) -> TraceEvent {
    TraceEvent { cycle, kind }
}

/// The routing events of a gate with trace id `id` and routing latency
/// `lat`, recorded at `cur`: none when the latency is zero.
pub open spec fn routing_events(id: u64, lat: u32, cur: u64) -> Seq<TraceEvent> {
    if lat > 0 {
        seq![
            ev(cur, TraceEventKind::RoutingStarted { gate: id }),
            ev(cur, TraceEventKind::RoutingCompleted { gate: id, latency: lat }),
        ]
    } else {
        Seq::empty()
    }
}

/// `x + y` saturated to `u32`.
pub open spec fn sat_add_u32(x: u32, y: u32) -> u32 {
    if x + y > u32::MAX {
        u32::MAX
    } else {
        (x + y) as u32
    }
}

/// `x + y` saturated to `u64`.
pub open spec fn sat_add_u64(x: u64, y: u64) -> u64 {
    if x + y > u64::MAX {
        u64::MAX
    } else {
        (x + y) as u64
    }
}

/// The wait of a gate stalled at `since` and served at `cur`, saturated to
/// `u32`.
pub open spec fn wait_since(cur: u64, since: u64) -> u32 {
    if cur - since > u32::MAX {
        u32::MAX
    } else {
        (cur - since) as u32
    }
}

/// `states` is a run of the queue from `before` through the insertion of
/// each event of `evs` in turn.
pub open spec fn schedule_run(states: Seq<Seq<TimedEvent>>, before: Seq<TimedEvent>, evs: Seq<TimedEvent>) -> bool {
    &&& states.len() == evs.len() + 1
    &&& states[0] == before
    &&& forall|i: int| 0 <= i < evs.len() ==> inserted_in_order(#[trigger] states[i], evs[i], states[i + 1])
}

/// `after` is `before` with the events `evs` scheduled one after another.
pub open spec fn scheduled_all(before: Seq<TimedEvent>, evs: Seq<TimedEvent>, after: Seq<TimedEvent>) -> bool {
    exists|states: Seq<Seq<TimedEvent>>| #[trigger] schedule_run(states, before, evs) && states.last() == after
}

proof fn lemma_scheduled_none(before: Seq<TimedEvent>)
    ensures
        scheduled_all(before, Seq::empty(), before),
{
    let states = seq![before];
    assert(schedule_run(states, before, Seq::empty()));
}

proof fn lemma_scheduled_push(before: Seq<TimedEvent>, evs: Seq<TimedEvent>, mid: Seq<TimedEvent>, e: TimedEvent, after: Seq<TimedEvent>)
    requires
        scheduled_all(before, evs, mid),
        inserted_in_order(mid, e, after),
    ensures
        scheduled_all(before, evs.push(e), after),
{
    let states = choose|states: Seq<Seq<TimedEvent>>| #[trigger] schedule_run(states, before, evs) && states.last() == mid;
    let states2 = states.push(after);
    let evs2 = evs.push(e);
    assert forall|i: int| 0 <= i < evs2.len() implies inserted_in_order(#[trigger] states2[i], evs2[i], states2[i + 1]) by {
        if i < evs.len() {
            assert(states2[i] == states[i]);
            assert(states2[i + 1] == states[i + 1]);
            assert(inserted_in_order(states[i], evs[i], states[i + 1]));
        } else {
            assert(states2[i] == mid);
        }
    }
    assert(schedule_run(states2, before, evs2));
}

proof fn lemma_trace_push(t: Seq<TraceEvent>, e: TraceEvent, cur: u64, cap: nat)
    requires
        trace_ok(t, cur, cap),
        e.cycle == cur,
        occupancy_ok(e.kind, cap),
    ensures
        trace_ok(t.push(e), cur, cap),
        completions(t.push(e)) == completions(t) + if is_completion(e.kind) {
            1nat
        } else {
            0nat
        },
        no_stalls(t) && !(e.kind is GateStalled) ==> no_stalls(t.push(e)),
{
    let t2 = t.push(e);
    assert(t2.drop_last() =~= t);
    assert forall|i: int, j: int| 0 <= i < j < t2.len() implies #[trigger] t2[i].cycle <= #[trigger] t2[j].cycle by {
        if j < t.len() {
            assert(t[i].cycle <= t[j].cycle);
        } else {
            assert(t[i].cycle <= cur);
        }
    }
    assert forall|i: int| 0 <= i < t2.len() implies (#[trigger] t2[i]).cycle <= cur by {
        if i < t.len() {
            assert(t[i].cycle <= cur);
        }
    }
    assert forall|i: int| 0 <= i < t2.len() implies occupancy_ok((#[trigger] t2[i]).kind, cap) by {
        if i < t.len() {
            assert(occupancy_ok(t[i].kind, cap));
        }
    }
    if no_stalls(t) && !(e.kind is GateStalled) {
        assert forall|i: int| 0 <= i < t2.len() implies !((#[trigger] t2[i]).kind is GateStalled) by {
            if i < t.len() {
                assert(!(t[i].kind is GateStalled));
            }
        }
    }
}

proof fn lemma_trace_later(t: Seq<TraceEvent>, cur: u64, cur2: u64, cap: nat)
    requires
        trace_ok(t, cur, cap),
        cur <= cur2,
    ensures
        trace_ok(t, cur2, cap),
{
    assert forall|i: int| 0 <= i < t.len() implies (#[trigger] t[i]).cycle <= cur2 by {
        assert(t[i].cycle <= cur);
    }
}

/// Append an event at `cycle`, keeping the trace laws.
fn emit(trace: &mut TraceCollector, cycle: u64, kind: TraceEventKind, Ghost(cap): Ghost<nat>)
    requires
        trace_ok(old(trace)@, cycle, cap),
        occupancy_ok(kind, cap),
    ensures
        final(trace)@ == old(trace)@.push(TraceEvent { cycle, kind }),
        trace_ok(final(trace)@, cycle, cap),
        completions(final(trace)@) == completions(old(trace)@) + if is_completion(kind) {
            1nat
        } else {
            0nat
        },
        no_stalls(old(trace)@) && !(kind is GateStalled) ==> no_stalls(final(trace)@),
{
    proof {
        lemma_trace_push(old(trace)@, TraceEvent { cycle, kind }, cycle, cap);
    }
    trace.record(cycle, kind);
}

/// Index into the hook table for a `(hook_id, outcome)` pair:
/// `hook_id * 2 + ordinal`, with `Zero` and `One` at ordinals 0 and 1,
/// saturating at `usize::MAX`.
pub open spec fn hook_index_spec(hook_id: MeasurementHookId, outcome: MeasurementOutcome) -> int {
    let ordinal: int = match outcome {
        MeasurementOutcome::Zero => 0,
        MeasurementOutcome::One => 1,
    };
    let doubled = if 2 * hook_id > usize::MAX {
        usize::MAX as int
    } else {
        2 * hook_id
    };
    if doubled + ordinal > usize::MAX {
        usize::MAX as int
    } else {
        doubled + ordinal
    }
}

/// The ordinal of a measurement outcome: 0 for `Zero`, 1 for `One`.
pub open spec fn outcome_ordinal(o: MeasurementOutcome) -> int {
    match o {
        MeasurementOutcome::Zero => 0,
        MeasurementOutcome::One => 1,
    }
}

/// Where `2 * hook_id + 1` fits a `usize` (always on 64-bit targets), the
/// hook-table index of `(hook_id, outcome)` is `2 * hook_id` plus the
/// outcome's ordinal, so distinct pairs have distinct indices.
pub proof fn law_hook_index(h1: MeasurementHookId, o1: MeasurementOutcome, h2: MeasurementHookId, o2: MeasurementOutcome)
    requires
        2 * h1 + 1 <= usize::MAX,
        2 * h2 + 1 <= usize::MAX,
    ensures
        hook_index_spec(h1, o1) == 2 * h1 + outcome_ordinal(o1),
        (h1, o1) != (h2, o2) ==> hook_index_spec(h1, o1) != hook_index_spec(h2, o2),
{
}

/// Index into the hook table for a `(hook_id, outcome)` pair.
pub fn hook_table_index(hook_id: MeasurementHookId, outcome: MeasurementOutcome) -> (idx: usize)
    ensures
        idx == hook_index_spec(hook_id, outcome),
{
    let ordinal: usize = match outcome {
        MeasurementOutcome::Zero => 0,
        MeasurementOutcome::One => 1,
    };
    let h = hook_id as usize;
    let doubled: usize = match h.checked_mul(2) {
        Some(d) => d,
        None => usize::MAX,
    };
    doubled.saturating_add(ordinal)
}

/// Discrete-event simulation engine.
pub struct Engine {
    dag: Dag,
    ready_set: FifoReadyQueue,
    factory_count: u32,
    buffer: MagicStateBuffer,
    routing: RoutingKind,
    position_index: Vec<(u32, u32)>,
    event_queue: EventQueue,
    current_cycle: u64,
    seed: u64,
    max_cycles: Option<u64>,
    feedback_delay: u64,
    /// Ready T-gates waiting for a magic state, with the cycle they stalled at.
    stalled_gates: VecDeque<(OpKey, u64)>,
    /// Activation targets, indexed by [`hook_table_index`].
    hook_table: Vec<Vec<OpKey>>,
    /// Completed operations, indexed by key.
    completed: Vec<bool>,
    total_ops: u64,
    completed_ops: u64,
    /// Stable trace ids: IR operation id, or synthetic id for fixups.
    key_to_op_id: Vec<u64>,
    next_synthetic_id: u64,
    p_logical_bits: u64,
    trace: TraceCollector,
}

impl Engine {
    /// The trace recorded so far.
    pub closed spec fn trace_spec(&self) -> Seq<TraceEvent> {
        self.trace@
    }

    /// The cycle being simulated.
    pub closed spec fn cycle_spec(&self) -> u64 {
        self.current_cycle
    }

    /// Operations completed so far.
    pub closed spec fn completed_ops_spec(&self) -> u64 {
        self.completed_ops
    }

    /// Operations that must complete before the run is over.
    pub closed spec fn total_ops_spec(&self) -> u64 {
        self.total_ops
    }

    /// The buffer's capacity.
    pub closed spec fn capacity_spec(&self) -> nat {
        self.buffer.capacity_spec()
    }

    /// The stable trace id of `key`: 0 outside the arena.
    pub closed spec fn trace_id_spec(&self, key: OpKey) -> u64 {
        if (key.0 as int) < self.key_to_op_id@.len() {
            self.key_to_op_id@[key.0 as int]
        } else {
            0
        }
    }

    /// The circuit graph.
    pub closed spec fn dag_spec(&self) -> Dag {
        self.dag
    }

    /// The buffer's occupancy.
    pub closed spec fn occupancy_spec(&self) -> nat {
        self.buffer.occupancy_spec()
    }

    /// The gates waiting in the ready queue, front first.
    pub closed spec fn ready_spec(&self) -> Seq<OpKey> {
        self.ready_set.queued()
    }

    /// The stalled gates with the cycles they stalled at, oldest first.
    pub closed spec fn stalled_spec(&self) -> Seq<(OpKey, u64)> {
        self.stalled_gates@
    }

    /// The number of factories.
    pub closed spec fn factory_count_spec(&self) -> u32 {
        self.factory_count
    }

    /// The sequence number the next scheduled event receives.
    pub closed spec fn next_seq_spec(&self) -> u64 {
        self.event_queue.next_seq_spec()
    }

    /// The kind of operation `g`.
    pub closed spec fn kind_of(&self, g: OpKey) -> OpKind {
        self.dag.ops_spec()[g.0 as int].kind
    }

    /// The routing latency of operation `g`.
    pub closed spec fn latency_of(&self, g: OpKey) -> u32 {
        self.routing.latency_spec(self.dag.ops_spec()[g.0 as int].qubits@, self.position_index@)
    }

    /// The cycles operation `g` takes: its base cost plus its routing
    /// latency, saturating.
    pub closed spec fn cost_of(&self, g: OpKey) -> u32 {
        sat_add_u32(self.dag.ops_spec()[g.0 as int].cycle_cost, self.latency_of(g))
    }

    /// Completion flags, indexed by key.
    pub closed spec fn completed_spec(&self) -> Seq<bool> {
        self.completed@
    }

    /// Trace ids, indexed by key.
    pub closed spec fn key_ids_spec(&self) -> Seq<u64> {
        self.key_to_op_id@
    }

    /// The counter of the next fixup's synthetic id.
    pub closed spec fn next_synthetic_spec(&self) -> u64 {
        self.next_synthetic_id
    }

    /// Number of entries of the hook table.
    pub closed spec fn hook_len_spec(&self) -> nat {
        self.hook_table@.len()
    }

    /// Entry `idx` of the hook table: the operations to activate; empty
    /// beyond the table's end.
    pub closed spec fn hook_entry(&self, idx: int) -> Seq<OpKey> {
        if 0 <= idx < self.hook_table@.len() {
            self.hook_table@[idx]@
        } else {
            Seq::empty()
        }
    }

    /// The hook table: for each index the operations to activate.
    pub closed spec fn hook_table_spec(&self) -> Seq<Seq<OpKey>> {
        self.hook_table@.map_values(|v: Vec<OpKey>| v@)
    }

    /// States with the same configuration have the same hook table.
    pub proof fn lemma_same_config_hooks(&self, other: &Engine)
        requires
            self.same_config(other),
        ensures
            self.hook_table_spec() == other.hook_table_spec(),
    {
    }

    /// States with the same hook table have the same hook entries.
    pub proof fn lemma_hook_entries_agree(&self, other: &Engine)
        requires
            self.hook_table_spec() == other.hook_table_spec(),
        ensures
            forall|i: int| #[trigger] self.hook_entry(i) == other.hook_entry(i),
    {
        assert(self.hook_table_spec().len() == self.hook_table@.len());
        assert(other.hook_table_spec().len() == other.hook_table@.len());
        assert forall|i: int| #[trigger] self.hook_entry(i) == other.hook_entry(i) by {
            if 0 <= i < self.hook_table@.len() {
                assert(self.hook_table_spec()[i] == self.hook_table@[i]@);
                assert(other.hook_table_spec()[i] == other.hook_table@[i]@);
            }
        }
    }

    /// The classical feedback delay, in cycles.
    pub closed spec fn feedback_delay_spec(&self) -> u64 {
        self.feedback_delay
    }

    /// The routing model.
    pub closed spec fn routing_spec(&self) -> RoutingKind {
        self.routing
    }

    /// Grid position of each qubit, indexed by qubit.
    pub closed spec fn positions_spec(&self) -> Seq<(u32, u32)> {
        self.position_index@
    }

    /// Both states have the same configuration and current cycle.
    pub closed spec fn same_config(&self, other: &Engine) -> bool {
        &&& self.routing == other.routing
        &&& self.position_index == other.position_index
        &&& self.factory_count == other.factory_count
        &&& self.hook_table == other.hook_table
        &&& self.feedback_delay == other.feedback_delay
        &&& self.max_cycles == other.max_cycles
        &&& self.seed == other.seed
        &&& self.p_logical_bits == other.p_logical_bits
        &&& self.buffer.capacity_spec() == other.buffer.capacity_spec()
        &&& self.current_cycle == other.current_cycle
    }

    /// The parts of the engine that scheduling gates leaves unchanged.
    pub closed spec fn same_setup(&self, other: &Engine) -> bool {
        &&& self.dag == other.dag
        &&& self.key_to_op_id == other.key_to_op_id
        &&& self.routing == other.routing
        &&& self.position_index == other.position_index
        &&& self.current_cycle == other.current_cycle
        &&& self.factory_count == other.factory_count
        &&& self.hook_table == other.hook_table
        &&& self.feedback_delay == other.feedback_delay
        &&& self.completed == other.completed
        &&& self.completed_ops == other.completed_ops
        &&& self.total_ops == other.total_ops
        &&& self.next_synthetic_id == other.next_synthetic_id
        &&& self.max_cycles == other.max_cycles
        &&& self.seed == other.seed
        &&& self.p_logical_bits == other.p_logical_bits
        &&& self.buffer.capacity_spec() == other.buffer.capacity_spec()
    }

    /// The state every engine keeps between calls.
    pub closed spec fn inv(&self) -> bool {
        let n = self.dag.len_spec();
        &&& self.dag.wf()
        &&& self.key_to_op_id@.len() == n
        &&& self.completed@.len() == n
        &&& forall|i: int|
            0 <= i < self.ready_set.queued().len() ==> (#[trigger] self.ready_set.queued()[i]).0 < n
        &&& forall|i: int|
            0 <= i < self.stalled_gates@.len() ==> (#[trigger] self.stalled_gates@[i]).0.0 < n
                && self.stalled_gates@[i].1 <= self.current_cycle
        &&& forall|x: TimedEvent|
            #[trigger] self.event_queue.pending().contains(x) ==> x.cycle >= self.current_cycle
                && event_in_range(x.event, n)
        &&& forall|h: int, j: int|
            0 <= h < self.hook_table@.len() && 0 <= j < self.hook_table@[h]@.len() ==> (
            #[trigger] self.hook_table@[h]@[j]).0 < n
        &&& trace_ok(self.trace@, self.current_cycle, self.buffer.capacity_spec())
        &&& self.completed_ops == completions(self.trace@)
        &&& magic_free(self.dag.ops_spec()) ==> no_stalls(self.trace@) && self.stalled_gates@.len() == 0
    }
}


/// The event of a factory attempt started at `cur` with outcome `o`,
/// scheduled with sequence number `seq`: the production or failure of
/// factory `f` at the cycle the outcome gives, or at `cur` when that is
/// earlier.
pub open spec fn attempt_event(o: FactoryOutcome, f: u16, seq: u64, cur: u64) -> TimedEvent {
    match o {
        FactoryOutcome::Produced { completion_cycle } => TimedEvent {
            cycle: if completion_cycle < cur { cur } else { completion_cycle },
            seq,
            event: EngineEvent::FactoryProduced { factory_id: f },
        },
        FactoryOutcome::Failed { failure_cycle } => TimedEvent {
            cycle: if failure_cycle < cur { cur } else { failure_cycle },
            seq,
            event: EngineEvent::FactoryFailed { factory_id: f },
        },
    }
}

impl Engine {
    /// The ready queue, the stalled gates and the buffer are the same.
    pub open spec fn same_sched(&self, n: &Engine) -> bool {
        &&& n.ready_spec() == self.ready_spec()
        &&& n.stalled_spec() == self.stalled_spec()
        &&& n.occupancy_spec() == self.occupancy_spec()
    }

    /// The completion flags, the counters and the trace ids are the same.
    pub open spec fn same_books(&self, n: &Engine) -> bool {
        &&& n.completed_spec() == self.completed_spec()
        &&& n.completed_ops_spec() == self.completed_ops_spec()
        &&& n.total_ops_spec() == self.total_ops_spec()
        &&& n.key_ids_spec() == self.key_ids_spec()
        &&& n.next_synthetic_spec() == self.next_synthetic_spec()
    }

    /// The pending events and the sequence counter are the same.
    pub open spec fn same_queue(&self, n: &Engine) -> bool {
        &&& n.pending_spec() == self.pending_spec()
        &&& n.next_seq_spec() == self.next_seq_spec()
    }

    /// Factory `f`, if it exists, starts its next attempt, whose outcome is
    /// `o`: a start is recorded and the event of `o` is scheduled with the
    /// next sequence number.
    pub open spec fn factory_restarted_with(&self, n: &Engine, f: u16, o: FactoryOutcome) -> bool {
        &&& self.same_sched(n)
        &&& self.same_books(n)
        &&& n.dag_spec() == self.dag_spec()
        &&& n.same_config(self)
        &&& if (f as u32) < self.factory_count_spec() {
            &&& n.trace_spec() == self.trace_spec().push(
                ev(self.cycle_spec(), TraceEventKind::FactoryStarted { factory_id: f }),
            )
            &&& n.next_seq_spec() == next_seq_after(self.next_seq_spec())
            &&& inserted_in_order(
                self.pending_spec(),
                attempt_event(o, f, self.next_seq_spec(), self.cycle_spec()),
                n.pending_spec(),
            )
        } else {
            &&& n.trace_spec() == self.trace_spec()
            &&& self.same_queue(n)
        }
    }

    /// Factory `f`, if it exists, starts its next attempt with some outcome.
    pub open spec fn factory_restarted(&self, n: &Engine, f: u16) -> bool {
        exists|o: FactoryOutcome| #[trigger] self.factory_restarted_with(n, f, o)
    }

    /// The events recorded when factory `f` produces (or fails): the
    /// outcome, then for a production the buffer's response.
    pub open spec fn factory_outcome_events(&self, f: u16, produced: bool) -> Seq<TraceEvent> {
        let cur = self.cycle_spec();
        if produced {
            seq![
                ev(cur, TraceEventKind::FactoryProduced { factory_id: f }),
                if self.occupancy_spec() < self.capacity_spec() {
                    ev(cur, TraceEventKind::BufferEnqueue { occupancy: (self.occupancy_spec() + 1) as u32 })
                } else {
                    ev(cur, TraceEventKind::BufferFull)
                },
            ]
        } else {
            seq![ev(cur, TraceEventKind::FactoryFailed { factory_id: f })]
        }
    }

    /// Processing the production (or failure) of factory `f`: the outcome
    /// is recorded, a produced state enters the buffer unless it is full,
    /// and the factory starts its next attempt.
    pub open spec fn factory_step(&self, n: &Engine, f: u16, produced: bool) -> bool {
        exists|m: Engine| #[trigger]
            self.factory_outcome_recorded(&m, f, produced) && m.factory_restarted(n, f)
    }

    /// The outcome of factory `f` is recorded and a produced state stored.
    pub open spec fn factory_outcome_recorded(&self, m: &Engine, f: u16, produced: bool) -> bool {
        &&& m.trace_spec() == self.trace_spec() + self.factory_outcome_events(f, produced)
        &&& m.occupancy_spec() == if produced && self.occupancy_spec() < self.capacity_spec() {
            self.occupancy_spec() + 1
        } else {
            self.occupancy_spec()
        }
        &&& m.ready_spec() == self.ready_spec()
        &&& m.stalled_spec() == self.stalled_spec()
        &&& self.same_books(m)
        &&& self.same_queue(m)
        &&& m.dag_spec() == self.dag_spec()
        &&& m.same_config(self)
    }

    /// Activation of the hook entry for `(h, o)` on behalf of `gate`: when
    /// the entry is not empty, its operations are activated, those with no
    /// live predecessor queued, and the activation recorded.
    pub open spec fn hook_activated(&self, n: &Engine, gate: OpKey, h: MeasurementHookId, o: MeasurementOutcome) -> bool {
        let keys = self.hook_entry(hook_index_spec(h, o));
        if keys.len() == 0 {
            *n == *self
        } else {
            &&& n.trace_spec() == self.trace_spec().push(
                ev(
                    self.cycle_spec(),
                    TraceEventKind::OpsActivated { gate: self.trace_id_spec(gate), activated_count: keys.len() as u32 },
                ),
            )
            &&& self.dag_spec().activated_to(n.dag_spec(), keys, self.completed_spec())
            &&& n.ready_spec() == self.ready_spec() + self.dag_spec().activation_pushes(keys, self.completed_spec())
            &&& n.stalled_spec() == self.stalled_spec()
            &&& n.occupancy_spec() == self.occupancy_spec()
            &&& self.same_books(n)
            &&& self.same_queue(n)
            &&& n.same_config(self)
        }
    }

    /// Outcome `o` of measurement `gate` is recorded and the operations it
    /// activates counted: the total becomes `total`.
    pub open spec fn outcome_recorded(&self, m: &Engine, gate: OpKey, o: MeasurementOutcome, total: u64) -> bool {
        &&& m.trace_spec() == self.trace_spec().push(
            ev(self.cycle_spec(), TraceEventKind::MeasurementOutcome { gate: self.trace_id_spec(gate), outcome: o }),
        )
        &&& m.total_ops_spec() == total
        &&& m.completed_spec() == self.completed_spec()
        &&& m.completed_ops_spec() == self.completed_ops_spec()
        &&& m.key_ids_spec() == self.key_ids_spec()
        &&& m.next_synthetic_spec() == self.next_synthetic_spec()
        &&& self.same_sched(m)
        &&& self.same_queue(m)
        &&& m.dag_spec() == self.dag_spec()
        &&& m.same_config(self)
    }

    /// The activation for `(h, o)` on behalf of `gate` is scheduled after
    /// the feedback delay.
    pub open spec fn activation_scheduled(&self, n: &Engine, gate: OpKey, h: MeasurementHookId, o: MeasurementOutcome) -> bool {
        &&& inserted_in_order(
            self.pending_spec(),
            TimedEvent {
                cycle: sat_add_u64(self.cycle_spec(), self.feedback_delay_spec()),
                seq: self.next_seq_spec(),
                event: EngineEvent::HookActivation { gate, hook_id: h, outcome: o },
            },
            n.pending_spec(),
        )
        &&& n.next_seq_spec() == next_seq_after(self.next_seq_spec())
        &&& n.trace_spec() == self.trace_spec()
        &&& self.same_sched(n)
        &&& self.same_books(n)
        &&& n.dag_spec() == self.dag_spec()
        &&& n.same_config(self)
    }

    /// Measurement `gate` with hook `h` has outcome `o`: the outcome is
    /// recorded, the operations to activate are added to the total, and the
    /// activation happens now (no feedback delay) or is scheduled.
    pub open spec fn hook_dispatched(&self, n: &Engine, gate: OpKey, h: MeasurementHookId, o: MeasurementOutcome) -> bool {
        let total = sat_add_u64(self.total_ops_spec(), self.hook_entry(hook_index_spec(h, o)).len() as u64);
        exists|m: Engine| #[trigger]
            self.outcome_recorded(&m, gate, o, total) && if self.feedback_delay_spec() == 0 {
                m.hook_activated(n, gate, h, o)
            } else {
                m.activation_scheduled(n, gate, h, o)
            }
    }

    /// The trace event recording the completion of `g`.
    pub open spec fn completion_kind(&self, g: OpKey) -> TraceEventKind {
        if self.kind_of(g) is Fixup {
            TraceEventKind::FixupCompleted { fixup: self.trace_id_spec(g) }
        } else {
            TraceEventKind::GateCompleted { gate: self.trace_id_spec(g) }
        }
    }

    /// The completion of `g` is recorded and counted, and `g` marked
    /// completed when the circuit has hooks.
    pub open spec fn completion_recorded(&self, m: &Engine, g: OpKey) -> bool {
        &&& m.trace_spec() == self.trace_spec().push(ev(self.cycle_spec(), self.completion_kind(g)))
        &&& m.completed_ops_spec() == self.completed_ops_spec() + 1
        &&& m.completed_spec() == if self.hook_len_spec() > 0 {
            self.completed_spec().update(g.0 as int, true)
        } else {
            self.completed_spec()
        }
        &&& m.total_ops_spec() == self.total_ops_spec()
        &&& m.key_ids_spec() == self.key_ids_spec()
        &&& m.next_synthetic_spec() == self.next_synthetic_spec()
        &&& self.same_sched(m)
        &&& self.same_queue(m)
        &&& m.dag_spec() == self.dag_spec()
        &&& m.same_config(self)
    }

    /// An injection error on `g`, which consumed a magic state: it is
    /// recorded, and a fixup with the next synthetic id is inserted after
    /// `g`, queued, and counted.
    pub open spec fn fixup_inserted(&self, n: &Engine, g: OpKey) -> bool {
        let id = self.trace_id_spec(g);
        let sid = SYNTHETIC_ID_FLAG | self.next_synthetic_spec();
        let cur = self.cycle_spec();
        &&& needs_magic(self.kind_of(g))
        &&& n.trace_spec() == self.trace_spec() + seq![
            ev(cur, TraceEventKind::InjectionError { gate: id }),
            ev(cur, TraceEventKind::FixupInserted { fixup: sid, original: id }),
        ]
        &&& self.dag_spec().fixup_injected_to(n.dag_spec(), g)
        &&& n.ready_spec() == self.ready_spec().push(OpKey(self.dag_spec().len_spec() as usize))
        &&& n.key_ids_spec() == self.key_ids_spec().push(sid)
        &&& n.completed_spec() == self.completed_spec().push(false)
        &&& n.next_synthetic_spec() == sat_add_u64(self.next_synthetic_spec(), 1)
        &&& n.total_ops_spec() == sat_add_u64(self.total_ops_spec(), 1)
        &&& n.completed_ops_spec() == self.completed_ops_spec()
        &&& n.stalled_spec() == self.stalled_spec()
        &&& n.occupancy_spec() == self.occupancy_spec()
        &&& self.same_queue(n)
        &&& n.same_config(self)
    }

    /// The successors of `g` are released: those left with no pending
    /// predecessor and active are queued.
    pub open spec fn successors_released(&self, n: &Engine, g: OpKey) -> bool {
        &&& self.dag_spec().released_to(n.dag_spec(), g)
        &&& n.ready_spec() == self.ready_spec() + crate::dag::release(
            self.dag_spec().counts(),
            self.dag_spec().ops_spec(),
            self.dag_spec().succ_of(g.0 as int),
        ).1
        &&& n.trace_spec() == self.trace_spec()
        &&& n.stalled_spec() == self.stalled_spec()
        &&& n.occupancy_spec() == self.occupancy_spec()
        &&& self.same_books(n)
        &&& self.same_queue(n)
        &&& n.same_config(self)
    }

    /// The measurement hook of `g`, if it has one, is dispatched with
    /// outcome `o`.
    pub open spec fn hook_part_with(&self, b: &Engine, g: OpKey, o: MeasurementOutcome) -> bool {
        match self.kind_of(g) {
            OpKind::Measurement { hook: Some(h) } => self.hook_dispatched(b, g, h, o),
            _ => *b == *self,
        }
    }

    /// The measurement hook of `g`, if it has one, is dispatched with some
    /// outcome.
    pub open spec fn hook_part(&self, b: &Engine, g: OpKey) -> bool {
        exists|o: MeasurementOutcome| #[trigger] self.hook_part_with(b, g, o)
    }

    /// After `g`'s completion is recorded, given whether the magic state it
    /// consumed suffered an injection error and, for a measurement with a
    /// hook, its outcome: a gate that consumed a magic state with an
    /// injection error gets a fixup; otherwise its hook is dispatched with
    /// outcome `o` and its successors are released.
    pub open spec fn after_completion_with(
        &self,
        n: &Engine,
        g: OpKey,
        injection_error: bool,
        o: MeasurementOutcome,
    ) -> bool {
        if injection_error && needs_magic(self.kind_of(g)) {
            self.fixup_inserted(n, g)
        } else {
            exists|b: Engine| #[trigger] self.hook_part_with(&b, g, o) && b.successors_released(n, g)
        }
    }

    /// After `g`'s completion is recorded, with some injection answer and
    /// measurement outcome.
    pub open spec fn after_completion(&self, n: &Engine, g: OpKey) -> bool {
        exists|injection_error: bool, o: MeasurementOutcome| #[trigger]
            self.after_completion_with(n, g, injection_error, o)
    }

    /// Processing the completion of `g`.
    pub open spec fn gate_completed(&self, n: &Engine, g: OpKey) -> bool {
        exists|a: Engine| #[trigger] self.completion_recorded(&a, g) && a.after_completion(n, g)
    }

    /// The completion of `g` scheduled with sequence number `seq`: after
    /// `g`'s cost from now.
    pub open spec fn completion_event(&self, g: OpKey, seq: u64) -> TimedEvent {
        TimedEvent {
            cycle: sat_add_u64(self.cycle_spec(), self.cost_of(g) as u64),
            seq,
            event: EngineEvent::GateCompleted { gate: g },
        }
    }

    /// Serving the stalled gates `s`, oldest first, from a buffer holding
    /// `occ` states, scheduling from sequence number `seq`: the events
    /// recorded, the completions scheduled, the states left, the next
    /// sequence number, and the number of gates served.
    pub open spec fn serve_pass(&self, s: Seq<(OpKey, u64)>, occ: nat, seq: u64) -> (
        Seq<TraceEvent>,
        Seq<TimedEvent>,
        nat,
        u64,
        nat,
    )
        decreases s.len(),
    {
        if s.len() == 0 || occ == 0 {
            (Seq::empty(), Seq::empty(), occ, seq, 0)
        } else {
            let g = s[0].0;
            let cur = self.cycle_spec();
            let id = self.trace_id_spec(g);
            let r = self.serve_pass(s.drop_first(), (occ - 1) as nat, next_seq_after(seq));
            (
                seq![
                    ev(cur, TraceEventKind::BufferDequeue { occupancy: (occ - 1) as u32 }),
                    ev(cur, TraceEventKind::GateServed { gate: id, wait: wait_since(cur, s[0].1) }),
                ] + routing_events(id, self.latency_of(g), cur) + r.0,
                seq![self.completion_event(g, seq)] + r.1,
                r.2,
                r.3,
                r.4 + 1,
            )
        }
    }

    /// Scheduling the ready gates `q`, front first, with a buffer holding
    /// `occ` states, from sequence number `seq`: each is recorded ready; one
    /// needing a magic state takes one and is scheduled, or stalls when the
    /// buffer is empty; any other is scheduled. Gives the events recorded,
    /// the completions scheduled, the states left, the next sequence number,
    /// and the new stalled gates.
    pub open spec fn ready_pass(&self, q: Seq<OpKey>, occ: nat, seq: u64) -> (
        Seq<TraceEvent>,
        Seq<TimedEvent>,
        nat,
        u64,
        Seq<(OpKey, u64)>,
    )
        decreases q.len(),
    {
        if q.len() == 0 {
            (Seq::empty(), Seq::empty(), occ, seq, Seq::empty())
        } else {
            let g = q[0];
            let cur = self.cycle_spec();
            let id = self.trace_id_spec(g);
            let ready = ev(cur, TraceEventKind::GateReady { gate: id });
            if needs_magic(self.kind_of(g)) {
                if occ > 0 {
                    let r = self.ready_pass(q.drop_first(), (occ - 1) as nat, next_seq_after(seq));
                    (
                        seq![
                            ready,
                            ev(cur, TraceEventKind::BufferDequeue { occupancy: (occ - 1) as u32 }),
                            ev(cur, TraceEventKind::GateServed { gate: id, wait: 0 }),
                        ] + routing_events(id, self.latency_of(g), cur) + r.0,
                        seq![self.completion_event(g, seq)] + r.1,
                        r.2,
                        r.3,
                        r.4,
                    )
                } else {
                    let r = self.ready_pass(q.drop_first(), occ, seq);
                    (
                        seq![ready, ev(cur, TraceEventKind::GateStalled { gate: id })] + r.0,
                        r.1,
                        r.2,
                        r.3,
                        seq![(g, cur)] + r.4,
                    )
                }
            } else {
                let r = self.ready_pass(q.drop_first(), occ, next_seq_after(seq));
                (
                    seq![ready, ev(cur, TraceEventKind::GateScheduled { gate: id })] + routing_events(
                        id,
                        self.latency_of(g),
                        cur,
                    ) + r.0,
                    seq![self.completion_event(g, seq)] + r.1,
                    r.2,
                    r.3,
                    r.4,
                )
            }
        }
    }

    /// The stalled gates are served, oldest first, while the buffer holds
    /// magic states.
    pub open spec fn stalled_served(&self, m: &Engine) -> bool {
        let sv = self.serve_pass(self.stalled_spec(), self.occupancy_spec(), self.next_seq_spec());
        &&& m.trace_spec() == self.trace_spec() + sv.0
        &&& scheduled_all(self.pending_spec(), sv.1, m.pending_spec())
        &&& m.next_seq_spec() == sv.3
        &&& m.occupancy_spec() == sv.2
        &&& m.stalled_spec() == self.stalled_spec().skip(sv.4 as int)
        &&& m.ready_spec() == self.ready_spec()
        &&& self.same_books(m)
        &&& m.dag_spec() == self.dag_spec()
        &&& m.same_config(self)
    }

    /// Every ready gate is scheduled or stalls, front first.
    pub open spec fn ready_scheduled(&self, n: &Engine) -> bool {
        let rd = self.ready_pass(self.ready_spec(), self.occupancy_spec(), self.next_seq_spec());
        &&& n.trace_spec() == self.trace_spec() + rd.0
        &&& scheduled_all(self.pending_spec(), rd.1, n.pending_spec())
        &&& n.next_seq_spec() == rd.3
        &&& n.occupancy_spec() == rd.2
        &&& n.stalled_spec() == self.stalled_spec() + rd.4
        &&& n.ready_spec() == Seq::<OpKey>::empty()
        &&& self.same_books(n)
        &&& n.dag_spec() == self.dag_spec()
        &&& n.same_config(self)
    }

    /// Finishing a step: the stalled gates are served, then the ready gates
    /// scheduled.
    pub open spec fn step_finished(&self, n: &Engine) -> bool {
        exists|m: Engine| #[trigger] self.stalled_served(&m) && m.ready_scheduled(n)
    }

    /// `p` is this state with its first pending event taken off the queue.
    pub open spec fn popped(&self, p: &Engine) -> bool {
        &&& p.pending_spec() == self.pending_spec().drop_first()
        &&& p.next_seq_spec() == self.next_seq_spec()
        &&& p.trace_spec() == self.trace_spec()
        &&& self.same_sched(p)
        &&& self.same_books(p)
        &&& p.dag_spec() == self.dag_spec()
        &&& p.same_config(self)
    }

    /// Processing engine event `e`.
    pub open spec fn event_step(&self, n: &Engine, e: EngineEvent) -> bool {
        match e {
            EngineEvent::FactoryProduced { factory_id } => self.factory_step(n, factory_id, true),
            EngineEvent::FactoryFailed { factory_id } => self.factory_step(n, factory_id, false),
            EngineEvent::GateCompleted { gate } => self.gate_completed(n, gate),
            EngineEvent::HookActivation { gate, hook_id, outcome } => self.hook_activated(n, gate, hook_id, outcome),
        }
    }
}

proof fn lemma_release_in_range(counts: Seq<u32>, ops: Seq<OpData>, succs: Seq<OpKey>, n: nat)
    requires
        forall|j: int| 0 <= j < succs.len() ==> (#[trigger] succs[j]).0 < n,
    ensures
        forall|j: int|
            0 <= j < crate::dag::release(counts, ops, succs).1.len() ==> (#[trigger] crate::dag::release(
                counts,
                ops,
                succs,
            ).1[j]).0 < n,
    decreases succs.len(),
{
    if succs.len() > 0 {
        lemma_release_in_range(counts, ops, succs.drop_last(), n);
        let prev = crate::dag::release(counts, ops, succs.drop_last());
        assert(succs[succs.len() - 1].0 < n);
        let r = crate::dag::release(counts, ops, succs).1;
        assert forall|j: int| 0 <= j < r.len() implies (#[trigger] r[j]).0 < n by {
            if j < prev.1.len() {
                assert(r[j] == prev.1[j]);
            }
        }
    }
}

proof fn lemma_activation_in_range(dag: Dag, keys: Seq<OpKey>, completed: Seq<bool>, n: nat)
    requires
        forall|j: int| 0 <= j < keys.len() ==> (#[trigger] keys[j]).0 < n,
    ensures
        forall|j: int|
            0 <= j < dag.activation_pushes(keys, completed).len() ==> (#[trigger] dag.activation_pushes(
                keys,
                completed,
            )[j]).0 < n,
    decreases keys.len(),
{
    if keys.len() > 0 {
        lemma_activation_in_range(dag, keys.drop_last(), completed, n);
        let prev = dag.activation_pushes(keys.drop_last(), completed);
        assert(keys[keys.len() - 1].0 < n);
        let r = dag.activation_pushes(keys, completed);
        assert forall|j: int| 0 <= j < r.len() implies (#[trigger] r[j]).0 < n by {
            if j < prev.len() {
                assert(r[j] == prev[j]);
            }
        }
    }
}

impl Engine {
    /// Resolve an arena key to its stable trace id: the IR operation id for
    /// an original operation, `SYNTHETIC_ID_FLAG | counter` for a fixup, 0
    /// for a key outside the arena.
    pub fn trace_id(&self, key: OpKey) -> (id: u64)
        ensures
            id == self.trace_id_spec(key),
    {
        if key.0 < self.key_to_op_id.len() {
            self.key_to_op_id[key.0]
        } else {
            0
        }
    }

    /// True when every operation counted so far (injected fixups and
    /// activated operations included) has completed.
    pub fn is_complete(&self) -> (b: bool)
        ensures
            b == (self.completed_ops_spec() >= self.total_ops_spec()),
    {
        self.completed_ops >= self.total_ops
    }

    /// Base cost of `gate` plus its routing latency, recording the routing
    /// events when the latency is not zero.
    fn total_gate_cost(&mut self, gate: OpKey) -> (cost: u32)
        requires
            old(self).inv(),
            gate.0 < old(self).dag.len_spec(),
        ensures
            final(self).inv(),
            final(self).current_cycle == old(self).current_cycle,
            final(self).dag == old(self).dag,
            final(self).event_queue == old(self).event_queue,
            final(self).ready_set == old(self).ready_set,
            final(self).stalled_gates == old(self).stalled_gates,
            final(self).buffer == old(self).buffer,
            final(self).completed_ops == old(self).completed_ops,
            final(self).total_ops == old(self).total_ops,
            final(self).same_setup(&*old(self)),
            final(self).trace@ == old(self).trace@ + routing_events(
                old(self).trace_id_spec(gate),
                old(self).latency_of(gate),
                old(self).current_cycle,
            ),
            cost == old(self).cost_of(gate),
    {
        let op = &self.dag.get(gate).unwrap();
        let rc = self.routing.latency(op.qubits.as_slice(), self.position_index.as_slice());
        let base = op.cycle_cost;
        if rc > 0 {
            let gate_id = self.trace_id(gate);
            proof {
                assert(!(TraceEventKind::RoutingStarted { gate: gate_id } is GateStalled));
            }
            emit(&mut self.trace, self.current_cycle, TraceEventKind::RoutingStarted { gate: gate_id }, Ghost(self.buffer.capacity_spec()));
            emit(
                &mut self.trace,
                self.current_cycle,
                TraceEventKind::RoutingCompleted { gate: gate_id, latency: rc },
                Ghost(self.buffer.capacity_spec()),
            );
        }
        proof {
            assert(self.trace@ =~= old(self).trace@ + routing_events(
                old(self).trace_id_spec(gate),
                old(self).latency_of(gate),
                old(self).current_cycle,
            ));
        }
        base.saturating_add(rc)
    }

    /// Schedule the completion of `gate` after its cost.
    fn schedule_gate_completion(&mut self, gate: OpKey)
        requires
            old(self).inv(),
            gate.0 < old(self).dag.len_spec(),
        ensures
            final(self).inv(),
            final(self).current_cycle == old(self).current_cycle,
            final(self).dag == old(self).dag,
            final(self).ready_set == old(self).ready_set,
            final(self).stalled_gates == old(self).stalled_gates,
            final(self).buffer == old(self).buffer,
            final(self).completed_ops == old(self).completed_ops,
            final(self).total_ops == old(self).total_ops,
            final(self).same_setup(&*old(self)),
            final(self).trace@ == old(self).trace@ + routing_events(
                old(self).trace_id_spec(gate),
                old(self).latency_of(gate),
                old(self).current_cycle,
            ),
            inserted_in_order(
                old(self).event_queue.pending(),
                TimedEvent {
                    cycle: sat_add_u64(old(self).current_cycle, old(self).cost_of(gate) as u64),
                    seq: old(self).event_queue.next_seq_spec(),
                    event: EngineEvent::GateCompleted { gate },
                },
                final(self).event_queue.pending(),
            ),
            final(self).event_queue.next_seq_spec() == next_seq_after(old(self).event_queue.next_seq_spec()),
    {
        let cost = self.total_gate_cost(gate);
        let at = self.current_cycle.saturating_add(cost as u64);
        self.event_queue.schedule(at, EngineEvent::GateCompleted { gate });
    }

    /// Start the next attempt of factory `factory_id` at the current cycle,
    /// asking `oracle` for its outcome.
    fn start_factory<O: EngineOracle>(&mut self, factory_id: u16, oracle: &mut O)
        requires
            old(self).inv(),
        ensures
            final(self).inv(),
            final(self).current_cycle == old(self).current_cycle,
            old(self).factory_restarted(&*final(self), factory_id),
    {
        if (factory_id as u32) >= self.factory_count {
            proof {
                let o = FactoryOutcome::Produced { completion_cycle: 0 };
                assert(old(self).factory_restarted_with(&*self, factory_id, o));
            }
            return;
        }
        let outcome = oracle.factory_outcome(factory_id, self.current_cycle);
        self.schedule_attempt(factory_id, outcome);
        proof {
            assert(old(self).factory_restarted_with(&*self, factory_id, outcome));
        }
    }

    /// Start the next attempt of factory `factory_id` at the current cycle
    /// with outcome `outcome`: record the start and schedule the production
    /// or failure at the cycle the outcome gives (the current cycle if that
    /// is earlier). Nothing happens for a factory that does not exist.
    pub fn schedule_attempt(&mut self, factory_id: u16, outcome: FactoryOutcome)
        requires
            old(self).inv(),
        ensures
            final(self).inv(),
            old(self).factory_restarted_with(&*final(self), factory_id, outcome),
    {
        if (factory_id as u32) >= self.factory_count {
            return;
        }
        let (at, event) = match outcome {
            FactoryOutcome::Produced { completion_cycle } => (completion_cycle, EngineEvent::FactoryProduced { factory_id }),
            FactoryOutcome::Failed { failure_cycle } => (failure_cycle, EngineEvent::FactoryFailed { factory_id }),
        };
        let at = if at < self.current_cycle { self.current_cycle } else { at };
        emit(&mut self.trace, self.current_cycle, TraceEventKind::FactoryStarted { factory_id }, Ghost(self.buffer.capacity_spec()));
        let ghost seq = self.event_queue.next_seq_spec();
        self.event_queue.schedule(at, event);
        proof {
            let x = TimedEvent { cycle: at, seq, event };
            assert(x == attempt_event(outcome, factory_id, old(self).next_seq_spec(), old(self).cycle_spec()));
            assert(inserted_in_order(old(self).pending_spec(), x, self.pending_spec()));
        }
    }
}


impl Engine {
    /// Schedule every gate in the ready queue. A gate that needs a magic
    /// state takes one from the buffer and is scheduled, or stalls when the
    /// buffer is empty; any other gate is scheduled at once.
    fn schedule_ready_gates(&mut self)
        requires
            old(self).inv(),
        ensures
            final(self).inv(),
            final(self).current_cycle == old(self).current_cycle,
            final(self).dag == old(self).dag,
            final(self).completed_ops == old(self).completed_ops,
            final(self).total_ops == old(self).total_ops,
            final(self).ready_set.queued().len() == 0,
            old(self).ready_scheduled(&*final(self)),
    {
        let ghost q0 = self.ready_set.queued();
        let ghost occ0 = self.buffer.occupancy_spec();
        let ghost seq0 = self.event_queue.next_seq_spec();
        let ghost t0 = self.trace@;
        let ghost p0 = self.event_queue.pending();
        let ghost st0 = self.stalled_gates@;
        let ghost full = old(self).ready_pass(q0, occ0, seq0);
        let ghost mut done: Seq<TimedEvent> = Seq::empty();
        let ghost mut stalled_new: Seq<(OpKey, u64)> = Seq::empty();
        proof {
            lemma_scheduled_none(p0);
            assert(st0 + stalled_new =~= st0);
        }
        while self.ready_set.len() > 0
            invariant
                self.inv(),
                self.current_cycle == old(self).current_cycle,
                self.dag == old(self).dag,
                self.completed_ops == old(self).completed_ops,
                self.total_ops == old(self).total_ops,
                self.same_setup(&*old(self)),
                full == old(self).ready_pass(q0, occ0, seq0),
                ({
                    let rem = old(self).ready_pass(self.ready_set.queued(), self.buffer.occupancy_spec(), self.event_queue.next_seq_spec());
                    &&& t0 + full.0 == self.trace@ + rem.0
                    &&& full.1 == done + rem.1
                    &&& full.2 == rem.2
                    &&& full.3 == rem.3
                    &&& full.4 == stalled_new + rem.4
                }),
                self.stalled_gates@ == st0 + stalled_new,
                scheduled_all(p0, done, self.event_queue.pending()),
            decreases self.ready_set.queued().len(),
        {
            let ghost q = self.ready_set.queued();
            let ghost occ = self.buffer.occupancy_spec();
            let ghost sq = self.event_queue.next_seq_spec();
            let ghost tr = self.trace@;
            let ghost pend = self.event_queue.pending();
            let ghost stl = self.stalled_gates@;
            let popped = self.ready_set.pop();
            let gate = popped.unwrap();
            proof {
                assert(q[0] == gate);
                assert(self.ready_set.queued() =~= q.drop_first());
                assert forall|i: int| 0 <= i < self.ready_set.queued().len() implies (#[trigger] self.ready_set.queued()[i]).0
                    < self.dag.len_spec() by {
                    assert(self.ready_set.queued()[i] == q[i + 1]);
                }
            }
            let gate_id = self.trace_id(gate);
            let cap = Ghost(self.buffer.capacity_spec());
            emit(&mut self.trace, self.current_cycle, TraceEventKind::GateReady { gate: gate_id }, cap);
            let kind = self.dag.get(gate).unwrap().kind;
            let needs = match kind {
                OpKind::TGate => true,
                OpKind::Rotation { .. } => true,
                _ => false,
            };
            let ghost cur = old(self).current_cycle;
            let ghost ready = ev(cur, TraceEventKind::GateReady { gate: gate_id });
            proof {
                assert(needs == needs_magic(old(self).kind_of(gate)));
            }
            if needs {
                if self.buffer.try_dequeue() {
                    let occupancy = self.buffer.occupancy();
                    emit(&mut self.trace, self.current_cycle, TraceEventKind::BufferDequeue { occupancy }, cap);
                    emit(&mut self.trace, self.current_cycle, TraceEventKind::GateServed { gate: gate_id, wait: 0 }, cap);
                    self.schedule_gate_completion(gate);
                    proof {
                        let e = old(self).completion_event(gate, sq);
                        let rest = old(self).ready_pass(q.drop_first(), (occ - 1) as nat, next_seq_after(sq));
                        let head = seq![
                            ready,
                            ev(cur, TraceEventKind::BufferDequeue { occupancy: (occ - 1) as u32 }),
                            ev(cur, TraceEventKind::GateServed { gate: gate_id, wait: 0 }),
                        ] + routing_events(gate_id, old(self).latency_of(gate), cur);
                        assert(old(self).ready_pass(q, occ, sq) == (head + rest.0, seq![e] + rest.1, rest.2, rest.3, rest.4));
                        assert(self.trace@ =~= tr + head);
                        assert(t0 + full.0 =~= self.trace@ + rest.0);
                        lemma_scheduled_push(p0, done, pend, e, self.event_queue.pending());
                        assert(done.push(e) + rest.1 =~= done + (seq![e] + rest.1));
                        done = done.push(e);
                    }
                } else {
                    proof {
                        assert(needs_magic(self.dag.ops_spec()[gate.0 as int].kind));
                        assert(!magic_free(self.dag.ops_spec()));
                    }
                    emit(&mut self.trace, self.current_cycle, TraceEventKind::GateStalled { gate: gate_id }, cap);
                    self.stalled_gates.push_back((gate, self.current_cycle));
                    proof {
                        let rest = old(self).ready_pass(q.drop_first(), occ, sq);
                        let head = seq![ready, ev(cur, TraceEventKind::GateStalled { gate: gate_id })];
                        assert(old(self).ready_pass(q, occ, sq) == (head + rest.0, rest.1, rest.2, rest.3, seq![(gate, cur)] + rest.4));
                        assert(self.trace@ =~= tr + head);
                        assert(t0 + full.0 =~= self.trace@ + rest.0);
                        assert(stalled_new.push((gate, cur)) + rest.4 =~= stalled_new + (seq![(gate, cur)] + rest.4));
                        stalled_new = stalled_new.push((gate, cur));
                        assert(self.stalled_gates@ =~= st0 + stalled_new);
                    }
                }
            } else {
                emit(&mut self.trace, self.current_cycle, TraceEventKind::GateScheduled { gate: gate_id }, cap);
                self.schedule_gate_completion(gate);
                proof {
                    let e = old(self).completion_event(gate, sq);
                    let rest = old(self).ready_pass(q.drop_first(), occ, next_seq_after(sq));
                    let head = seq![ready, ev(cur, TraceEventKind::GateScheduled { gate: gate_id })] + routing_events(
                        gate_id,
                        old(self).latency_of(gate),
                        cur,
                    );
                    assert(old(self).ready_pass(q, occ, sq) == (head + rest.0, seq![e] + rest.1, rest.2, rest.3, rest.4));
                    assert(self.trace@ =~= tr + head);
                    assert(t0 + full.0 =~= self.trace@ + rest.0);
                    lemma_scheduled_push(p0, done, pend, e, self.event_queue.pending());
                    assert(done.push(e) + rest.1 =~= done + (seq![e] + rest.1));
                    done = done.push(e);
                }
            }
        }
        proof {
            assert(self.trace@ =~= t0 + full.0);
            assert(done =~= full.1);
            assert(stalled_new =~= full.4);
            assert(self.ready_set.queued() =~= Seq::<OpKey>::empty());
        }
    }

    /// Serve stalled gates from the buffer, oldest first, while it holds
    /// magic states.
    fn try_serve_stalled_gates(&mut self)
        requires
            old(self).inv(),
        ensures
            final(self).inv(),
            final(self).current_cycle == old(self).current_cycle,
            final(self).dag == old(self).dag,
            final(self).ready_set == old(self).ready_set,
            final(self).completed_ops == old(self).completed_ops,
            final(self).total_ops == old(self).total_ops,
            old(self).stalled_served(&*final(self)),
    {
        let ghost s0 = self.stalled_gates@;
        let ghost occ0 = self.buffer.occupancy_spec();
        let ghost seq0 = self.event_queue.next_seq_spec();
        let ghost t0 = self.trace@;
        let ghost p0 = self.event_queue.pending();
        let ghost full = old(self).serve_pass(s0, occ0, seq0);
        let ghost mut done: Seq<TimedEvent> = Seq::empty();
        let ghost mut served: nat = 0;
        proof {
            lemma_scheduled_none(p0);
            assert(s0.skip(0) =~= s0);
        }
        while self.stalled_gates.len() > 0 && !self.buffer.is_empty()
            invariant
                self.inv(),
                self.current_cycle == old(self).current_cycle,
                self.dag == old(self).dag,
                self.ready_set == old(self).ready_set,
                self.completed_ops == old(self).completed_ops,
                self.total_ops == old(self).total_ops,
                self.same_setup(&*old(self)),
                full == old(self).serve_pass(s0, occ0, seq0),
                ({
                    let rem = old(self).serve_pass(self.stalled_gates@, self.buffer.occupancy_spec(), self.event_queue.next_seq_spec());
                    &&& t0 + full.0 == self.trace@ + rem.0
                    &&& full.1 == done + rem.1
                    &&& full.2 == rem.2
                    &&& full.3 == rem.3
                    &&& full.4 == served + rem.4
                }),
                served <= s0.len(),
                self.stalled_gates@ == s0.skip(served as int),
                scheduled_all(p0, done, self.event_queue.pending()),
            decreases self.stalled_gates@.len(),
        {
            let ghost st = self.stalled_gates@;
            let ghost occ = self.buffer.occupancy_spec();
            let ghost sq = self.event_queue.next_seq_spec();
            let ghost tr = self.trace@;
            let ghost pend = self.event_queue.pending();
            let (gate, stall_cycle) = self.stalled_gates[0];
            let ok = self.buffer.try_dequeue();
            let _ = self.stalled_gates.pop_front();
            proof {
                assert(ok);
                assert(st[0] == (gate, stall_cycle));
                assert(self.stalled_gates@ =~= st.drop_first());
                assert(s0.skip(served as int + 1) =~= st.drop_first());
                assert forall|i: int| 0 <= i < self.stalled_gates@.len() implies (#[trigger] self.stalled_gates@[i]).0.0
                    < self.dag.len_spec() && self.stalled_gates@[i].1 <= self.current_cycle by {
                    assert(self.stalled_gates@[i] == st[i + 1]);
                }
            }
            let waited = self.current_cycle - stall_cycle;
            let wait: u32 = if waited > u32::MAX as u64 { u32::MAX } else { waited as u32 };
            let cap = Ghost(self.buffer.capacity_spec());
            let occupancy = self.buffer.occupancy();
            emit(&mut self.trace, self.current_cycle, TraceEventKind::BufferDequeue { occupancy }, cap);
            let gate_id = self.trace_id(gate);
            emit(&mut self.trace, self.current_cycle, TraceEventKind::GateServed { gate: gate_id, wait }, cap);
            self.schedule_gate_completion(gate);
            proof {
                let cur = old(self).current_cycle;
                let e = old(self).completion_event(gate, sq);
                let rest = old(self).serve_pass(st.drop_first(), (occ - 1) as nat, next_seq_after(sq));
                let head = seq![
                    ev(cur, TraceEventKind::BufferDequeue { occupancy: (occ - 1) as u32 }),
                    ev(cur, TraceEventKind::GateServed { gate: gate_id, wait: wait_since(cur, stall_cycle) }),
                ] + routing_events(gate_id, old(self).latency_of(gate), cur);
                assert(old(self).serve_pass(st, occ, sq) == (head + rest.0, seq![e] + rest.1, rest.2, rest.3, rest.4 + 1));
                assert(self.trace@ =~= tr + head);
                assert(t0 + full.0 =~= self.trace@ + rest.0);
                lemma_scheduled_push(p0, done, pend, e, self.event_queue.pending());
                assert(done.push(e) + rest.1 =~= done + (seq![e] + rest.1));
                done = done.push(e);
                served = served + 1;
            }
        }
        proof {
            let rem = old(self).serve_pass(self.stalled_gates@, self.buffer.occupancy_spec(), self.event_queue.next_seq_spec());
            assert(rem.0 =~= Seq::<TraceEvent>::empty());
            assert(self.trace@ =~= t0 + full.0);
            assert(done =~= full.1);
        }
    }
}


impl Engine {
    /// Activate the operations of the hook entry for `(hook_id, outcome)`,
    /// recording how many were activated on behalf of `gate`.
    fn activate_hook(&mut self, gate: OpKey, hook_id: MeasurementHookId, outcome: MeasurementOutcome)
        requires
            old(self).inv(),
        ensures
            final(self).inv(),
            final(self).current_cycle == old(self).current_cycle,
            final(self).completed_ops == old(self).completed_ops,
            final(self).total_ops == old(self).total_ops,
            final(self).dag.len_spec() == old(self).dag.len_spec(),
            old(self).hook_activated(&*final(self), gate, hook_id, outcome),
    {
        let gate_id = self.trace_id(gate);
        let idx = hook_table_index(hook_id, outcome);
        if idx >= self.hook_table.len() {
            return;
        }
        if self.hook_table[idx].len() == 0 {
            return;
        }
        let ghost before = *self;
        let ghost keys = self.hook_table@[idx as int]@;
        let ghost n = self.dag.len_spec();
        proof {
            assert forall|k: int| 0 <= k < keys.len() implies (#[trigger] keys[k]).0 < self.dag.len_spec() by {
                assert(self.hook_table@[idx as int]@[k] == keys[k]);
            }
        }
        self.dag.activate_ops(self.hook_table[idx].as_slice(), self.completed.as_slice(), &mut self.ready_set);
        proof {
            lemma_activation_in_range(before.dag, keys, before.completed@, n);
            let q = self.ready_set.queued();
            let q0 = before.ready_set.queued();
            assert forall|i: int| 0 <= i < q.len() implies (#[trigger] q[i]).0 < n by {
                if i < q0.len() {
                    assert(q[i] == q0[i]);
                } else {
                    assert(q[i] == before.dag.activation_pushes(keys, before.completed@)[i - q0.len()]);
                }
            }
            if magic_free(self.dag.ops_spec()) {
                assert forall|i: int| 0 <= i < n implies !needs_magic(#[trigger] before.dag.ops_spec()[i].kind) by {
                    assert(self.dag.ops_spec()[i].kind == before.dag.ops_spec()[i].kind);
                }
            }
        }
        let activated_count = self.hook_table[idx].len() as u32;
        emit(
            &mut self.trace,
            self.current_cycle,
            TraceEventKind::OpsActivated { gate: gate_id, activated_count },
            Ghost(self.buffer.capacity_spec()),
        );
        proof {
            assert(old(self).hook_entry(hook_index_spec(hook_id, outcome)) == keys);
            assert(before.dag.activated_to(self.dag, keys, before.completed@));
        }
    }

    /// Record outcome `outcome` of measurement `gate` with hook `hook_id`,
    /// count the operations it activates, and activate them now or after
    /// the feedback delay.
    pub fn dispatch_hook_with(&mut self, gate: OpKey, hook_id: MeasurementHookId, outcome: MeasurementOutcome)
        requires
            old(self).inv(),
            gate.0 < old(self).dag_spec().len_spec(),
        ensures
            final(self).inv(),
            final(self).cycle_spec() == old(self).cycle_spec(),
            final(self).completed_ops_spec() == old(self).completed_ops_spec(),
            final(self).dag_spec().len_spec() == old(self).dag_spec().len_spec(),
            old(self).hook_dispatched(&*final(self), gate, hook_id, outcome),
    {
        let gate_id = self.trace_id(gate);
        emit(
            &mut self.trace,
            self.current_cycle,
            TraceEventKind::MeasurementOutcome { gate: gate_id, outcome },
            Ghost(self.buffer.capacity_spec()),
        );
        let idx = hook_table_index(hook_id, outcome);
        if idx < self.hook_table.len() {
            self.total_ops = self.total_ops.saturating_add(self.hook_table[idx].len() as u64);
        }
        let ghost m = *self;
        let ghost total = sat_add_u64(old(self).total_ops_spec(), old(self).hook_entry(hook_index_spec(hook_id, outcome)).len() as u64);
        proof {
            assert(old(self).outcome_recorded(&m, gate, outcome, total));
        }
        if self.feedback_delay == 0 {
            self.activate_hook(gate, hook_id, outcome);
        } else {
            let at = self.current_cycle.saturating_add(self.feedback_delay);
            self.event_queue.schedule(at, EngineEvent::HookActivation { gate, hook_id, outcome });
            proof {
                assert(m.activation_scheduled(&*self, gate, hook_id, outcome));
            }
        }
        proof {
            assert(old(self).hook_dispatched(&*self, gate, hook_id, outcome));
        }
    }

    /// Handle a gate that finished executing: on an injection error insert a
    /// fixup after it; otherwise dispatch its hook, if any, and release its
    /// successors.
    fn complete_gate<O: EngineOracle>(&mut self, gate: OpKey, kind: OpKind, oracle: &mut O)
        requires
            old(self).inv(),
            gate.0 < old(self).dag.len_spec(),
            kind == old(self).kind_of(gate),
        ensures
            final(self).inv(),
            final(self).current_cycle == old(self).current_cycle,
            final(self).completed_ops == old(self).completed_ops,
            old(self).after_completion(&*final(self), gate),
    {
        let (injection_error, outcome) = match kind {
            OpKind::TGate => (oracle.injection_error(), MeasurementOutcome::Zero),
            OpKind::Rotation { .. } => (oracle.injection_error(), MeasurementOutcome::Zero),
            OpKind::Measurement { hook: Some(_) } => (false, oracle.measurement_outcome()),
            _ => (false, MeasurementOutcome::Zero),
        };
        self.complete_gate_with(gate, injection_error, outcome);
        proof {
            assert(old(self).after_completion_with(&*self, gate, injection_error, outcome));
        }
    }

    /// Handle a gate that finished executing, given whether the magic state
    /// it consumed suffered an injection error and, for a measurement with
    /// a hook, its outcome: a gate that consumed a magic state with an
    /// injection error gets a fixup inserted after it; otherwise its hook,
    /// if any, is dispatched with `outcome` and its successors are released.
    pub fn complete_gate_with(&mut self, gate: OpKey, injection_error: bool, outcome: MeasurementOutcome)
        requires
            old(self).inv(),
            gate.0 < old(self).dag_spec().len_spec(),
        ensures
            final(self).inv(),
            final(self).cycle_spec() == old(self).cycle_spec(),
            final(self).completed_ops_spec() == old(self).completed_ops_spec(),
            old(self).after_completion_with(&*final(self), gate, injection_error, outcome),
    {
        let kind = self.dag.get(gate).unwrap().kind;
        let inject = match kind {
            OpKind::TGate => injection_error,
            OpKind::Rotation { .. } => injection_error,
            _ => false,
        };
        if inject {
            let gate_id = self.trace_id(gate);
            let cap = Ghost(self.buffer.capacity_spec());
            emit(&mut self.trace, self.current_cycle, TraceEventKind::InjectionError { gate: gate_id }, cap);
            let ghost before = *self;
            let ghost n = self.dag.len_spec();
            let fixup = self.dag.inject_fixup(gate, &mut self.ready_set);
            let synthetic_id = SYNTHETIC_ID_FLAG | self.next_synthetic_id;
            self.next_synthetic_id = self.next_synthetic_id.saturating_add(1);
            self.key_to_op_id.push(synthetic_id);
            self.completed.push(false);
            proof {
                let m = self.dag.len_spec();
                assert forall|i: int| 0 <= i < self.ready_set.queued().len() implies (#[trigger] self.ready_set.queued()[i]).0
                    < m by {
                    if i < before.ready_set.queued().len() {
                        assert(self.ready_set.queued()[i] == before.ready_set.queued()[i]);
                    }
                }
                assert forall|x: TimedEvent| #[trigger] self.event_queue.pending().contains(x) implies x.cycle
                    >= self.current_cycle && event_in_range(x.event, m) by {
                    assert(before.event_queue.pending().contains(x));
                }
                assert forall|h: int, j: int|
                    0 <= h < self.hook_table@.len() && 0 <= j < self.hook_table@[h]@.len() implies (
                    #[trigger] self.hook_table@[h]@[j]).0 < m by {
                    assert(before.hook_table@[h]@[j].0 < n);
                }
                assert forall|i: int| 0 <= i < self.stalled_gates@.len() implies (#[trigger] self.stalled_gates@[i]).0.0 < m
                    && self.stalled_gates@[i].1 <= self.current_cycle by {
                    assert(before.stalled_gates@[i].0.0 < n);
                }
                if magic_free(self.dag.ops_spec()) {
                    assert forall|i: int| 0 <= i < n implies !needs_magic(#[trigger] before.dag.ops_spec()[i].kind) by {
                        assert(self.dag.ops_spec()[i] == self.dag.ops_spec().drop_last()[i]);
                        assert(!needs_magic(self.dag.ops_spec()[i].kind));
                    }
                }
            }
            emit(
                &mut self.trace,
                self.current_cycle,
                TraceEventKind::FixupInserted { fixup: synthetic_id, original: gate_id },
                cap,
            );
            self.total_ops = self.total_ops.saturating_add(1);
            proof {
                assert(before.dag.fixup_injected_to(self.dag, gate));
                assert(self.trace@ =~= old(self).trace@ + seq![
                    ev(old(self).current_cycle, TraceEventKind::InjectionError { gate: gate_id }),
                    ev(old(self).current_cycle, TraceEventKind::FixupInserted { fixup: synthetic_id, original: gate_id }),
                ]);
                assert(old(self).fixup_inserted(&*self, gate));
            }
        } else {
            match kind {
                OpKind::Measurement { hook: Some(hook_id) } => {
                    self.dispatch_hook_with(gate, hook_id, outcome);
                },
                _ => {},
            }
            let ghost before = *self;
            proof {
                assert(old(self).hook_part_with(&before, gate, outcome));
            }
            let ghost n = self.dag.len_spec();
            proof {
                assert forall|j: int| 0 <= j < self.dag.succ_of(gate.0 as int).len() implies (
                #[trigger] self.dag.succ_of(gate.0 as int)[j]).0 < n by {
                    assert(self.dag.succ_of(gate.0 as int)[j].0 < n);
                }
            }
            self.dag.release_successors(gate, &mut self.ready_set);
            proof {
                lemma_release_in_range(
                    before.dag.counts(),
                    before.dag.ops_spec(),
                    before.dag.succ_of(gate.0 as int),
                    n,
                );
                let q = self.ready_set.queued();
                let q0 = before.ready_set.queued();
                let pushed = crate::dag::release(
                    before.dag.counts(),
                    before.dag.ops_spec(),
                    before.dag.succ_of(gate.0 as int),
                ).1;
                assert forall|i: int| 0 <= i < q.len() implies (#[trigger] q[i]).0 < n by {
                    if i < q0.len() {
                        assert(q[i] == q0[i]);
                    } else {
                        assert(q[i] == pushed[i - q0.len()]);
                    }
                }
                assert(before.dag.released_to(self.dag, gate));
                assert(before.successors_released(&*self, gate));
            }
        }
    }

    /// Process one event of the queue.
    fn process_event<O: EngineOracle>(&mut self, event: TimedEvent, oracle: &mut O)
        requires
            old(self).inv(),
            event.cycle == old(self).current_cycle,
            event_in_range(event.event, old(self).dag.len_spec()),
        ensures
            final(self).inv(),
            final(self).current_cycle == old(self).current_cycle,
            old(self).event_step(&*final(self), event.event),
    {
        let cap = Ghost(self.buffer.capacity_spec());
        match event.event {
            EngineEvent::FactoryProduced { factory_id } => {
                emit(&mut self.trace, self.current_cycle, TraceEventKind::FactoryProduced { factory_id }, cap);
                if self.buffer.try_enqueue() {
                    let occupancy = self.buffer.occupancy();
                    emit(&mut self.trace, self.current_cycle, TraceEventKind::BufferEnqueue { occupancy }, cap);
                } else {
                    emit(&mut self.trace, self.current_cycle, TraceEventKind::BufferFull, cap);
                }
                let ghost m = *self;
                proof {
                    assert(m.trace@ =~= old(self).trace@ + old(self).factory_outcome_events(factory_id, true));
                    assert(old(self).factory_outcome_recorded(&m, factory_id, true));
                }
                self.start_factory(factory_id, oracle);
            },
            EngineEvent::FactoryFailed { factory_id } => {
                emit(&mut self.trace, self.current_cycle, TraceEventKind::FactoryFailed { factory_id }, cap);
                let ghost m = *self;
                proof {
                    assert(m.trace@ =~= old(self).trace@ + old(self).factory_outcome_events(factory_id, false));
                    assert(old(self).factory_outcome_recorded(&m, factory_id, false));
                }
                self.start_factory(factory_id, oracle);
            },
            EngineEvent::GateCompleted { gate } => {
                let gate_id = self.trace_id(gate);
                let kind = self.dag.get(gate).unwrap().kind;
                match kind {
                    OpKind::Fixup => {
                        emit(&mut self.trace, self.current_cycle, TraceEventKind::FixupCompleted { fixup: gate_id }, cap);
                    },
                    _ => {
                        emit(&mut self.trace, self.current_cycle, TraceEventKind::GateCompleted { gate: gate_id }, cap);
                    },
                }
                proof {
                    lemma_completions_bound(self.trace@);
                    self.trace.lemma_len_bound();
                }
                self.completed_ops = self.completed_ops + 1;
                if self.hook_table.len() > 0 {
                    self.completed.set(gate.0, true);
                }
                let ghost a = *self;
                proof {
                    assert(old(self).completion_recorded(&a, gate));
                }
                self.complete_gate(gate, kind, oracle);
            },
            EngineEvent::HookActivation { gate, hook_id, outcome } => {
                self.activate_hook(gate, hook_id, outcome);
            },
        }
    }
}

proof fn lemma_completions_bound(t: Seq<TraceEvent>)
    ensures
        completions(t) <= t.len(),
    decreases t.len(),
{
    if t.len() > 0 {
        lemma_completions_bound(t.drop_last());
    }
}


/// The trace of a freshly built engine: one factory start per factory, all
/// at cycle zero.
pub open spec fn initial_trace(factory_count: u32) -> Seq<TraceEvent> {
    Seq::new(
        factory_count as nat,
        |i: int| TraceEvent { cycle: 0, kind: TraceEventKind::FactoryStarted { factory_id: i as u16 } },
    )
}

/// `evs` are the first attempts of the factories started at cycle zero
/// with outcomes `outcomes`: factory `f`'s attempt is the event of
/// `outcomes[f]`, with sequence number `f`.
pub open spec fn first_attempts(evs: Seq<TimedEvent>, outcomes: Seq<FactoryOutcome>, factory_count: u32) -> bool {
    &&& evs.len() == factory_count
    &&& outcomes.len() == factory_count
    &&& forall|f: int| 0 <= f < evs.len() ==> #[trigger] evs[f] == attempt_event(outcomes[f], f as u16, f as u64, 0)
}

/// One more than hook id `id`, saturating at `usize::MAX`.
pub open spec fn slot_after(id: u32) -> nat {
    if id + 1 > usize::MAX {
        usize::MAX as nat
    } else {
        (id + 1) as nat
    }
}

/// One more than the largest hook id, saturating; zero without hooks.
pub open spec fn hook_id_bound(hooks: Seq<MeasurementHook>) -> nat
    decreases hooks.len(),
{
    if hooks.len() == 0 {
        0
    } else {
        let r = hook_id_bound(hooks.drop_last());
        let v = slot_after(hooks.last().id);
        if v > r {
            v
        } else {
            r
        }
    }
}

/// The number of hook table entries: two per hook id below the bound,
/// saturating.
pub open spec fn hook_slots(hooks: Seq<MeasurementHook>) -> nat {
    if 2 * hook_id_bound(hooks) > usize::MAX {
        usize::MAX as nat
    } else {
        2 * hook_id_bound(hooks)
    }
}

/// The keys of the operations with identifiers `ids`.
pub open spec fn activation_keys(ops: Seq<Operation>, ids: Seq<u64>) -> Seq<OpKey> {
    Seq::new(ids.len(), |j: int| crate::dag::key_of(ops, ids[j]))
}

/// Table `t` after the activations `acts` of hook `id`, in order: each
/// writes its targets' keys at its index, if that index is in the table.
pub open spec fn apply_activations(
    t: Seq<Seq<OpKey>>,
    id: u32,
    acts: Seq<ConditionalActivation>,
    ops: Seq<Operation>,
) -> Seq<Seq<OpKey>>
    decreases acts.len(),
{
    if acts.len() == 0 {
        t
    } else {
        let t2 = apply_activations(t, id, acts.drop_last(), ops);
        let idx = hook_index_spec(id, acts.last().outcome);
        if idx < t2.len() {
            t2.update(idx, activation_keys(ops, acts.last().ops_to_activate@))
        } else {
            t2
        }
    }
}

/// The hook table of `hooks` with `len` entries: empty entries, then the
/// activations of every hook in order, later ones overwriting earlier ones.
pub open spec fn hook_table_of(ops: Seq<Operation>, hooks: Seq<MeasurementHook>, len: nat) -> Seq<Seq<OpKey>>
    decreases hooks.len(),
{
    if hooks.len() == 0 {
        Seq::new(len, |i: int| Seq::<OpKey>::empty())
    } else {
        apply_activations(hook_table_of(ops, hooks.drop_last(), len), hooks.last().id, hooks.last().activations@, ops)
    }
}

proof fn lemma_key_of_unique(ops: Seq<Operation>, i: int)
    requires
        crate::validate::unique_ids(ops),
        0 <= i < ops.len(),
    ensures
        crate::dag::key_of(ops, ops[i].id) == OpKey(i as usize),
{
    let k = choose|k: int| 0 <= k < ops.len() && ops[k].id == ops[i].id;
    assert(0 <= k < ops.len() && ops[k].id == ops[i].id);
    if k < i {
        assert(crate::validate::dup_id_at(ops, i));
    } else if i < k {
        assert(crate::validate::dup_id_at(ops, k));
    }
}

impl Engine {
    /// The pending events, in delivery order.
    pub closed spec fn pending_spec(&self) -> Seq<TimedEvent> {
        self.event_queue.pending()
    }

    /// Build the engine from a validated circuit, the hardware parameters
    /// and the configuration.
    ///
    /// Fails, in this order of checks, with `NoFactories` when there is no
    /// factory, `ZeroBuffer` when the buffer has no capacity,
    /// `TooManyRotationAngles` when the circuit has more than 65536 distinct
    /// rotation angles, and `MissingQubitPositions` when the routing model
    /// is Manhattan and the circuit gives no qubit positions. Otherwise it builds the
    /// graph, seeds the ready queue with the initial ready set, and starts
    /// every factory at cycle zero, asking `oracle` for each one's first
    /// outcome.
    pub fn new<O: EngineOracle>(
        circuit: &ValidatedCircuit,
        params: EngineParams,
        config: EngineConfig,
        oracle: &mut O,
    ) -> (r: Result<Engine, EngineError>)
        ensures
            (r matches Err(EngineError::NoFactories)) <==> params.factory_count == 0,
            (r matches Err(EngineError::ZeroBuffer)) <==> params.factory_count != 0 && params.buffer_capacity == 0,
            (r matches Err(EngineError::TooManyRotationAngles(k))) <==> params.factory_count != 0
                && params.buffer_capacity != 0 && angle_table_of(circuit@.ops@).len() > 65536,
            r matches Err(EngineError::TooManyRotationAngles(k)) ==> k == 65536,
            (r matches Err(EngineError::MissingQubitPositions)) <==> params.factory_count != 0
                && params.buffer_capacity != 0 && angle_table_of(circuit@.ops@).len() <= 65536
                && params.routing is Manhattan && circuit@.qubit_positions is None,
            r is Ok <==> params.factory_count != 0 && params.buffer_capacity != 0 && angle_table_of(
                circuit@.ops@,
            ).len() <= 65536 && !(params.routing is Manhattan && circuit@.qubit_positions is None),
            r matches Ok(e) ==> {
                &&& e.inv()
                &&& e.cycle_spec() == 0
                &&& e.completed_ops_spec() == 0
                &&& e.total_ops_spec() == count_active(e.dag_spec().ops_spec())
                &&& e.dag_spec().built_from(circuit@, params.measurement_cycles, params.fixup_cost_cycles)
                &&& e.capacity_spec() == params.buffer_capacity
                &&& e.trace_spec() == initial_trace(params.factory_count)
                &&& e.pending_spec().len() == params.factory_count
                &&& exists|evs: Seq<TimedEvent>, outcomes: Seq<FactoryOutcome>| #[trigger]
                    first_attempts(evs, outcomes, params.factory_count) && scheduled_all(Seq::empty(), evs, e.pending_spec())
                &&& e.next_seq_spec() == params.factory_count
                &&& e.ready_spec() == ready_roots(e.dag_spec().ops_spec(), e.dag_spec().counts(), e.dag_spec().len_spec())
                &&& e.stalled_spec() == Seq::<(OpKey, u64)>::empty()
                &&& e.occupancy_spec() == if params.buffer_preload <= params.buffer_capacity {
                    params.buffer_preload
                } else {
                    params.buffer_capacity
                }
                &&& e.completed_spec() == Seq::new(e.dag_spec().len_spec(), |i: int| false)
                &&& e.key_ids_spec() == circuit@.ops@.map_values(|o: crate::circuit::Operation| o.id)
                &&& e.next_synthetic_spec() == 0
                &&& e.factory_count_spec() == params.factory_count
                &&& e.feedback_delay_spec() == params.feedback_delay
                &&& e.hook_table_spec() == hook_table_of(circuit@.ops@, circuit@.hooks@, hook_slots(circuit@.hooks@))
                &&& e.routing_spec() == params.routing
                &&& e.positions_spec() == crate::routing::position_index_spec(
                    match circuit@.qubit_positions {
                        Some(ps) => ps@,
                        None => Seq::empty(),
                    },
                    circuit@.qubit_count,
                )
                &&& e.max_cycles_spec() == config.max_cycles
                &&& e.seed_spec() == config.seed
                &&& e.p_logical_spec() == params.p_logical_bits
            },
    {
        if params.factory_count == 0 {
            return Err(EngineError::NoFactories);
        }
        if params.buffer_capacity == 0 {
            return Err(EngineError::ZeroBuffer);
        }
        let c = circuit.circuit();
        let built = Dag::from_circuit(circuit, params.measurement_cycles, params.fixup_cost_cycles);
        let DagBuild { dag, id_to_key } = match built {
            Ok(b) => b,
            Err(e) => {
                return Err(EngineError::from_dag(e));
            },
        };
        let n = dag.op_count();
        let active = dag.active_op_count();
        let total_ops = active as u64;
        let mut key_to_op_id: Vec<u64> = Vec::with_capacity(n);
        let mut i: usize = 0;
        while i < n
            invariant
                i <= n,
                n == c.ops@.len(),
                key_to_op_id@.len() == i,
                forall|k: int| 0 <= k < i ==> key_to_op_id@[k] == c.ops@[k].id,
            decreases n - i,
        {
            key_to_op_id.push(c.ops[i].id);
            i += 1;
        }
        let needs_positions = match params.routing {
            RoutingKind::Manhattan(_) => true,
            RoutingKind::Scalar(_) => false,
        };
        if needs_positions && c.qubit_positions.is_none() {
            return Err(EngineError::MissingQubitPositions);
        }
        let position_index = match &c.qubit_positions {
            Some(ps) => build_position_index(ps.as_slice(), c.qubit_count),
            None => build_position_index(&[], c.qubit_count),
        };
        let buffer = MagicStateBuffer::new(params.buffer_capacity, params.buffer_preload);
        let mut ready_set = FifoReadyQueue::with_capacity(n);
        let roots = dag.initial_ready_set();
        let mut r: usize = 0;
        while r < roots.len()
            invariant
                r <= roots@.len(),
                ready_set.queued() == roots@.take(r as int),
            decreases roots@.len() - r,
        {
            ready_set.push(roots[r]);
            proof {
                assert(roots@.take(r as int + 1) =~= roots@.take(r as int).push(roots@[r as int]));
            }
            r += 1;
        }
        proof {
            assert(roots@.take(roots@.len() as int) =~= roots@);
            lemma_ready_roots_in_range(dag.ops_spec(), dag.counts(), n as nat);
        }
        let hook_table = Self::build_hook_table(c, &id_to_key, Ghost(n as nat))?;
        let mut outcomes: Vec<FactoryOutcome> = Vec::with_capacity(params.factory_count as usize);
        let mut f: u32 = 0;
        while f < params.factory_count
            invariant
                f <= params.factory_count,
                outcomes@.len() == f,
            decreases params.factory_count - f,
        {
            outcomes.push(oracle.factory_outcome(f as u16, 0));
            f += 1;
        }
        let (trace, event_queue) = start_factories(&outcomes, n);
        proof {
            let evs = choose|evs: Seq<TimedEvent>| #[trigger] first_attempts(evs, outcomes@, outcomes@.len() as u32)
                && scheduled_all(Seq::empty(), evs, event_queue.pending());
            assert forall|x: TimedEvent| #[trigger] event_queue.pending().contains(x) implies x.cycle >= 0
                && event_in_range(x.event, n as nat) by {
                lemma_scheduled_first_attempts(evs, outcomes@, outcomes@.len() as u32, event_queue.pending(), x);
            }
        }
        let engine = Engine {
            dag,
            ready_set,
            factory_count: params.factory_count,
            buffer,
            routing: params.routing,
            position_index,
            event_queue,
            current_cycle: 0,
            seed: config.seed,
            max_cycles: config.max_cycles,
            feedback_delay: params.feedback_delay,
            stalled_gates: VecDeque::new(),
            hook_table,
            completed: vec_of_false(n),
            total_ops,
            completed_ops: 0,
            key_to_op_id,
            next_synthetic_id: 0,
            p_logical_bits: params.p_logical_bits,
            trace,
        };
        proof {
            let t = engine.trace@;
            lemma_no_completions(t);
            assert(no_stalls(t));
        }
        Ok(engine)
    }

    /// The hook dispatch table: for each `(hook, outcome)` index the keys of
    /// the operations to activate, later activations overwriting earlier
    /// ones at the same index.
    fn build_hook_table(c: &crate::circuit::ProfilerCircuit, id_to_key: &std::collections::HashMap<u64, OpKey>, Ghost(n): Ghost<nat>) -> (r: Result<Vec<Vec<OpKey>>, EngineError>)
        requires
            crate::validate::is_valid(*c),
            forall|x: u64| #![trigger id_to_key@.contains_key(x)] id_to_key@.contains_key(x) <==> crate::validate::has_id(c.ops@, x),
            forall|x: u64| #[trigger] id_to_key@.contains_key(x) ==> (id_to_key@[x].0 as int) < n,
            forall|i: int| 0 <= i < c.ops@.len() ==> id_to_key@[#[trigger] c.ops@[i].id] == OpKey(i as usize),
        ensures
            r matches Ok(t) ==> forall|h: int, j: int|
                0 <= h < t@.len() && 0 <= j < t@[h]@.len() ==> (#[trigger] t@[h]@[j]).0 < n,
            r matches Ok(t) ==> t@.map_values(|v: Vec<OpKey>| v@) == hook_table_of(c.ops@, c.hooks@, hook_slots(c.hooks@)),
            r is Ok,
    {
        let ghost ops = c.ops@;
        let ghost hooks = c.hooks@;
        proof {
            assert(crate::validate::unique_ids(ops));
        }
        let mut table_len: usize = 0;
        let mut h: usize = 0;
        while h < c.hooks.len()
            invariant
                h <= c.hooks@.len(),
                hooks == c.hooks@,
                table_len == hook_id_bound(hooks.take(h as int)),
            decreases c.hooks@.len() - h,
        {
            proof {
                assert(hooks.take(h as int + 1).drop_last() =~= hooks.take(h as int));
                assert(hooks.take(h as int + 1).last() == hooks[h as int]);
            }
            let v = (c.hooks[h].id as usize).saturating_add(1);
            if v > table_len {
                table_len = v;
            }
            h += 1;
        }
        proof {
            assert(hooks.take(hooks.len() as int) =~= hooks);
        }
        let table_len: usize = match table_len.checked_mul(2) {
            Some(l) => l,
            None => usize::MAX,
        };
        let ghost len = hook_slots(hooks);
        let mut table: Vec<Vec<OpKey>> = Vec::new();
        let mut k: usize = 0;
        while k < table_len
            invariant
                k <= table_len,
                table_len == len,
                table@.len() == k,
                forall|a: int, j: int| 0 <= a < table@.len() && 0 <= j < table@[a]@.len() ==> (#[trigger] table@[a]@[j]).0 < n,
                table@.map_values(|v: Vec<OpKey>| v@) == Seq::new(k as nat, |i: int| Seq::<OpKey>::empty()),
            decreases table_len - k,
        {
            let ghost before = table@;
            let empty: Vec<OpKey> = Vec::new();
            table.push(empty);
            proof {
                let views = table@.map_values(|v: Vec<OpKey>| v@);
                let before_views = before.map_values(|v: Vec<OpKey>| v@);
                assert forall|i: int| 0 <= i < k + 1 implies #[trigger] views[i] == Seq::<OpKey>::empty() by {
                    if i < k {
                        assert(table@[i] == before[i]);
                        assert(before_views[i] == Seq::<OpKey>::empty());
                    } else {
                        assert(table@[i] == empty);
                    }
                }
                assert(views =~= Seq::new((k + 1) as nat, |i: int| Seq::<OpKey>::empty()));
            }
            k += 1;
        }
        proof {
            assert(hooks.take(0) =~= Seq::<MeasurementHook>::empty());
        }
        let mut h: usize = 0;
        while h < c.hooks.len()
            invariant
                h <= c.hooks@.len(),
                hooks == c.hooks@,
                ops == c.ops@,
                crate::validate::unique_ids(ops),
                crate::validate::is_valid(*c),
                forall|x: u64| #![trigger id_to_key@.contains_key(x)] id_to_key@.contains_key(x) <==> crate::validate::has_id(c.ops@, x),
                forall|x: u64| #[trigger] id_to_key@.contains_key(x) ==> (id_to_key@[x].0 as int) < n,
                forall|i: int| 0 <= i < c.ops@.len() ==> id_to_key@[#[trigger] c.ops@[i].id] == OpKey(i as usize),
                forall|a: int, j: int| 0 <= a < table@.len() && 0 <= j < table@[a]@.len() ==> (#[trigger] table@[a]@[j]).0 < n,
                table@.map_values(|v: Vec<OpKey>| v@) == hook_table_of(ops, hooks.take(h as int), len),
            decreases c.hooks@.len() - h,
        {
            let hook = &c.hooks[h];
            let ghost acts = hook.activations@;
            let ghost base = hook_table_of(ops, hooks.take(h as int), len);
            proof {
                assert(acts.take(0) =~= Seq::<ConditionalActivation>::empty());
            }
            let mut a: usize = 0;
            while a < hook.activations.len()
                invariant
                    h < c.hooks@.len(),
                    *hook == c.hooks@[h as int],
                    acts == hook.activations@,
                    a <= hook.activations@.len(),
                    hooks == c.hooks@,
                    ops == c.ops@,
                    crate::validate::unique_ids(ops),
                    crate::validate::is_valid(*c),
                    forall|x: u64| #![trigger id_to_key@.contains_key(x)] id_to_key@.contains_key(x) <==> crate::validate::has_id(c.ops@, x),
                    forall|x: u64| #[trigger] id_to_key@.contains_key(x) ==> (id_to_key@[x].0 as int) < n,
                    forall|i: int| 0 <= i < c.ops@.len() ==> id_to_key@[#[trigger] c.ops@[i].id] == OpKey(i as usize),
                    forall|a: int, j: int| 0 <= a < table@.len() && 0 <= j < table@[a]@.len() ==> (#[trigger] table@[a]@[j]).0 < n,
                    table@.map_values(|v: Vec<OpKey>| v@) == apply_activations(base, hook.id, acts.take(a as int), ops),
                decreases hook.activations@.len() - a,
            {
                let act = &hook.activations[a];
                let ghost ids = act.ops_to_activate@;
                let mut keys: Vec<OpKey> = Vec::new();
                let mut t: usize = 0;
                while t < act.ops_to_activate.len()
                    invariant
                        h < c.hooks@.len(),
                        *hook == c.hooks@[h as int],
                        a < hook.activations@.len(),
                        *act == hook.activations@[a as int],
                        ids == act.ops_to_activate@,
                        t <= act.ops_to_activate@.len(),
                        ops == c.ops@,
                        crate::validate::unique_ids(ops),
                        crate::validate::is_valid(*c),
                        forall|x: u64| #![trigger id_to_key@.contains_key(x)] id_to_key@.contains_key(x) <==> crate::validate::has_id(c.ops@, x),
                        forall|x: u64| #[trigger] id_to_key@.contains_key(x) ==> (id_to_key@[x].0 as int) < n,
                        forall|i: int| 0 <= i < c.ops@.len() ==> id_to_key@[#[trigger] c.ops@[i].id] == OpKey(i as usize),
                        forall|j: int| 0 <= j < keys@.len() ==> (#[trigger] keys@[j]).0 < n,
                        keys@ == activation_keys(ops, ids.take(t as int)),
                    decreases act.ops_to_activate@.len() - t,
                {
                    let op_id = act.ops_to_activate[t];
                    proof {
                        lemma_valid_target_exists(*c, h as int, a as int, t as int);
                        assert(id_to_key@.contains_key(op_id));
                        let i = choose|i: int| 0 <= i < ops.len() && #[trigger] ops[i].id == op_id;
                        lemma_key_of_unique(ops, i);
                        assert(id_to_key@[op_id] == crate::dag::key_of(ops, op_id));
                    }
                    let key = match id_to_key.get(&op_id) {
                        Some(k) => *k,
                        None => {
                            return Err(EngineError::DanglingHookTarget { hook_id: hook.id, op_id });
                        },
                    };
                    keys.push(key);
                    proof {
                        assert(keys@ =~= activation_keys(ops, ids.take(t as int + 1)));
                    }
                    t += 1;
                }
                proof {
                    assert(ids.take(ids.len() as int) =~= ids);
                    assert(acts.take(a as int + 1).drop_last() =~= acts.take(a as int));
                    assert(acts.take(a as int + 1).last() == acts[a as int]);
                }
                let idx = hook_table_index(hook.id, act.outcome);
                if idx < table.len() {
                    let ghost before = table@;
                    table.set(idx, keys);
                    proof {
                        assert(table@.map_values(|v: Vec<OpKey>| v@) =~= before.map_values(|v: Vec<OpKey>| v@).update(
                            idx as int,
                            activation_keys(ops, ids),
                        ));
                        assert forall|a2: int, j: int| 0 <= a2 < table@.len() && 0 <= j < table@[a2]@.len() implies (#[trigger] table@[a2]@[j]).0 < n by {
                            if a2 != idx {
                                assert(table@[a2] == before[a2]);
                            }
                        }
                    }
                }
                a += 1;
            }
            proof {
                assert(acts.take(acts.len() as int) =~= acts);
                assert(hooks.take(h as int + 1).drop_last() =~= hooks.take(h as int));
                assert(hooks.take(h as int + 1).last() == hooks[h as int]);
            }
            h += 1;
        }
        proof {
            assert(hooks.take(hooks.len() as int) =~= hooks);
        }
        Ok(table)
    }
}

spec fn is_factory_event(e: EngineEvent) -> bool {
    e is FactoryProduced || e is FactoryFailed
}

proof fn lemma_run_factory_events(states: Seq<Seq<TimedEvent>>, evs: Seq<TimedEvent>, j: int)
    requires
        schedule_run(states, Seq::empty(), evs),
        forall|i: int| 0 <= i < evs.len() ==> is_factory_event(#[trigger] evs[i].event),
        0 <= j <= evs.len(),
    ensures
        forall|x: TimedEvent| #[trigger] states[j].contains(x) ==> is_factory_event(x.event),
    decreases j,
{
    if j > 0 {
        lemma_run_factory_events(states, evs, j - 1);
        assert(inserted_in_order(states[j - 1], evs[j - 1], states[j]));
        let i = choose|i: int|
            #![trigger states[j - 1].insert(i, evs[j - 1])]
            0 <= i <= states[j - 1].len() && states[j] == states[j - 1].insert(i, evs[j - 1]) && (forall|k: int|
                0 <= k < i ==> crate::events::key_le(#[trigger] states[j - 1][k], evs[j - 1])) && (forall|k: int|
                i <= k < states[j - 1].len() ==> !crate::events::key_le(#[trigger] states[j - 1][k], evs[j - 1]));
        assert forall|x: TimedEvent| #[trigger] states[j].contains(x) implies is_factory_event(x.event) by {
            let w = choose|w: int| 0 <= w < states[j].len() && states[j][w] == x;
            if w < i {
                assert(states[j - 1].contains(states[j - 1][w]));
            } else if w > i {
                assert(states[j][w] == states[j - 1][w - 1]);
                assert(states[j - 1].contains(states[j - 1][w - 1]));
            }
        }
    }
}

/// Every event pending after the first attempts are scheduled is a
/// factory event.
proof fn lemma_scheduled_first_attempts(
    evs: Seq<TimedEvent>,
    outcomes: Seq<FactoryOutcome>,
    factory_count: u32,
    after: Seq<TimedEvent>,
    x: TimedEvent,
)
    requires
        first_attempts(evs, outcomes, factory_count),
        scheduled_all(Seq::empty(), evs, after),
        after.contains(x),
    ensures
        is_factory_event(x.event),
{
    let states = choose|states: Seq<Seq<TimedEvent>>| #[trigger] schedule_run(states, Seq::empty(), evs) && states.last()
        == after;
    assert forall|i: int| 0 <= i < evs.len() implies is_factory_event(#[trigger] evs[i].event) by {
        assert(evs[i] == attempt_event(outcomes[i], i as u16, i as u64, 0));
    }
    lemma_run_factory_events(states, evs, evs.len() as int);
}

/// Start every factory at cycle zero with the outcomes `outcomes`, in
/// factory order: record each start and schedule each outcome's event.
#[verifier::rlimit(40)]
#[verifier::spinoff_prover]
pub fn start_factories(outcomes: &[FactoryOutcome], capacity_hint: usize) -> (r: (TraceCollector, EventQueue))
    requires
        outcomes@.len() <= u32::MAX,
    ensures
        r.0@ == initial_trace(outcomes@.len() as u32),
        r.1.pending().len() == outcomes@.len(),
        exists|evs: Seq<TimedEvent>| #[trigger] first_attempts(evs, outcomes@, outcomes@.len() as u32) && scheduled_all(
            Seq::empty(),
            evs,
            r.1.pending(),
        ),
        r.1.next_seq_spec() == outcomes@.len(),
{
    let mut trace = TraceCollector::new(capacity_hint);
    let mut event_queue = EventQueue::new();
    let ghost mut evs: Seq<TimedEvent> = Seq::empty();
    proof {
        lemma_scheduled_none(Seq::empty());
    }
    let factory_count = outcomes.len();
    let mut f: usize = 0;
    while f < factory_count
        invariant
            f <= factory_count,
            factory_count == outcomes@.len(),
            factory_count <= u32::MAX,
            trace@ == initial_trace(f as u32),
            event_queue.pending().len() == f,
            evs.len() == f,
            forall|j: int| 0 <= j < f ==> #[trigger] evs[j] == attempt_event(outcomes@[j], j as u16, j as u64, 0),
            scheduled_all(Seq::empty(), evs, event_queue.pending()),
            event_queue.next_seq_spec() == f,
        decreases factory_count - f,
    {
        let factory_id = f as u16;
        trace.record(0, TraceEventKind::FactoryStarted { factory_id });
        let (at, event) = match outcomes[f] {
            FactoryOutcome::Produced { completion_cycle } => (completion_cycle, EngineEvent::FactoryProduced { factory_id }),
            FactoryOutcome::Failed { failure_cycle } => (failure_cycle, EngineEvent::FactoryFailed { factory_id }),
        };
        let ghost pend = event_queue.pending();
        event_queue.schedule(at, event);
        proof {
            assert(trace@ =~= initial_trace((f + 1) as u32));
            let x = TimedEvent { cycle: at, seq: f as u64, event };
            assert(x == attempt_event(outcomes@[f as int], f as u16, f as u64, 0));
            lemma_scheduled_push(Seq::empty(), evs, pend, x, event_queue.pending());
            evs = evs.push(x);
            assert forall|j: int| 0 <= j < f + 1 implies #[trigger] evs[j] == attempt_event(outcomes@[j], j as u16, j as u64, 0) by {
                if j < f {
                    assert(evs[j] == evs.drop_last()[j]);
                }
            }
        }
        f += 1;
    }
    proof {
        assert(first_attempts(evs, outcomes@, outcomes@.len() as u32));
    }
    (trace, event_queue)
}

fn vec_of_false(n: usize) -> (v: Vec<bool>)
    ensures
        v@.len() == n,
        forall|i: int| 0 <= i < n ==> !v@[i],
{
    let mut v: Vec<bool> = Vec::with_capacity(n);
    let mut i: usize = 0;
    while i < n
        invariant
            i <= n,
            v@.len() == i,
            forall|k: int| 0 <= k < i ==> !v@[k],
        decreases n - i,
    {
        v.push(false);
        i += 1;
    }
    v
}

proof fn lemma_no_completions(t: Seq<TraceEvent>)
    requires
        forall|i: int| 0 <= i < t.len() ==> (#[trigger] t[i]).kind is FactoryStarted,
    ensures
        completions(t) == 0,
    decreases t.len(),
{
    if t.len() > 0 {
        assert(t.last().kind is FactoryStarted);
        lemma_no_completions(t.drop_last());
    }
}

proof fn lemma_ready_roots_in_range(ops: Seq<OpData>, counts: Seq<u32>, upto: nat)
    ensures
        forall|j: int|
            0 <= j < crate::dag::ready_roots(ops, counts, upto).len() ==> (#[trigger] crate::dag::ready_roots(
                ops,
                counts,
                upto,
            )[j]).0 < upto,
    decreases upto,
{
    if upto > 0 {
        lemma_ready_roots_in_range(ops, counts, (upto - 1) as nat);
        let prev = crate::dag::ready_roots(ops, counts, (upto - 1) as nat);
        let r = crate::dag::ready_roots(ops, counts, upto);
        assert forall|j: int| 0 <= j < r.len() implies (#[trigger] r[j]).0 < upto by {
            if j < prev.len() {
                assert(r[j] == prev[j]);
            }
        }
    }
}


impl Engine {
    /// The cycle being simulated.
    pub fn current_cycle(&self) -> (c: u64)
        ensures
            c == self.cycle_spec(),
    {
        self.current_cycle
    }

    /// First phase of a step: move to the cycle of the earliest pending
    /// event. Returns `false`, changing nothing, when no event is pending.
    pub fn advance(&mut self) -> (moved: bool)
        requires
            old(self).inv(),
        ensures
            final(self).inv(),
            moved == (old(self).pending_spec().len() > 0),
            !moved ==> *final(self) == *old(self),
            moved ==> final(self).cycle_spec() == old(self).pending_spec()[0].cycle,
            moved ==> forall|j: int|
                0 <= j < old(self).pending_spec().len() ==> final(self).cycle_spec() <= (
                #[trigger] old(self).pending_spec()[j]).cycle,
            old(self).cycle_spec() <= final(self).cycle_spec(),
            final(self).trace_spec() == old(self).trace_spec(),
            final(self).pending_spec() == old(self).pending_spec(),
            final(self).completed_ops_spec() == old(self).completed_ops_spec(),
            final(self).total_ops_spec() == old(self).total_ops_spec(),
            final(self).hook_table_spec() == old(self).hook_table_spec(),
    {
        match self.event_queue.peek_cycle() {
            None => false,
            Some(cycle) => {
                proof {
                    let p = self.event_queue.pending();
                    assert(p.contains(p[0]));
                    lemma_trace_later(self.trace@, self.current_cycle, cycle, self.buffer.capacity_spec());
                    assert forall|x: TimedEvent| #[trigger] p.contains(x) implies x.cycle >= cycle by {
                        let w = choose|w: int| 0 <= w < p.len() && p[w] == x;
                        assert(cycle <= p[w].cycle);
                    }
                }
                self.current_cycle = cycle;
                true
            },
        }
    }

    /// Second phase of a step: process the earliest pending event if it
    /// falls on the current cycle. Returns whether one was processed; when
    /// none was, nothing changes.
    pub fn process_next_event<O: EngineOracle>(&mut self, oracle: &mut O) -> (processed: bool)
        requires
            old(self).inv(),
        ensures
            final(self).inv(),
            processed == (old(self).pending_spec().len() > 0 && old(self).pending_spec()[0].cycle
                == old(self).cycle_spec()),
            !processed ==> *final(self) == *old(self),
            final(self).cycle_spec() == old(self).cycle_spec(),
            processed ==> exists|p: Engine| #[trigger]
                old(self).popped(&p) && p.event_step(&*final(self), old(self).pending_spec()[0].event),
    {
        match self.event_queue.peek_cycle() {
            Some(c) => {
                if c != self.current_cycle {
                    return false;
                }
            },
            None => {
                return false;
            },
        }
        let popped = self.event_queue.pop();
        match popped {
            Some(event) => {
                proof {
                    assert(old(self).event_queue.pending().contains(event));
                }
                let ghost p = *self;
                proof {
                    assert(old(self).popped(&p));
                }
                self.process_event(event, oracle);
                true
            },
            None => false,
        }
    }

    /// Last phase of a step: serve stalled gates from the buffer, then
    /// schedule every ready gate.
    pub fn finish_step(&mut self)
        requires
            old(self).inv(),
        ensures
            final(self).inv(),
            final(self).cycle_spec() == old(self).cycle_spec(),
            final(self).completed_ops_spec() == old(self).completed_ops_spec(),
            final(self).total_ops_spec() == old(self).total_ops_spec(),
            old(self).step_finished(&*final(self)),
    {
        self.try_serve_stalled_gates();
        let ghost m = *self;
        self.schedule_ready_gates();
        proof {
            assert(old(self).stalled_served(&m));
        }
    }

    /// Whether a run must stop here: a cycle limit is set and the next
    /// pending event falls on or after it.
    pub fn truncation_due(&self) -> (b: bool)
        ensures
            b == (self.max_cycles_spec() is Some && self.pending_spec().len() > 0
                && self.pending_spec()[0].cycle >= self.max_cycles_spec()->0),
    {
        match self.max_cycles {
            Some(max) => match self.event_queue.peek_cycle() {
                Some(c) => c >= max,
                None => false,
            },
            None => false,
        }
    }

    /// The cycle limit of the run.
    pub closed spec fn max_cycles_spec(&self) -> Option<u64> {
        self.max_cycles
    }

    /// Bit pattern of the logical error probability per consumed state.
    pub closed spec fn p_logical_spec(&self) -> u64 {
        self.p_logical_bits
    }

    /// The seed of the run.
    pub closed spec fn seed_spec(&self) -> u64 {
        self.seed
    }

    /// Seal the trace of a run that completed.
    pub fn finish(self) -> (t: Trace)
        requires
            self.inv(),
        ensures
            t.events@ == self.trace_spec(),
            t.seed == self.seed_spec(),
            t.total_cycles == self.cycle_spec(),
            !t.truncated,
            t.magic_states_consumed == crate::trace::states_consumed(self.trace_spec()),
            t.p_logical_bits == self.p_logical_spec(),
            trace_ok(t.events@, t.total_cycles, self.capacity_spec()),
    {
        let consumed = self.trace.consumed_states();
        self.trace.finish(self.seed, self.current_cycle, self.p_logical_bits, consumed)
    }

    /// Seal the trace of a run stopped by the cycle limit.
    pub fn finish_truncated(self) -> (t: Trace)
        requires
            self.inv(),
        ensures
            t.events@ == self.trace_spec(),
            t.seed == self.seed_spec(),
            t.total_cycles == self.cycle_spec(),
            t.truncated,
            t.magic_states_consumed == crate::trace::states_consumed(self.trace_spec()),
            t.p_logical_bits == self.p_logical_spec(),
            trace_ok(t.events@, t.total_cycles, self.capacity_spec()),
    {
        let consumed = self.trace.consumed_states();
        self.trace.finish_truncated(self.seed, self.current_cycle, self.p_logical_bits, consumed)
    }
}

/// In every state of an engine, the trace is ordered by cycle and reaches
/// no later than the current cycle, every buffer event reports an occupancy
/// within the buffer's capacity, the completed-operation count equals the
/// number of completion events, and a circuit without T-gates or rotations
/// never stalls.
pub proof fn law_engine_state(e: &Engine)
    requires
        e.inv(),
    ensures
        trace_ok(e.trace_spec(), e.cycle_spec(), e.capacity_spec()),
        e.completed_ops_spec() == completions(e.trace_spec()),
        magic_free(e.dag_spec().ops_spec()) ==> no_stalls(e.trace_spec()),
        forall|j: int| 0 <= j < e.pending_spec().len() ==> (#[trigger] e.pending_spec()[j]).cycle >= e.cycle_spec(),
{
    let p = e.pending_spec();
    assert forall|j: int| 0 <= j < p.len() implies (#[trigger] p[j]).cycle >= e.cycle_spec() by {
        assert(p.contains(p[j]));
    }
}

} // verus!
