//! What the engine waits for before a run is complete.
//!
//! The engine counts the operations it must complete: the operations active
//! at the start, every operation a measurement outcome activates, and every
//! fixup inserted after an injection error. The laws here show that this
//! count always equals those three sources as the trace and the event queue
//! record them: activations already recorded, activations still scheduled,
//! and fixups recorded.
use vstd::prelude::*;

use crate::circuit::MeasurementHookId;
use crate::circuit::MeasurementOutcome;
use crate::dag::OpKind;
use crate::engine::completions;
use crate::engine::ev;
use crate::engine::routing_events;
use crate::engine::first_attempts;
use crate::engine::hook_index_spec;
use crate::engine::initial_trace;
use crate::engine::sat_add_u64;
use crate::engine::schedule_run;
use crate::engine::scheduled_all;
use crate::engine::Engine;
use crate::events::inserted_in_order;
use crate::events::next_seq_after;
use crate::events::EngineEvent;
use crate::events::TimedEvent;
use crate::ready_queue::OpKey;
use crate::trace::TraceEvent;
use crate::trace::TraceEventKind;

verus! {

/// The operations an event of the trace reports as activated.
pub open spec fn activation_count(k: TraceEventKind) -> nat {
    match k {
        TraceEventKind::OpsActivated { activated_count, .. } => activated_count as nat,
        _ => 0,
    }
}

/// Operations recorded as activated in `t`.
pub open spec fn activated_total(t: Seq<TraceEvent>) -> nat
    decreases t.len(),
{
    if t.len() == 0 {
        0
    } else {
        activated_total(t.drop_last()) + activation_count(t.last().kind)
    }
}

/// Fixups recorded as inserted in `t`.
pub open spec fn fixups_inserted(t: Seq<TraceEvent>) -> nat
    decreases t.len(),
{
    if t.len() == 0 {
        0
    } else {
        fixups_inserted(t.drop_last()) + if t.last().kind is FixupInserted {
            1nat
        } else {
            0nat
        }
    }
}

/// The operations a pending event of `e` will activate: for a scheduled
/// activation, the hook entry it names; none for any other event.
pub open spec fn activation_weight(e: &Engine, x: TimedEvent) -> nat {
    match x.event {
        EngineEvent::HookActivation { hook_id, outcome, .. } => e.hook_entry(hook_index_spec(hook_id, outcome)).len(),
        _ => 0,
    }
}

/// Operations that the scheduled activations among `s` will activate.
pub open spec fn deferred_ops(e: &Engine, s: Seq<TimedEvent>) -> nat
    decreases s.len(),
{
    if s.len() == 0 {
        0
    } else {
        deferred_ops(e, s.drop_last()) + activation_weight(e, s.last())
    }
}

/// Operations added to the run since it started, as the state records
/// them: activations recorded, fixups recorded, and activations scheduled.
pub open spec fn ops_accounted(e: &Engine) -> nat {
    activated_total(e.trace_spec()) + fixups_inserted(e.trace_spec()) + deferred_ops(e, e.pending_spec())
}

/// `x` saturated to `u64`.
pub open spec fn sat_u64(x: nat) -> u64 {
    if x <= u64::MAX {
        x as u64
    } else {
        u64::MAX
    }
}

/// Every hook entry is short enough for its activation count to be
/// recorded exactly.
pub open spec fn counts_fit(e: &Engine) -> bool {
    forall|i: int| #[trigger] e.hook_entry(i).len() <= u32::MAX
}

/// No event of `t` records an activation or a fixup.
pub open spec fn quiet(t: Seq<TraceEvent>) -> bool {
    forall|i: int|
        0 <= i < t.len() ==> !((#[trigger] t[i]).kind is OpsActivated) && !(t[i].kind is FixupInserted)
}

proof fn lemma_totals_concat(a: Seq<TraceEvent>, b: Seq<TraceEvent>)
    ensures
        activated_total(a + b) == activated_total(a) + activated_total(b),
        fixups_inserted(a + b) == fixups_inserted(a) + fixups_inserted(b),
    decreases b.len(),
{
    if b.len() == 0 {
        assert(a + b =~= a);
    } else {
        lemma_totals_concat(a, b.drop_last());
        assert((a + b).drop_last() =~= a + b.drop_last());
        assert((a + b).last() == b.last());
    }
}

proof fn lemma_quiet_totals(t: Seq<TraceEvent>)
    requires
        quiet(t),
    ensures
        activated_total(t) == 0,
        fixups_inserted(t) == 0,
    decreases t.len(),
{
    if t.len() > 0 {
        assert(quiet(t.drop_last())) by {
            assert forall|i: int| 0 <= i < t.drop_last().len() implies !((#[trigger] t.drop_last()[i]).kind is OpsActivated)
                && !(t.drop_last()[i].kind is FixupInserted) by {
                assert(t.drop_last()[i] == t[i]);
            }
        }
        lemma_quiet_totals(t.drop_last());
        assert(t.last() == t[t.len() - 1]);
    }
}

/// Appending events that record no activation and no fixup leaves both
/// totals unchanged.
proof fn lemma_quiet_append(a: Seq<TraceEvent>, b: Seq<TraceEvent>)
    requires
        quiet(b),
    ensures
        activated_total(a + b) == activated_total(a),
        fixups_inserted(a + b) == fixups_inserted(a),
{
    lemma_totals_concat(a, b);
    lemma_quiet_totals(b);
}

proof fn lemma_deferred_concat(e: &Engine, a: Seq<TimedEvent>, b: Seq<TimedEvent>)
    ensures
        deferred_ops(e, a + b) == deferred_ops(e, a) + deferred_ops(e, b),
    decreases b.len(),
{
    if b.len() == 0 {
        assert(a + b =~= a);
    } else {
        lemma_deferred_concat(e, a, b.drop_last());
        assert((a + b).drop_last() =~= a + b.drop_last());
        assert((a + b).last() == b.last());
    }
}

proof fn lemma_deferred_single(e: &Engine, x: TimedEvent)
    ensures
        deferred_ops(e, seq![x]) == activation_weight(e, x),
{
    let s = seq![x];
    assert(s.drop_last() =~= Seq::<TimedEvent>::empty());
    assert(s.last() == x);
    assert(deferred_ops(e, s.drop_last()) == 0);
}

/// Inserting `x` anywhere adds its weight.
proof fn lemma_deferred_insert(e: &Engine, s: Seq<TimedEvent>, x: TimedEvent, t: Seq<TimedEvent>)
    requires
        inserted_in_order(s, x, t),
    ensures
        deferred_ops(e, t) == deferred_ops(e, s) + activation_weight(e, x),
{
    let i = choose|i: int|
        0 <= i <= s.len() && t == s.insert(i, x) && (forall|j: int|
            0 <= j < i ==> crate::events::key_le(#[trigger] s[j], x)) && (forall|j: int|
            i <= j < s.len() ==> !crate::events::key_le(#[trigger] s[j], x));
    assert(t =~= s.take(i) + seq![x] + s.skip(i));
    assert(s =~= s.take(i) + s.skip(i));
    lemma_deferred_concat(e, s.take(i) + seq![x], s.skip(i));
    lemma_deferred_concat(e, s.take(i), seq![x]);
    lemma_deferred_concat(e, s.take(i), s.skip(i));
    lemma_deferred_single(e, x);
}

/// Taking the first event off removes its weight.
proof fn lemma_deferred_drop_first(e: &Engine, s: Seq<TimedEvent>)
    requires
        s.len() > 0,
    ensures
        deferred_ops(e, s) == activation_weight(e, s[0]) + deferred_ops(e, s.drop_first()),
{
    assert(s =~= seq![s[0]] + s.drop_first());
    lemma_deferred_concat(e, seq![s[0]], s.drop_first());
    lemma_deferred_single(e, s[0]);
}

proof fn lemma_deferred_run(
    e: &Engine,
    states: Seq<Seq<TimedEvent>>,
    before: Seq<TimedEvent>,
    evs: Seq<TimedEvent>,
    j: int,
)
    requires
        schedule_run(states, before, evs),
        forall|i: int| 0 <= i < evs.len() ==> !((#[trigger] evs[i]).event is HookActivation),
        0 <= j <= evs.len(),
    ensures
        deferred_ops(e, states[j]) == deferred_ops(e, before),
    decreases j,
{
    if j > 0 {
        lemma_deferred_run(e, states, before, evs, j - 1);
        assert(inserted_in_order(states[j - 1], evs[j - 1], states[j]));
        lemma_deferred_insert(e, states[j - 1], evs[j - 1], states[j]);
    }
}

/// Scheduling events none of which is an activation leaves the scheduled
/// activations unchanged.
proof fn lemma_deferred_scheduled(e: &Engine, before: Seq<TimedEvent>, evs: Seq<TimedEvent>, after: Seq<TimedEvent>)
    requires
        scheduled_all(before, evs, after),
        forall|i: int| 0 <= i < evs.len() ==> !((#[trigger] evs[i]).event is HookActivation),
    ensures
        deferred_ops(e, after) == deferred_ops(e, before),
{
    let states = choose|states: Seq<Seq<TimedEvent>>| #[trigger] schedule_run(states, before, evs) && states.last() == after;
    lemma_deferred_run(e, states, before, evs, evs.len() as int);
}

/// Weights are the same in states with the same hook table.
proof fn lemma_deferred_same_hooks(a: &Engine, b: &Engine, s: Seq<TimedEvent>)
    requires
        a.hook_table_spec() == b.hook_table_spec(),
    ensures
        deferred_ops(a, s) == deferred_ops(b, s),
    decreases s.len(),
{
    a.lemma_hook_entries_agree(b);
    if s.len() > 0 {
        lemma_deferred_same_hooks(a, b, s.drop_last());
    }
}

proof fn lemma_sat_add(x: nat, d: nat)
    requires
        d <= u64::MAX,
    ensures
        sat_add_u64(sat_u64(x), d as u64) == sat_u64(x + d),
{
}

/// At the start of a run nothing has been activated, no fixup inserted and
/// no activation scheduled: only the factories' first attempts are pending.
pub proof fn law_ops_accounted_start(
    e: &Engine,
    factory_count: u32,
    evs: Seq<TimedEvent>,
    outcomes: Seq<crate::factory::FactoryOutcome>,
)
    requires
        e.trace_spec() == initial_trace(factory_count),
        first_attempts(evs, outcomes, factory_count),
        scheduled_all(Seq::empty(), evs, e.pending_spec()),
    ensures
        ops_accounted(e) == 0,
{
    let t = e.trace_spec();
    assert(quiet(t)) by {
        assert forall|i: int| 0 <= i < t.len() implies !((#[trigger] t[i]).kind is OpsActivated) && !(
        t[i].kind is FixupInserted) by {
            assert(t[i].kind is FactoryStarted);
        }
    }
    lemma_quiet_totals(t);
    assert forall|i: int| 0 <= i < evs.len() implies !((#[trigger] evs[i]).event is HookActivation) by {
        assert(evs[i] == crate::engine::attempt_event(outcomes[i], i as u16, i as u64, 0));
    }
    lemma_deferred_scheduled(e, Seq::empty(), evs, e.pending_spec());
}

/// The total the engine waits for is `k` operations plus those added to
/// the run since it started, saturated to `u64`.
pub open spec fn accounted_from(e: &Engine, k: nat) -> bool {
    e.total_ops_spec() == sat_u64(k + ops_accounted(e))
}

proof fn lemma_totals_single(y: TraceEvent)
    ensures
        activated_total(seq![y]) == activation_count(y.kind),
        fixups_inserted(seq![y]) == if y.kind is FixupInserted {
            1nat
        } else {
            0nat
        },
{
    let s = seq![y];
    assert(s.drop_last() =~= Seq::<TraceEvent>::empty());
    assert(s.last() == y);
    assert(activated_total(s.drop_last()) == 0);
    assert(fixups_inserted(s.drop_last()) == 0);
}

proof fn lemma_quiet_one(y: TraceEvent)
    requires
        !(y.kind is OpsActivated),
        !(y.kind is FixupInserted),
    ensures
        quiet(seq![y]),
{
    assert forall|i: int| 0 <= i < seq![y].len() implies !((#[trigger] seq![y][i]).kind is OpsActivated) && !(
    seq![y][i].kind is FixupInserted) by {
        assert(seq![y][i] == y);
    }
}

proof fn lemma_fit_same_hooks(a: &Engine, b: &Engine)
    requires
        counts_fit(a),
        a.hook_table_spec() == b.hook_table_spec(),
    ensures
        counts_fit(b),
{
    a.lemma_hook_entries_agree(b);
    assert forall|i: int| #[trigger] b.hook_entry(i).len() <= u32::MAX by {
        assert(a.hook_entry(i).len() <= u32::MAX);
    }
}

/// `b` records the quiet events `q` after `a`'s and has the same pending
/// events: nothing is added to the run.
proof fn lemma_frame(a: &Engine, b: &Engine, q: Seq<TraceEvent>)
    requires
        a.hook_table_spec() == b.hook_table_spec(),
        b.trace_spec() == a.trace_spec() + q,
        quiet(q),
        b.pending_spec() == a.pending_spec(),
    ensures
        ops_accounted(b) == ops_accounted(a),
{
    lemma_quiet_append(a.trace_spec(), q);
    lemma_deferred_same_hooks(a, b, a.pending_spec());
}

/// `b` records the quiet events `q` after `a`'s and schedules `x`: the
/// operations `x` will activate are added.
proof fn lemma_frame_insert(a: &Engine, b: &Engine, q: Seq<TraceEvent>, x: TimedEvent)
    requires
        a.hook_table_spec() == b.hook_table_spec(),
        b.trace_spec() == a.trace_spec() + q,
        quiet(q),
        inserted_in_order(a.pending_spec(), x, b.pending_spec()),
    ensures
        ops_accounted(b) == ops_accounted(a) + activation_weight(a, x),
{
    lemma_quiet_append(a.trace_spec(), q);
    lemma_deferred_insert(b, a.pending_spec(), x, b.pending_spec());
    lemma_deferred_same_hooks(a, b, a.pending_spec());
    a.lemma_hook_entries_agree(b);
}

proof fn lemma_factory_step(p: &Engine, n: &Engine, f: u16, produced: bool)
    requires
        p.factory_step(n, f, produced),
    ensures
        ops_accounted(n) == ops_accounted(p),
        n.total_ops_spec() == p.total_ops_spec(),
        n.hook_table_spec() == p.hook_table_spec(),
{
    let m = choose|m: Engine| #[trigger] p.factory_outcome_recorded(&m, f, produced) && m.factory_restarted(n, f);
    let o = choose|o: crate::factory::FactoryOutcome| #[trigger] m.factory_restarted_with(n, f, o);
    m.lemma_same_config_hooks(p);
    n.lemma_same_config_hooks(&m);
    let q = p.factory_outcome_events(f, produced);
    assert(quiet(q)) by {
        assert forall|i: int| 0 <= i < q.len() implies !((#[trigger] q[i]).kind is OpsActivated) && !(
        q[i].kind is FixupInserted) by {
            if produced {
                assert(q[i].kind is FactoryProduced || q[i].kind is BufferEnqueue || q[i].kind is BufferFull);
            } else {
                assert(q[i].kind is FactoryFailed);
            }
        }
    }
    lemma_frame(p, &m, q);
    if (f as u32) < m.factory_count_spec() {
        let y = ev(m.cycle_spec(), TraceEventKind::FactoryStarted { factory_id: f });
        assert(n.trace_spec() =~= m.trace_spec() + seq![y]);
        lemma_quiet_one(y);
        let x = crate::engine::attempt_event(o, f, m.next_seq_spec(), m.cycle_spec());
        lemma_frame_insert(&m, n, seq![y], x);
    } else {
        assert(n.trace_spec() =~= m.trace_spec() + Seq::<TraceEvent>::empty());
        lemma_frame(&m, n, Seq::<TraceEvent>::empty());
    }
}

proof fn lemma_hook_activated(s: &Engine, n: &Engine, gate: OpKey, h: MeasurementHookId, o: MeasurementOutcome)
    requires
        s.hook_activated(n, gate, h, o),
        counts_fit(s),
    ensures
        ops_accounted(n) == ops_accounted(s) + s.hook_entry(hook_index_spec(h, o)).len(),
        n.total_ops_spec() == s.total_ops_spec(),
        n.hook_table_spec() == s.hook_table_spec(),
{
    let keys = s.hook_entry(hook_index_spec(h, o));
    if keys.len() > 0 {
        n.lemma_same_config_hooks(s);
        let y = ev(
            s.cycle_spec(),
            TraceEventKind::OpsActivated { gate: s.trace_id_spec(gate), activated_count: keys.len() as u32 },
        );
        assert(n.trace_spec() =~= s.trace_spec() + seq![y]);
        lemma_totals_concat(s.trace_spec(), seq![y]);
        lemma_totals_single(y);
        assert(keys.len() <= u32::MAX);
        lemma_deferred_same_hooks(s, n, s.pending_spec());
    }
}

proof fn lemma_hook_dispatched(s: &Engine, n: &Engine, g: OpKey, h: MeasurementHookId, o: MeasurementOutcome, k: nat)
    requires
        s.hook_dispatched(n, g, h, o),
        counts_fit(s),
        accounted_from(s, k),
    ensures
        accounted_from(n, k),
        n.hook_table_spec() == s.hook_table_spec(),
{
    let len = s.hook_entry(hook_index_spec(h, o)).len();
    let total = sat_add_u64(s.total_ops_spec(), len as u64);
    let m = choose|m: Engine| #[trigger]
        s.outcome_recorded(&m, g, o, total) && if s.feedback_delay_spec() == 0 {
            m.hook_activated(n, g, h, o)
        } else {
            m.activation_scheduled(n, g, h, o)
        };
    m.lemma_same_config_hooks(s);
    s.lemma_hook_entries_agree(&m);
    lemma_fit_same_hooks(s, &m);
    let y = ev(s.cycle_spec(), TraceEventKind::MeasurementOutcome { gate: s.trace_id_spec(g), outcome: o });
    assert(m.trace_spec() =~= s.trace_spec() + seq![y]);
    lemma_quiet_one(y);
    lemma_frame(s, &m, seq![y]);
    assert(len <= u32::MAX);
    lemma_sat_add(k + ops_accounted(s), len);
    if s.feedback_delay_spec() == 0 {
        lemma_hook_activated(&m, n, g, h, o);
    } else {
        n.lemma_same_config_hooks(&m);
        let x = TimedEvent {
            cycle: sat_add_u64(m.cycle_spec(), m.feedback_delay_spec()),
            seq: m.next_seq_spec(),
            event: EngineEvent::HookActivation { gate: g, hook_id: h, outcome: o },
        };
        assert(n.trace_spec() =~= m.trace_spec() + Seq::<TraceEvent>::empty());
        lemma_frame_insert(&m, n, Seq::<TraceEvent>::empty(), x);
    }
}

proof fn lemma_hook_part(a: &Engine, b: &Engine, g: OpKey, k: nat)
    requires
        a.hook_part(b, g),
        counts_fit(a),
        accounted_from(a, k),
    ensures
        accounted_from(b, k),
        b.hook_table_spec() == a.hook_table_spec(),
{
    let o = choose|o: MeasurementOutcome| #[trigger] a.hook_part_with(b, g, o);
    match a.kind_of(g) {
        OpKind::Measurement { hook: Some(h) } => {
            lemma_hook_dispatched(a, b, g, h, o, k);
        },
        _ => {},
    }
}

proof fn lemma_after_completion(a: &Engine, n: &Engine, g: OpKey, k: nat)
    requires
        a.after_completion(n, g),
        counts_fit(a),
        accounted_from(a, k),
    ensures
        accounted_from(n, k),
        n.hook_table_spec() == a.hook_table_spec(),
{
    let (inj, o) = choose|inj: bool, o: MeasurementOutcome| #[trigger] a.after_completion_with(n, g, inj, o);
    if inj && crate::engine::needs_magic(a.kind_of(g)) {
        n.lemma_same_config_hooks(a);
        let id = a.trace_id_spec(g);
        let y1 = ev(a.cycle_spec(), TraceEventKind::InjectionError { gate: id });
        let y2 = ev(
            a.cycle_spec(),
            TraceEventKind::FixupInserted { fixup: crate::trace::SYNTHETIC_ID_FLAG | a.next_synthetic_spec(), original: id },
        );
        assert(seq![y1, y2] =~= seq![y1] + seq![y2]);
        lemma_totals_concat(seq![y1], seq![y2]);
        lemma_totals_single(y1);
        lemma_totals_single(y2);
        lemma_totals_concat(a.trace_spec(), seq![y1, y2]);
        lemma_deferred_same_hooks(a, n, a.pending_spec());
        lemma_sat_add(k + ops_accounted(a), 1);
    } else {
        let b = choose|b: Engine| #[trigger] a.hook_part_with(&b, g, o) && b.successors_released(n, g);
        assert(a.hook_part(&b, g));
        lemma_hook_part(a, &b, g, k);
        n.lemma_same_config_hooks(&b);
        assert(n.trace_spec() =~= b.trace_spec() + Seq::<TraceEvent>::empty());
        lemma_frame(&b, n, Seq::<TraceEvent>::empty());
    }
}

proof fn lemma_gate_completed(p: &Engine, n: &Engine, g: OpKey, k: nat)
    requires
        p.gate_completed(n, g),
        counts_fit(p),
        accounted_from(p, k),
    ensures
        accounted_from(n, k),
        n.hook_table_spec() == p.hook_table_spec(),
{
    let a = choose|a: Engine| #[trigger] p.completion_recorded(&a, g) && a.after_completion(n, g);
    a.lemma_same_config_hooks(p);
    let y = ev(p.cycle_spec(), p.completion_kind(g));
    assert(a.trace_spec() =~= p.trace_spec() + seq![y]);
    lemma_quiet_one(y);
    lemma_frame(p, &a, seq![y]);
    lemma_fit_same_hooks(p, &a);
    lemma_after_completion(&a, n, g, k);
}

/// Processing an event keeps the total the engine waits for equal to the
/// operations active at the start plus every operation activated, every
/// fixup inserted and every activation still scheduled: when the state
/// before accounts for its total from `k` initial operations, so does the
/// state after. Activation counts are recorded as `u32`, so the hook
/// entries must fit in one.
pub proof fn law_ops_accounted_event(old: &Engine, p: &Engine, new: &Engine, k: nat)
    requires
        counts_fit(old),
        accounted_from(old, k),
        old.pending_spec().len() > 0,
        old.popped(p),
        p.event_step(new, old.pending_spec()[0].event),
    ensures
        accounted_from(new, k),
        counts_fit(new),
        new.hook_table_spec() == old.hook_table_spec(),
{
    p.lemma_same_config_hooks(old);
    lemma_fit_same_hooks(old, p);
    old.lemma_hook_entries_agree(p);
    let first = old.pending_spec()[0];
    lemma_deferred_drop_first(old, old.pending_spec());
    lemma_deferred_same_hooks(old, p, p.pending_spec());
    match first.event {
        EngineEvent::FactoryProduced { factory_id } => {
            lemma_factory_step(p, new, factory_id, true);
        },
        EngineEvent::FactoryFailed { factory_id } => {
            lemma_factory_step(p, new, factory_id, false);
        },
        EngineEvent::GateCompleted { gate } => {
            lemma_gate_completed(p, new, gate, k);
        },
        EngineEvent::HookActivation { gate, hook_id, outcome } => {
            lemma_hook_activated(p, new, gate, hook_id, outcome);
        },
    }
    lemma_fit_same_hooks(p, new);
}

proof fn lemma_quiet_concat(a: Seq<TraceEvent>, b: Seq<TraceEvent>)
    requires
        quiet(a),
        quiet(b),
    ensures
        quiet(a + b),
{
    assert forall|i: int| 0 <= i < (a + b).len() implies !((#[trigger] (a + b)[i]).kind is OpsActivated) && !((a
        + b)[i].kind is FixupInserted) by {
        if i < a.len() {
            assert((a + b)[i] == a[i]);
        } else {
            assert((a + b)[i] == b[i - a.len()]);
        }
    }
}

proof fn lemma_quiet_two(y1: TraceEvent, y2: TraceEvent)
    requires
        !(y1.kind is OpsActivated),
        !(y1.kind is FixupInserted),
        !(y2.kind is OpsActivated),
        !(y2.kind is FixupInserted),
    ensures
        quiet(seq![y1, y2]),
{
    lemma_quiet_one(y1);
    lemma_quiet_one(y2);
    assert(seq![y1, y2] =~= seq![y1] + seq![y2]);
    lemma_quiet_concat(seq![y1], seq![y2]);
}

proof fn lemma_quiet_three(y1: TraceEvent, y2: TraceEvent, y3: TraceEvent)
    requires
        !(y1.kind is OpsActivated),
        !(y1.kind is FixupInserted),
        !(y2.kind is OpsActivated),
        !(y2.kind is FixupInserted),
        !(y3.kind is OpsActivated),
        !(y3.kind is FixupInserted),
    ensures
        quiet(seq![y1, y2, y3]),
{
    lemma_quiet_two(y1, y2);
    lemma_quiet_one(y3);
    assert(seq![y1, y2, y3] =~= seq![y1, y2] + seq![y3]);
    lemma_quiet_concat(seq![y1, y2], seq![y3]);
}

proof fn lemma_routing_quiet(id: u64, lat: u32, cur: u64)
    ensures
        quiet(routing_events(id, lat, cur)),
{
    if lat > 0 {
        lemma_quiet_two(
            ev(cur, TraceEventKind::RoutingStarted { gate: id }),
            ev(cur, TraceEventKind::RoutingCompleted { gate: id, latency: lat }),
        );
    }
}

/// No event of `s` is an activation.
pub open spec fn no_activations(s: Seq<TimedEvent>) -> bool {
    forall|i: int| 0 <= i < s.len() ==> !((#[trigger] s[i]).event is HookActivation)
}

proof fn lemma_no_activations_cons(x: TimedEvent, s: Seq<TimedEvent>)
    requires
        !(x.event is HookActivation),
        no_activations(s),
    ensures
        no_activations(seq![x] + s),
{
    assert forall|i: int| 0 <= i < (seq![x] + s).len() implies !((#[trigger] (seq![x] + s)[i]).event is HookActivation) by {
        if i == 0 {
            assert((seq![x] + s)[i] == x);
        } else {
            assert((seq![x] + s)[i] == s[i - 1]);
        }
    }
}

proof fn lemma_serve_pass_quiet(e: &Engine, st: Seq<(OpKey, u64)>, occ: nat, seq: u64)
    ensures
        quiet(e.serve_pass(st, occ, seq).0),
        no_activations(e.serve_pass(st, occ, seq).1),
    decreases st.len(),
{
    if st.len() == 0 || occ == 0 {
    } else {
        let g = st[0].0;
        let cur = e.cycle_spec();
        let id = e.trace_id_spec(g);
        lemma_serve_pass_quiet(e, st.drop_first(), (occ - 1) as nat, next_seq_after(seq));
        let r = e.serve_pass(st.drop_first(), (occ - 1) as nat, next_seq_after(seq));
        let y1 = ev(cur, TraceEventKind::BufferDequeue { occupancy: (occ - 1) as u32 });
        let y2 = ev(cur, TraceEventKind::GateServed { gate: id, wait: crate::engine::wait_since(cur, st[0].1) });
        lemma_quiet_two(y1, y2);
        lemma_routing_quiet(id, e.latency_of(g), cur);
        lemma_quiet_concat(seq![y1, y2], routing_events(id, e.latency_of(g), cur));
        lemma_quiet_concat(seq![y1, y2] + routing_events(id, e.latency_of(g), cur), r.0);
        lemma_no_activations_cons(e.completion_event(g, seq), r.1);
    }
}

proof fn lemma_ready_pass_quiet(e: &Engine, q: Seq<OpKey>, occ: nat, seq: u64)
    ensures
        quiet(e.ready_pass(q, occ, seq).0),
        no_activations(e.ready_pass(q, occ, seq).1),
    decreases q.len(),
{
    if q.len() > 0 {
        let g = q[0];
        let cur = e.cycle_spec();
        let id = e.trace_id_spec(g);
        let ready = ev(cur, TraceEventKind::GateReady { gate: id });
        let rt = routing_events(id, e.latency_of(g), cur);
        lemma_routing_quiet(id, e.latency_of(g), cur);
        if crate::engine::needs_magic(e.kind_of(g)) {
            if occ > 0 {
                lemma_ready_pass_quiet(e, q.drop_first(), (occ - 1) as nat, next_seq_after(seq));
                let r = e.ready_pass(q.drop_first(), (occ - 1) as nat, next_seq_after(seq));
                let y2 = ev(cur, TraceEventKind::BufferDequeue { occupancy: (occ - 1) as u32 });
                let y3 = ev(cur, TraceEventKind::GateServed { gate: id, wait: 0 });
                lemma_quiet_three(ready, y2, y3);
                lemma_quiet_concat(seq![ready, y2, y3], rt);
                lemma_quiet_concat(seq![ready, y2, y3] + rt, r.0);
                lemma_no_activations_cons(e.completion_event(g, seq), r.1);
            } else {
                lemma_ready_pass_quiet(e, q.drop_first(), occ, seq);
                let r = e.ready_pass(q.drop_first(), occ, seq);
                let y2 = ev(cur, TraceEventKind::GateStalled { gate: id });
                lemma_quiet_two(ready, y2);
                lemma_quiet_concat(seq![ready, y2], r.0);
            }
        } else {
            lemma_ready_pass_quiet(e, q.drop_first(), occ, next_seq_after(seq));
            let r = e.ready_pass(q.drop_first(), occ, next_seq_after(seq));
            let y2 = ev(cur, TraceEventKind::GateScheduled { gate: id });
            lemma_quiet_two(ready, y2);
            lemma_quiet_concat(seq![ready, y2], rt);
            lemma_quiet_concat(seq![ready, y2] + rt, r.0);
            lemma_no_activations_cons(e.completion_event(g, seq), r.1);
        }
    }
}

/// Finishing a step, which only schedules gates, adds nothing to the run:
/// the total the engine waits for and the operations accounted for are
/// both unchanged.
pub proof fn law_ops_accounted_finish(old: &Engine, new: &Engine)
    requires
        old.step_finished(new),
    ensures
        ops_accounted(new) == ops_accounted(old),
        new.total_ops_spec() == old.total_ops_spec(),
        new.hook_table_spec() == old.hook_table_spec(),
{
    let m = choose|m: Engine| #[trigger] old.stalled_served(&m) && m.ready_scheduled(new);
    m.lemma_same_config_hooks(old);
    new.lemma_same_config_hooks(&m);
    let sv = old.serve_pass(old.stalled_spec(), old.occupancy_spec(), old.next_seq_spec());
    lemma_serve_pass_quiet(old, old.stalled_spec(), old.occupancy_spec(), old.next_seq_spec());
    lemma_quiet_append(old.trace_spec(), sv.0);
    lemma_deferred_scheduled(&m, old.pending_spec(), sv.1, m.pending_spec());
    lemma_deferred_same_hooks(old, &m, old.pending_spec());
    let rd = m.ready_pass(m.ready_spec(), m.occupancy_spec(), m.next_seq_spec());
    lemma_ready_pass_quiet(&m, m.ready_spec(), m.occupancy_spec(), m.next_seq_spec());
    lemma_quiet_append(m.trace_spec(), rd.0);
    lemma_deferred_scheduled(new, m.pending_spec(), rd.1, new.pending_spec());
    lemma_deferred_same_hooks(&m, new, m.pending_spec());
}

/// Moving to the next event's cycle records nothing and schedules nothing.
pub proof fn law_ops_accounted_advance(old: &Engine, new: &Engine)
    requires
        new.trace_spec() == old.trace_spec(),
        new.pending_spec() == old.pending_spec(),
        new.hook_table_spec() == old.hook_table_spec(),
    ensures
        ops_accounted(new) == ops_accounted(old),
{
    lemma_deferred_same_hooks(old, new, old.pending_spec());
}

/// When a run is complete, every operation the engine waited for has a
/// completion recorded: the completions in the trace number at least the
/// `k` operations active at the start plus every operation activated,
/// every fixup inserted and every activation still scheduled.
pub proof fn law_ops_accounted_complete(e: &Engine, k: nat)
    requires
        e.inv(),
        accounted_from(e, k),
        e.completed_ops_spec() >= e.total_ops_spec(),
        k + ops_accounted(e) <= u64::MAX,
    ensures
        completions(e.trace_spec()) >= k + activated_total(e.trace_spec()) + fixups_inserted(e.trace_spec())
            + deferred_ops(e, e.pending_spec()),
{
    crate::engine::law_engine_state(e);
}

} // verus!
