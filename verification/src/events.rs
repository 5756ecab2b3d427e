//! Engine event types and their priority queue.
//!
//! Four deferred state transitions exist: factory completion, factory
//! abort, gate completion and deferred hook activation.

use vstd::prelude::*;

use crate::circuit::MeasurementHookId;
use crate::circuit::MeasurementOutcome;
use crate::ready_queue::OpKey;

verus! {

/// An engine event: a deferred state transition completing in a future cycle.
#[derive(Debug, Clone, Copy, PartialEq, Eq, Structural)]
pub enum EngineEvent {
    /// Factory finishes producing a magic state.
    FactoryProduced { factory_id: u16 },
    /// Factory production attempt fails (abort/restart).
    FactoryFailed { factory_id: u16 },
    /// A gate's cycle cost has elapsed: it completes.
    GateCompleted { gate: OpKey },
    /// Deferred measurement hook activation after classical feedback delay.
    HookActivation { gate: OpKey, hook_id: MeasurementHookId, outcome: MeasurementOutcome },
}

/// A timestamped, sequenced engine event.
///
/// `seq` is a monotonic insertion counter: it breaks ties within a cycle so
/// that events scheduled earlier are delivered first.
#[derive(Debug, Clone, Copy)]
pub struct TimedEvent {
    pub cycle: u64,
    pub seq: u64,
    pub event: EngineEvent,
}

/// `a` is delivered no later than `b`: ordered by `(cycle, seq)`.
pub open spec fn key_le(a: TimedEvent, b: TimedEvent) -> bool {
    a.cycle < b.cycle || (a.cycle == b.cycle && a.seq <= b.seq)
}

/// `s` is in delivery order.
pub open spec fn in_delivery_order(s: Seq<TimedEvent>) -> bool {
    forall|a: int, b: int| 0 <= a < b < s.len() ==> key_le(#[trigger] s[a], #[trigger] s[b])
}

/// `s2` is `s1` with `e` inserted after every element delivered no later
/// than it and before every other one.
pub open spec fn inserted_in_order(s1: Seq<TimedEvent>, e: TimedEvent, s2: Seq<TimedEvent>) -> bool {
    exists|i: int|
        0 <= i <= s1.len() && s2 == s1.insert(i, e) && (forall|j: int|
            0 <= j < i ==> key_le(#[trigger] s1[j], e)) && (forall|j: int|
            i <= j < s1.len() ==> !key_le(#[trigger] s1[j], e))
}

/// The counter value after `s`: one more, saturating at `u64::MAX`.
pub open spec fn next_seq_after(s: u64) -> u64 {
    if s < u64::MAX {
        (s + 1) as u64
    } else {
        u64::MAX
    }
}

/// Min-priority queue of engine events ordered by `(cycle, seq)`.
///
/// Deterministic: the same scheduling order gives the same sequence numbers
/// and hence the same delivery order.
pub struct EventQueue {
    events: Vec<TimedEvent>,
    next_seq: u64,
}

impl EventQueue {
    /// The pending events, in delivery order.
    pub closed spec fn pending(&self) -> Seq<TimedEvent> {
        self.events@
    }

    /// The sequence number the next scheduled event receives.
    pub closed spec fn next_seq_spec(&self) -> u64 {
        self.next_seq
    }

    #[verifier::type_invariant]
    spec fn well_formed(&self) -> bool {
        &&& in_delivery_order(self.events@)
        &&& forall|j: int|
            0 <= j < self.events@.len() ==> (#[trigger] self.events@[j]).seq < self.next_seq
                || self.next_seq == u64::MAX
    }

    /// Create an empty event queue.
    pub fn new() -> (q: Self)
        ensures
            q.pending() == Seq::<TimedEvent>::empty(),
            q.next_seq_spec() == 0,
    {
        EventQueue { events: Vec::new(), next_seq: 0 }
    }

    /// Create an empty event queue with room for `capacity` events.
    pub fn with_capacity(capacity: usize) -> (q: Self)
        ensures
            q.pending() == Seq::<TimedEvent>::empty(),
            q.next_seq_spec() == 0,
    {
        EventQueue { events: Vec::with_capacity(capacity), next_seq: 0 }
    }

    /// Create an empty event queue whose first scheduled event receives the
    /// sequence number `next_seq`.
    pub fn with_next_seq(next_seq: u64) -> (q: Self)
        ensures
            q.pending() == Seq::<TimedEvent>::empty(),
            q.next_seq_spec() == next_seq,
    {
        EventQueue { events: Vec::new(), next_seq }
    }

    /// Every queue holds its events in delivery order.
    pub fn pending_in_order(&self)
        ensures
            in_delivery_order(self.pending()),
    {
        proof {
            use_type_invariant(self);
        }
    }

    /// Schedule `event` for delivery at `cycle`, with the next sequence number.
    pub fn schedule(&mut self, cycle: u64, event: EngineEvent)
        ensures
            inserted_in_order(
                old(self).pending(),
                TimedEvent { cycle, seq: old(self).next_seq_spec(), event },
                final(self).pending(),
            ),
            in_delivery_order(final(self).pending()),
            final(self).next_seq_spec() == next_seq_after(old(self).next_seq_spec()),
            final(self).pending().len() == old(self).pending().len() + 1,
            final(self).pending().contains(TimedEvent { cycle, seq: old(self).next_seq_spec(), event }),
            forall|x: TimedEvent|
                #[trigger] final(self).pending().contains(x) ==> old(self).pending().contains(x) || x
                    == (TimedEvent { cycle, seq: old(self).next_seq_spec(), event }),
    {
        proof {
            use_type_invariant(&*self);
        }
        let seq = self.next_seq;
        let e = TimedEvent { cycle, seq, event };
        let mut i: usize = 0;
        while i < self.events.len() && (self.events[i].cycle < cycle || (self.events[i].cycle == cycle
            && self.events[i].seq <= seq))
            invariant
                i <= self.events@.len(),
                e.cycle == cycle,
                e.seq == seq,
                forall|j: int| 0 <= j < i ==> key_le(#[trigger] self.events@[j], e),
            decreases self.events@.len() - i,
        {
            i += 1;
        }
        let ghost before = self.events@;
        proof {
            assert forall|j: int| i <= j < before.len() implies !key_le(#[trigger] before[j], e) by {
                assert(key_le(before[i as int], before[j]));
            }
        }
        let mut events: Vec<TimedEvent> = Vec::new();
        std::mem::swap(&mut events, &mut self.events);
        events.insert(i, e);
        self.next_seq = if self.next_seq < u64::MAX {
            self.next_seq + 1
        } else {
            u64::MAX
        };
        proof {
            assert(events@ == before.insert(i as int, e));
            assert(events@[i as int] == e);
            assert forall|x: TimedEvent| #[trigger] events@.contains(x) implies before.contains(x) || x == e by {
                let w = choose|w: int| 0 <= w < events@.len() && events@[w] == x;
                if w < i {
                    assert(before[w] == x);
                } else if w > i {
                    assert(before[w - 1] == x);
                }
            }
            assert forall|a: int, b: int| 0 <= a < b < events@.len() implies key_le(
                #[trigger] events@[a],
                #[trigger] events@[b],
            ) by {
                if a < i && b > i {
                    assert(key_le(before[a], e));
                    assert(!key_le(before[b - 1], e));
                } else if a < i && b == i {
                } else if a == i {
                    assert(!key_le(before[b - 1], e));
                } else if a < i {
                    assert(key_le(before[a], before[b]));
                } else {
                    assert(key_le(before[a - 1], before[b - 1]));
                }
            }
        }
        self.events = events;
    }

    /// Pop the earliest event: lowest cycle, then lowest sequence number.
    pub fn pop(&mut self) -> (r: Option<TimedEvent>)
        ensures
            r is None <==> old(self).pending().len() == 0,
            r is None ==> final(self).pending() == old(self).pending(),
            r matches Some(e) ==> e == old(self).pending()[0] && final(self).pending()
                == old(self).pending().drop_first() && forall|j: int|
                0 <= j < old(self).pending().len() ==> key_le(e, #[trigger] old(self).pending()[j]),
            final(self).next_seq_spec() == old(self).next_seq_spec(),
            in_delivery_order(final(self).pending()),
            r matches Some(e) ==> old(self).pending().contains(e),
            forall|x: TimedEvent|
                #[trigger] final(self).pending().contains(x) ==> old(self).pending().contains(x),
    {
        proof {
            use_type_invariant(&*self);
        }
        if self.events.len() == 0 {
            None
        } else {
            let ghost before = self.events@;
            let mut events: Vec<TimedEvent> = Vec::new();
        std::mem::swap(&mut events, &mut self.events);
            let e = events.remove(0);
            proof {
                assert(events@ =~= before.drop_first());
                assert(before[0] == e);
                assert forall|x: TimedEvent| #[trigger] events@.contains(x) implies before.contains(x) by {
                    let w = choose|w: int| 0 <= w < events@.len() && events@[w] == x;
                    assert(before[w + 1] == x);
                }
                assert forall|j: int| 0 <= j < before.len() implies key_le(e, #[trigger] before[j]) by {
                    if j > 0 {
                        assert(key_le(before[0], before[j]));
                    }
                }
                assert forall|a: int, b: int| 0 <= a < b < events@.len() implies key_le(
                    #[trigger] events@[a],
                    #[trigger] events@[b],
                ) by {
                    assert(key_le(before[a + 1], before[b + 1]));
                }
            }
            self.events = events;
            Some(e)
        }
    }

    /// The cycle of the next event, without consuming it.
    pub fn peek_cycle(&self) -> (r: Option<u64>)
        ensures
            r is None <==> self.pending().len() == 0,
            r matches Some(c) ==> c == self.pending()[0].cycle && forall|j: int|
                0 <= j < self.pending().len() ==> c <= (#[trigger] self.pending()[j]).cycle,
    {
        proof {
            use_type_invariant(self);
        }
        if self.events.len() == 0 {
            None
        } else {
            proof {
                assert forall|j: int| 0 <= j < self.events@.len() implies self.events@[0].cycle <= (
                #[trigger] self.events@[j]).cycle by {
                    if j > 0 {
                        assert(key_le(self.events@[0], self.events@[j]));
                    }
                }
            }
            Some(self.events[0].cycle)
        }
    }

    /// True when no events are pending.
    pub fn is_empty(&self) -> (b: bool)
        ensures
            b == (self.pending().len() == 0),
    {
        self.events.len() == 0
    }
}

/// The sequence counter of a queue made by `EventQueue::new` after `i`
/// events were scheduled on it.
pub open spec fn counter_after(i: nat) -> u64
    decreases i,
{
    if i == 0 {
        0
    } else {
        next_seq_after(counter_after((i - 1) as nat))
    }
}

/// On a queue made by `EventQueue::new`, the `i`-th event scheduled (from
/// zero) receives sequence number `i`, up to `u64::MAX` events: sequence
/// numbers are distinct and increase in scheduling order, past `u32::MAX`
/// too.
pub proof fn law_sequence_numbers(i: nat, j: nat)
    requires
        i < j <= u64::MAX,
    ensures
        counter_after(i) == i,
        counter_after(j) == j,
        counter_after(i) < counter_after(j),
    decreases j,
{
    lemma_counter_after(j);
    lemma_counter_after(i);
}

proof fn lemma_counter_after(i: nat)
    requires
        i <= u64::MAX,
    ensures
        counter_after(i) == i,
    decreases i,
{
    if i > 0 {
        lemma_counter_after((i - 1) as nat);
    }
}

} // verus!
