//! Magic state buffer: the bounded counter between factories and T-gates.

use vstd::prelude::*;

verus! {

/// Fixed-capacity counter of magic states ready for injection.
///
/// Full: factory output is wasted. Empty: a T-gate stalls.
pub struct MagicStateBuffer {
    capacity: u32,
    occupancy: u32,
}

impl MagicStateBuffer {
    /// The buffer's capacity.
    pub closed spec fn capacity_spec(&self) -> nat {
        self.capacity as nat
    }

    /// The number of states held.
    pub closed spec fn occupancy_spec(&self) -> nat {
        self.occupancy as nat
    }

    /// The buffer never holds more than its capacity.
    #[verifier::type_invariant]
    spec fn within_capacity(&self) -> bool {
        self.occupancy <= self.capacity
    }

    /// Create a buffer with the given capacity, pre-loaded with
    /// `min(preload, capacity)` states.
    pub fn new(capacity: u32, preload: u32) -> (b: Self)
        ensures
            b.capacity_spec() == capacity,
            b.occupancy_spec() == if preload <= capacity { preload } else { capacity },
            b.occupancy_spec() <= b.capacity_spec(),
    {
        let occupancy = if preload <= capacity { preload } else { capacity };
        MagicStateBuffer { capacity, occupancy }
    }

    /// Enqueue a produced state. Returns `false`, changing nothing, when the
    /// buffer is full (the state is wasted).
    pub fn try_enqueue(&mut self) -> (accepted: bool)
        ensures
            final(self).capacity_spec() == old(self).capacity_spec(),
            accepted == (old(self).occupancy_spec() < old(self).capacity_spec()),
            final(self).occupancy_spec() == if accepted {
                old(self).occupancy_spec() + 1
            } else {
                old(self).occupancy_spec()
            },
            final(self).occupancy_spec() <= final(self).capacity_spec(),
            (final(self).occupancy_spec(), accepted) == buffer_step(
                old(self).capacity_spec(),
                old(self).occupancy_spec(),
                true,
            ),
    {
        proof { use_type_invariant(&*self); }
        if self.occupancy < self.capacity {
            self.occupancy = self.occupancy + 1;
            true
        } else {
            false
        }
    }

    /// Dequeue a state for a T-gate. Returns `false`, changing nothing, when
    /// the buffer is empty (a T-gate then stalls).
    pub fn try_dequeue(&mut self) -> (served: bool)
        ensures
            final(self).capacity_spec() == old(self).capacity_spec(),
            served == (old(self).occupancy_spec() > 0),
            final(self).occupancy_spec() == if served {
                (old(self).occupancy_spec() - 1) as nat
            } else {
                old(self).occupancy_spec()
            },
            final(self).occupancy_spec() <= final(self).capacity_spec(),
            (final(self).occupancy_spec(), served) == buffer_step(
                old(self).capacity_spec(),
                old(self).occupancy_spec(),
                false,
            ),
    {
        proof { use_type_invariant(&*self); }
        if self.occupancy > 0 {
            self.occupancy = self.occupancy - 1;
            true
        } else {
            false
        }
    }

    /// Current number of magic states in the buffer.
    pub fn occupancy(&self) -> (n: u32)
        ensures
            n == self.occupancy_spec(),
            n <= self.capacity_spec(),
    {
        proof { use_type_invariant(self); }
        self.occupancy
    }

    /// `true` when no more states can be enqueued.
    pub fn is_full(&self) -> (full: bool)
        ensures
            full == (self.occupancy_spec() >= self.capacity_spec()),
    {
        self.occupancy >= self.capacity
    }

    /// `true` when no states are available for dequeue.
    pub fn is_empty(&self) -> (empty: bool)
        ensures
            empty == (self.occupancy_spec() == 0),
    {
        self.occupancy == 0
    }

}

/// One buffer call on a buffer of capacity `cap` holding `occ` states: an
/// enqueue (`enqueue`) or a dequeue. Gives the states held after it and
/// whether it succeeded, as `try_enqueue` and `try_dequeue` state.
pub open spec fn buffer_step(cap: nat, occ: nat, enqueue: bool) -> (nat, bool) {
    if enqueue {
        if occ < cap {
            (occ + 1, true)
        } else {
            (occ, false)
        }
    } else {
        if occ > 0 {
            ((occ - 1) as nat, true)
        } else {
            (occ, false)
        }
    }
}

/// The calls `ops` (`true` an enqueue, `false` a dequeue) made in order on
/// a buffer of capacity `cap` holding `occ` states: the states held after
/// them, the enqueues that succeeded and the dequeues that succeeded.
pub open spec fn buffer_run(cap: nat, occ: nat, ops: Seq<bool>) -> (nat, nat, nat)
    decreases ops.len(),
{
    if ops.len() == 0 {
        (occ, 0, 0)
    } else {
        let r = buffer_run(cap, occ, ops.drop_last());
        let step = buffer_step(cap, r.0, ops.last());
        (
            step.0,
            r.1 + if ops.last() && step.1 { 1nat } else { 0nat },
            r.2 + if !ops.last() && step.1 { 1nat } else { 0nat },
        )
    }
}

/// After any calls on a buffer that starts with `occ <= cap` states, it
/// holds `occ` plus the enqueues that succeeded minus the dequeues that
/// succeeded, and never more than its capacity.
pub proof fn law_buffer_run(cap: nat, occ: nat, ops: Seq<bool>)
    requires
        occ <= cap,
    ensures
        buffer_run(cap, occ, ops).0 == occ + buffer_run(cap, occ, ops).1 - buffer_run(cap, occ, ops).2,
        buffer_run(cap, occ, ops).0 <= cap,
    decreases ops.len(),
{
    if ops.len() > 0 {
        law_buffer_run(cap, occ, ops.drop_last());
    }
}

} // verus!
