//! Ready-gate scheduling policy.

use std::collections::VecDeque;

use vstd::multiset::Multiset;
use vstd::prelude::*;

verus! {

broadcast use vstd::seq_lib::group_to_multiset_ensures;

/// Arena key of an operation in the circuit DAG: its position in the arena.
///
/// Operations are only ever added to the arena, so a key stays valid for
/// the life of the DAG.
#[derive(Debug, Clone, Copy, PartialEq, Eq, Hash, Structural)]
pub struct OpKey(pub usize);

/// Interface for the ready-gate queue.
///
/// A policy decides which queued gate leaves first; every policy hands back
/// exactly the gates that were pushed.
pub trait ReadyQueue {
    /// The gates waiting in the queue.
    spec fn queued(&self) -> Seq<OpKey>;

    fn push(&mut self, key: OpKey)
        ensures
            final(self).queued().to_multiset() == old(self).queued().to_multiset().insert(key),
    ;

    fn pop(&mut self) -> (r: Option<OpKey>)
        ensures
            r is None <==> old(self).queued().len() == 0,
            r is None ==> final(self).queued() == old(self).queued(),
            r matches Some(k) ==> old(self).queued().to_multiset().contains(k)
                && final(self).queued().to_multiset() == old(self).queued().to_multiset().remove(k),
    ;

    fn is_empty(&self) -> (b: bool)
        ensures
            b == (self.queued().len() == 0),
    ;

    fn len(&self) -> (n: usize)
        ensures
            n == self.queued().len(),
    ;
}

/// FIFO ready queue, the default scheduling policy: gates that become ready
/// are served in insertion order.
#[derive(Debug)]
pub struct FifoReadyQueue {
    inner: VecDeque<OpKey>,
}

impl FifoReadyQueue {
    /// An empty queue.
    pub fn new() -> (q: Self)
        ensures
            q.queued() == Seq::<OpKey>::empty(),
    {
        FifoReadyQueue { inner: VecDeque::new() }
    }

    /// An empty queue with room for `capacity` gates.
    pub fn with_capacity(capacity: usize) -> (q: Self)
        ensures
            q.queued() == Seq::<OpKey>::empty(),
    {
        FifoReadyQueue { inner: VecDeque::with_capacity(capacity) }
    }
}

impl ReadyQueue for FifoReadyQueue {
    closed spec fn queued(&self) -> Seq<OpKey> {
        self.inner@
    }

    /// Append `key` at the back.
    fn push(&mut self, key: OpKey)
        ensures
            final(self).queued() == old(self).queued().push(key),
    {
        self.inner.push_back(key);
    }

    /// Take the front entry.
    fn pop(&mut self) -> (r: Option<OpKey>)
        ensures
            r is None ==> old(self).queued().len() == 0,
            r matches Some(k) ==> old(self).queued().len() > 0 && k == old(self).queued()[0]
                && final(self).queued() == old(self).queued().drop_first(),
    {
        let ghost before = self.inner@;
        let r = self.inner.pop_front();
        proof {
            if before.len() > 0 {
                assert(before =~= seq![before[0]] + before.drop_first());
                vstd::seq_lib::lemma_multiset_commutative(seq![before[0]], before.drop_first());
                assert(seq![before[0]].to_multiset() =~= Multiset::singleton(before[0])) by {
                    assert(seq![before[0]] =~= Seq::<OpKey>::empty().push(before[0]));
                }
            }
        }
        r
    }

    fn is_empty(&self) -> (b: bool) {
        self.inner.len() == 0
    }

    fn len(&self) -> (n: usize) {
        self.inner.len()
    }
}

/// The calls `ops` made in order on a FIFO queue holding `q`: `Some(k)`
/// pushes `k`, `None` pops. Gives the queue after them and what each pop
/// returned, in order, as `push` and `pop` of `FifoReadyQueue` state.
pub open spec fn fifo_run(q: Seq<OpKey>, ops: Seq<Option<OpKey>>) -> (Seq<OpKey>, Seq<Option<OpKey>>)
    decreases ops.len(),
{
    if ops.len() == 0 {
        (q, Seq::empty())
    } else {
        let r = fifo_run(q, ops.drop_last());
        match ops.last() {
            Some(k) => (r.0.push(k), r.1),
            None => if r.0.len() == 0 {
                (r.0, r.1.push(None))
            } else {
                (r.0.drop_first(), r.1.push(Some(r.0[0])))
            },
        }
    }
}

/// The keys pushed by `ops`, in order.
pub open spec fn pushed(ops: Seq<Option<OpKey>>) -> Seq<OpKey>
    decreases ops.len(),
{
    if ops.len() == 0 {
        Seq::empty()
    } else {
        match ops.last() {
            Some(k) => pushed(ops.drop_last()).push(k),
            None => pushed(ops.drop_last()),
        }
    }
}

/// The keys the pops returned, in order, leaving out the empty pops.
pub open spec fn popped_keys(outs: Seq<Option<OpKey>>) -> Seq<OpKey>
    decreases outs.len(),
{
    if outs.len() == 0 {
        Seq::empty()
    } else {
        match outs.last() {
            Some(k) => popped_keys(outs.drop_last()).push(k),
            None => popped_keys(outs.drop_last()),
        }
    }
}

/// On a FIFO queue that starts empty, any interleaving of pushes and pops
/// hands the keys back in the order they were pushed: the keys popped,
/// followed by the keys still queued, are exactly the keys pushed.
pub proof fn law_fifo_order(ops: Seq<Option<OpKey>>)
    ensures
        popped_keys(fifo_run(Seq::empty(), ops).1) + fifo_run(Seq::empty(), ops).0 == pushed(ops),
    decreases ops.len(),
{
    if ops.len() > 0 {
        law_fifo_order(ops.drop_last());
        let r = fifo_run(Seq::empty(), ops.drop_last());
        match ops.last() {
            Some(k) => {
                assert(popped_keys(r.1) + r.0.push(k) =~= (popped_keys(r.1) + r.0).push(k));
            },
            None => {
                if r.0.len() == 0 {
                    assert(r.1.push(None).drop_last() =~= r.1);
                } else {
                    assert(r.1.push(Some(r.0[0])).drop_last() =~= r.1);
                    assert(popped_keys(r.1).push(r.0[0]) + r.0.drop_first() =~= popped_keys(r.1) + r.0);
                }
            },
        }
    }
}

} // verus!
