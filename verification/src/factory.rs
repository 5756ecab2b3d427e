//! What a magic-state factory reports for one production attempt.

use vstd::prelude::*;

verus! {

/// Outcome of a single factory production attempt.
#[derive(Debug, Clone, Copy, PartialEq, Eq, Structural)]
pub enum FactoryOutcome {
    /// Production succeeds at `completion_cycle`.
    Produced { completion_cycle: u64 },
    /// Production fails at `failure_cycle` (abort/restart needed).
    Failed { failure_cycle: u64 },
}

} // verus!
