//! Profiler IR: the framework-agnostic circuit representation.

use vstd::prelude::*;

verus! {

/// Operation identifier within a [`ProfilerCircuit`].
pub type OpId = u64;

/// Logical qubit identifier.
pub type QubitId = u32;

/// Index into [`ProfilerCircuit::hooks`].
pub type MeasurementHookId = u32;

/// Logical qubit position on a 2D grid.
#[derive(Debug, Clone, Copy, PartialEq, Eq, Structural)]
pub struct GridPosition {
    pub qubit: QubitId,
    pub row: u32,
    pub col: u32,
}

/// Expected measurement outcome for conditional activation.
#[derive(Debug, Clone, Copy, PartialEq, Eq, Structural, Hash)]
pub enum MeasurementOutcome {
    Zero,
    One,
}

/// Operations to activate when a measurement produces a specific outcome.
#[derive(Debug, Clone)]
pub struct ConditionalActivation {
    pub outcome: MeasurementOutcome,
    pub ops_to_activate: Vec<OpId>,
}

/// Pre-defined response to a measurement outcome.
#[derive(Debug, Clone)]
pub struct MeasurementHook {
    pub id: MeasurementHookId,
    pub activations: Vec<ConditionalActivation>,
}

/// A compiled quantum circuit in Profiler IR form.
#[derive(Debug, Clone)]
pub struct ProfilerCircuit {
    pub ops: Vec<Operation>,
    pub deps: Vec<Dependency>,
    pub qubit_count: u32,
    /// Logical qubit positions on a 2D grid, when the routing model needs them.
    pub qubit_positions: Option<Vec<GridPosition>>,
    /// Algorithm-level measurement hooks. Empty for non-adaptive circuits.
    pub hooks: Vec<MeasurementHook>,
    pub metadata: CircuitMetadata,
}

/// A single quantum operation.
#[derive(Debug, Clone)]
pub struct Operation {
    pub id: OpId,
    pub kind: OpKind,
    pub qubits: Vec<QubitId>,
    /// `false` for pre-allocated conditional ops activated by a hook.
    pub initially_active: bool,
}

/// Classification of a quantum operation.
///
/// A rotation carries its angle (radians) as the IEEE-754 binary64 bit
/// pattern: rotations are told apart and deduplicated by that pattern.
#[derive(Debug, Clone, Copy, PartialEq, Eq, Structural)]
pub enum OpKind {
    /// Clifford gate: no magic state consumed.
    Clifford,
    /// T-gate: consumes one magic state, subject to injection error.
    TGate,
    /// Pauli measurement, with an optional hook for conditional activation.
    Measurement { hook: Option<MeasurementHookId> },
    /// Arbitrary rotation Rz(theta): consumes one rotation state.
    Rotation { angle_bits: u64 },
}

/// Data dependency: `from` must complete before `to` can start.
#[derive(Debug, Clone, Copy, PartialEq, Eq, Structural)]
pub struct Dependency {
    pub from: OpId,
    pub to: OpId,
}

/// Circuit-level metadata computed by adapters.
#[derive(Debug, Clone)]
pub struct CircuitMetadata {
    pub name: String,
    pub source_framework: String,
    pub t_count: u64,
    pub clifford_count: u64,
    pub rotation_count: u64,
    pub depth: u64,
}

/// Whether an operation is initially active when the description does not
/// say.
pub fn default_active() -> (b: bool)
    ensures
        b,
{
    true
}

} // verus!
