//! Hardware model types whose fields are plain values, and the defaults of
//! the hardware description's optional integer and text fields.

use vstd::prelude::*;

verus! {

/// Quantum error correction code family.
#[derive(Debug, Clone, Copy, PartialEq, Eq, Structural)]
pub enum CodeType {
    SurfaceCode,
    ColorCode,
    Qldpc,
}

/// Magic state distillation protocol.
#[derive(Debug, Clone, Copy, PartialEq, Eq, Structural)]
pub enum DistillationProtocol {
    FifteenToOne,
    CczToTwoT,
}

/// Model metadata.
#[derive(Debug, Clone)]
pub struct MetaConfig {
    pub name: String,
    pub description: String,
}

/// Magic state buffer parameters.
#[derive(Debug, Clone, Copy, PartialEq, Eq, Structural)]
pub struct BufferConfig {
    pub capacity: u32,
    pub preload: u32,
}

/// QEC cycles per injected fixup when the description gives none.
pub fn default_fixup_cost() -> (c: u32)
    ensures
        c == 1,
{
    1
}

/// Cycles per grid hop of the Manhattan routing model when the description
/// gives none.
pub fn default_cycles_per_hop() -> (c: u32)
    ensures
        c == 1,
{
    1
}

/// The routing model when the description names none.
pub fn default_routing_model() -> (m: String)
    ensures
        m@ == "scalar"@,
{
    "scalar".to_owned()
}

} // verus!
