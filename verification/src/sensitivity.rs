//! Sensitivity-analysis configuration with plain-valued fields, and the
//! checks and seed partitioning that need no floating point.

use vstd::prelude::*;

use crate::names::contains_name;
use crate::names::lemma_names;
use crate::names::owned_names;

verus! {

/// Which scalar metric to extract from a simulation replica.
#[derive(Debug, Clone, Copy, PartialEq, Eq, Structural)]
pub enum OutputMetric {
    TotalCycles,
    TotalStallCycles,
    StallCount,
    MaxStallCycles,
    MeanFactoryUtilization,
    TotalInfidelity,
    MagicStatesConsumed,
}

/// How a swept parameter's values are rounded.
#[derive(Debug, Clone, Copy, PartialEq, Eq, Structural)]
pub enum ParameterKind {
    Continuous,
    Integer,
    OddInteger,
}

/// The parameter kind when a definition names none.
pub fn default_continuous() -> (k: ParameterKind)
    ensures
        k == ParameterKind::Continuous,
{
    ParameterKind::Continuous
}

/// Bootstrap resamples of a Sobol analysis when the configuration gives none.
pub fn default_bootstrap() -> (n: u32)
    ensures
        n == 1000,
{
    1000
}

/// Configuration for Morris elementary-effects screening.
#[derive(Debug, Clone, Copy, PartialEq, Eq, Structural)]
pub struct MorrisConfig {
    /// Number of trajectories (R). Must be at least 2.
    pub trajectories: u32,
    /// Number of levels (p). Must be even and at least 4.
    pub levels: u32,
}

/// Why a Morris configuration is refused.
#[derive(Debug, Clone, Copy, PartialEq, Eq, Structural)]
pub enum MorrisConfigError {
    /// Fewer than two trajectories.
    InsufficientTrajectories(u32),
    /// Fewer than four levels, or an odd number of them.
    InvalidMorrisLevels(u32),
}

impl MorrisConfig {
    /// Check the configuration: trajectories first, then levels.
    pub fn validate(self) -> (r: Result<(), MorrisConfigError>)
        ensures
            r == if self.trajectories < 2 {
                Err(MorrisConfigError::InsufficientTrajectories(self.trajectories))
            } else if self.levels < 4 || self.levels % 2 != 0 {
                Err(MorrisConfigError::InvalidMorrisLevels(self.levels))
            } else {
                Ok(())
            },
    {
        if self.trajectories < 2 {
            return Err(MorrisConfigError::InsufficientTrajectories(self.trajectories));
        }
        if self.levels < 4 || self.levels % 2 != 0 {
            return Err(MorrisConfigError::InvalidMorrisLevels(self.levels));
        }
        Ok(())
    }
}

/// Evaluation settings for one point of a sensitivity analysis.
#[derive(Debug, Clone, Copy, PartialEq, Eq, Structural)]
pub struct EvalConfig {
    /// Number of Monte Carlo replicas per point. 1 = single run.
    pub mc_replicas: u32,
    /// Base seed for deterministic seed partitioning.
    pub base_seed: u64,
    /// Maximum simulation cycles per replica (`None` = run to completion).
    pub max_cycles: Option<u64>,
    /// Which scalar metric to extract from the simulation.
    pub metric: OutputMetric,
}

/// The seed of the first replica of point `point_index`:
/// `base_seed + point_index * max(1, replicas)`, wrapping.
pub open spec fn point_seed_spec(base_seed: u64, point_index: u64, replicas: u32) -> u64 {
    let r: int = if replicas == 0 {
        1
    } else {
        replicas as int
    };
    ((base_seed + ((point_index * r) % 0x1_0000_0000_0000_0000)) % 0x1_0000_0000_0000_0000) as u64
}

/// The seed of the first replica of point `point_index`: the points'
/// seed ranges do not overlap until the 64-bit seed space wraps.
pub fn point_seed(base_seed: u64, point_index: u64, replicas: u32) -> (s: u64)
    ensures
        s == point_seed_spec(base_seed, point_index, replicas),
{
    let r: u64 = if replicas == 0 { 1 } else { replicas as u64 };
    base_seed.wrapping_add(point_index.wrapping_mul(r))
}


/// The family of a hardware model's factories.
#[derive(Debug, Clone, Copy, PartialEq, Eq, Structural)]
pub enum FactoryFamily {
    Distillation,
    Cultivation,
    RzSynthesis,
}

/// The family of a hardware model's routing model.
#[derive(Debug, Clone, Copy, PartialEq, Eq, Structural)]
pub enum RoutingFamily {
    Scalar,
    Manhattan,
}

/// Why a swept parameter does not fit a hardware model.
#[derive(Debug, Clone, Copy, PartialEq, Eq, Structural)]
pub enum ParamFitError {
    /// The name is not one of the known parameters.
    UnknownParameter,
    /// The parameter belongs to another factory family.
    FactoryTypeMismatch(FactoryFamily),
    /// The parameter belongs to another routing family.
    RoutingTypeMismatch(RoutingFamily),
}

/// The parameters a sweep may name.
pub open spec fn known_params() -> Seq<Seq<char>> {
    seq![
        "code_distance"@,
        "physical_error_rate"@,
        "error_correction_threshold"@,
        "logical_error_prefactor"@,
        "cycle_time_us"@,
        "measurement_time_us"@,
        "feedback_latency_us"@,
        "factory_count"@,
        "lambda_raw"@,
        "fault_distance"@,
        "cycles_per_round"@,
        "rounds"@,
        "abort_probability"@,
        "mean_cycles_per_state"@,
        "distinct_angles"@,
        "injection_error_probability"@,
        "fixup_cost_cycles"@,
        "overhead_cycles"@,
        "buffer_capacity"@,
        "buffer_preload"@,
    ]
}

/// Parameters of cultivation factories.
pub open spec fn cultivation_params() -> Seq<Seq<char>> {
    seq!["lambda_raw"@, "fault_distance"@]
}

/// Parameters of distillation factories.
pub open spec fn distillation_params() -> Seq<Seq<char>> {
    seq!["cycles_per_round"@, "rounds"@, "abort_probability"@]
}

/// Parameters of rotation-synthesis factories.
pub open spec fn rz_synthesis_params() -> Seq<Seq<char>> {
    seq!["mean_cycles_per_state"@, "distinct_angles"@]
}

/// Parameters of the scalar routing model.
pub open spec fn scalar_routing_params() -> Seq<Seq<char>> {
    seq!["overhead_cycles"@]
}

/// Whether parameter `name` fits a model with the given factory and routing
/// families: unknown names first, then the factory families in the order
/// cultivation, distillation, rotation synthesis, then scalar routing.
pub open spec fn param_fit(name: Seq<char>, factory: FactoryFamily, routing: RoutingFamily) -> Result<(), ParamFitError> {
    if !known_params().contains(name) {
        Err(ParamFitError::UnknownParameter)
    } else if cultivation_params().contains(name) && factory != FactoryFamily::Cultivation {
        Err(ParamFitError::FactoryTypeMismatch(FactoryFamily::Cultivation))
    } else if distillation_params().contains(name) && factory != FactoryFamily::Distillation {
        Err(ParamFitError::FactoryTypeMismatch(FactoryFamily::Distillation))
    } else if rz_synthesis_params().contains(name) && factory != FactoryFamily::RzSynthesis {
        Err(ParamFitError::FactoryTypeMismatch(FactoryFamily::RzSynthesis))
    } else if scalar_routing_params().contains(name) && routing != RoutingFamily::Scalar {
        Err(ParamFitError::RoutingTypeMismatch(RoutingFamily::Scalar))
    } else {
        Ok(())
    }
}

/// Check that parameter `name` fits a model with the given factory and
/// routing families.
pub fn check_param_fit(name: &str, factory: FactoryFamily, routing: RoutingFamily) -> (r: Result<(), ParamFitError>)
    ensures
        r == param_fit(name@, factory, routing),
{
    let name = name.to_owned();
    let known_lits = [
        "code_distance",
        "physical_error_rate",
        "error_correction_threshold",
        "logical_error_prefactor",
        "cycle_time_us",
        "measurement_time_us",
        "feedback_latency_us",
        "factory_count",
        "lambda_raw",
        "fault_distance",
        "cycles_per_round",
        "rounds",
        "abort_probability",
        "mean_cycles_per_state",
        "distinct_angles",
        "injection_error_probability",
        "fixup_cost_cycles",
        "overhead_cycles",
        "buffer_capacity",
        "buffer_preload",
    ];
    let known = owned_names(&known_lits);
    let cultivation_lits = ["lambda_raw", "fault_distance"];
    let cultivation = owned_names(&cultivation_lits);
    let distillation_lits = ["cycles_per_round", "rounds", "abort_probability"];
    let distillation = owned_names(&distillation_lits);
    let rz_lits = ["mean_cycles_per_state", "distinct_angles"];
    let rz = owned_names(&rz_lits);
    let scalar_lits = ["overhead_cycles"];
    let scalar = owned_names(&scalar_lits);
    proof {
        lemma_names(known, known_lits@, known_params());
        lemma_names(cultivation, cultivation_lits@, cultivation_params());
        lemma_names(distillation, distillation_lits@, distillation_params());
        lemma_names(rz, rz_lits@, rz_synthesis_params());
        lemma_names(scalar, scalar_lits@, scalar_routing_params());
    }
    if !contains_name(&known, &name) {
        return Err(ParamFitError::UnknownParameter);
    }
    if contains_name(&cultivation, &name) && factory != FactoryFamily::Cultivation {
        return Err(ParamFitError::FactoryTypeMismatch(FactoryFamily::Cultivation));
    }
    if contains_name(&distillation, &name) && factory != FactoryFamily::Distillation {
        return Err(ParamFitError::FactoryTypeMismatch(FactoryFamily::Distillation));
    }
    if contains_name(&rz, &name) && factory != FactoryFamily::RzSynthesis {
        return Err(ParamFitError::FactoryTypeMismatch(FactoryFamily::RzSynthesis));
    }
    if contains_name(&scalar, &name) && routing != RoutingFamily::Scalar {
        return Err(ParamFitError::RoutingTypeMismatch(RoutingFamily::Scalar));
    }
    Ok(())
}

/// Each factory-specific parameter belongs to its factory family: on a
/// model of another family it is refused, naming the family it belongs to;
/// the scalar routing parameter is refused on another routing model; a
/// name no model knows is refused as unknown; the parameters every model
/// has always fit.
pub proof fn law_param_owners(factory: FactoryFamily, routing: RoutingFamily)
    ensures
        factory != FactoryFamily::Distillation ==> {
            &&& param_fit("cycles_per_round"@, factory, routing) == Err::<(), ParamFitError>(
                ParamFitError::FactoryTypeMismatch(FactoryFamily::Distillation),
            )
            &&& param_fit("rounds"@, factory, routing) == Err::<(), ParamFitError>(
                ParamFitError::FactoryTypeMismatch(FactoryFamily::Distillation),
            )
            &&& param_fit("abort_probability"@, factory, routing) == Err::<(), ParamFitError>(
                ParamFitError::FactoryTypeMismatch(FactoryFamily::Distillation),
            )
        },
        factory != FactoryFamily::Cultivation ==> {
            &&& param_fit("lambda_raw"@, factory, routing) == Err::<(), ParamFitError>(
                ParamFitError::FactoryTypeMismatch(FactoryFamily::Cultivation),
            )
            &&& param_fit("fault_distance"@, factory, routing) == Err::<(), ParamFitError>(
                ParamFitError::FactoryTypeMismatch(FactoryFamily::Cultivation),
            )
        },
        factory != FactoryFamily::RzSynthesis ==> {
            &&& param_fit("mean_cycles_per_state"@, factory, routing) == Err::<(), ParamFitError>(
                ParamFitError::FactoryTypeMismatch(FactoryFamily::RzSynthesis),
            )
            &&& param_fit("distinct_angles"@, factory, routing) == Err::<(), ParamFitError>(
                ParamFitError::FactoryTypeMismatch(FactoryFamily::RzSynthesis),
            )
        },
        factory == FactoryFamily::Distillation ==> {
            &&& param_fit("cycles_per_round"@, factory, routing) is Ok
            &&& param_fit("rounds"@, factory, routing) is Ok
            &&& param_fit("abort_probability"@, factory, routing) is Ok
        },
        factory == FactoryFamily::Cultivation ==> {
            &&& param_fit("lambda_raw"@, factory, routing) is Ok
            &&& param_fit("fault_distance"@, factory, routing) is Ok
        },
        factory == FactoryFamily::RzSynthesis ==> {
            &&& param_fit("mean_cycles_per_state"@, factory, routing) is Ok
            &&& param_fit("distinct_angles"@, factory, routing) is Ok
        },
        routing != RoutingFamily::Scalar ==> param_fit("overhead_cycles"@, factory, routing) == Err::<
            (),
            ParamFitError,
        >(ParamFitError::RoutingTypeMismatch(RoutingFamily::Scalar)),
        routing == RoutingFamily::Scalar ==> param_fit("overhead_cycles"@, factory, routing) is Ok,
        param_fit("code_distance"@, factory, routing) is Ok,
        param_fit("factory_count"@, factory, routing) is Ok,
        param_fit("buffer_capacity"@, factory, routing) is Ok,
        param_fit("injection_error_probability"@, factory, routing) is Ok,
        param_fit("no_such_parameter"@, factory, routing) == Err::<(), ParamFitError>(ParamFitError::UnknownParameter),
{
    reveal_strlit("code_distance");
    reveal_strlit("physical_error_rate");
    reveal_strlit("error_correction_threshold");
    reveal_strlit("logical_error_prefactor");
    reveal_strlit("cycle_time_us");
    reveal_strlit("measurement_time_us");
    reveal_strlit("feedback_latency_us");
    reveal_strlit("factory_count");
    reveal_strlit("lambda_raw");
    reveal_strlit("fault_distance");
    reveal_strlit("cycles_per_round");
    reveal_strlit("rounds");
    reveal_strlit("abort_probability");
    reveal_strlit("mean_cycles_per_state");
    reveal_strlit("distinct_angles");
    reveal_strlit("injection_error_probability");
    reveal_strlit("fixup_cost_cycles");
    reveal_strlit("overhead_cycles");
    reveal_strlit("buffer_capacity");
    reveal_strlit("buffer_preload");
    reveal_strlit("no_such_parameter");
    assert(known_params().contains("cycles_per_round"@)) by { assert(known_params()[10] == "cycles_per_round"@); }
    assert(known_params().contains("rounds"@)) by { assert(known_params()[11] == "rounds"@); }
    assert(known_params().contains("abort_probability"@)) by { assert(known_params()[12] == "abort_probability"@); }
    assert(known_params().contains("lambda_raw"@)) by { assert(known_params()[8] == "lambda_raw"@); }
    assert(known_params().contains("fault_distance"@)) by { assert(known_params()[9] == "fault_distance"@); }
    assert(known_params().contains("mean_cycles_per_state"@)) by { assert(known_params()[13] == "mean_cycles_per_state"@); }
    assert(known_params().contains("distinct_angles"@)) by { assert(known_params()[14] == "distinct_angles"@); }
    assert(known_params().contains("overhead_cycles"@)) by { assert(known_params()[17] == "overhead_cycles"@); }
    assert(known_params().contains("code_distance"@)) by { assert(known_params()[0] == "code_distance"@); }
    assert(known_params().contains("factory_count"@)) by { assert(known_params()[7] == "factory_count"@); }
    assert(known_params().contains("buffer_capacity"@)) by { assert(known_params()[18] == "buffer_capacity"@); }
    assert(known_params().contains("injection_error_probability"@)) by { assert(known_params()[15] == "injection_error_probability"@); }
    assert(distillation_params().contains("cycles_per_round"@)) by { assert(distillation_params()[0] == "cycles_per_round"@); }
    assert(distillation_params().contains("rounds"@)) by { assert(distillation_params()[1] == "rounds"@); }
    assert(distillation_params().contains("abort_probability"@)) by { assert(distillation_params()[2] == "abort_probability"@); }
    assert(cultivation_params().contains("lambda_raw"@)) by { assert(cultivation_params()[0] == "lambda_raw"@); }
    assert(cultivation_params().contains("fault_distance"@)) by { assert(cultivation_params()[1] == "fault_distance"@); }
    assert(rz_synthesis_params().contains("mean_cycles_per_state"@)) by { assert(rz_synthesis_params()[0] == "mean_cycles_per_state"@); }
    assert(rz_synthesis_params().contains("distinct_angles"@)) by { assert(rz_synthesis_params()[1] == "distinct_angles"@); }
    assert(scalar_routing_params().contains("overhead_cycles"@)) by { assert(scalar_routing_params()[0] == "overhead_cycles"@); }
    assert(!cultivation_params().contains("cycles_per_round"@)) by {
        assert(cultivation_params()[0][0] != "cycles_per_round"@[0]);
        assert(cultivation_params()[1][0] != "cycles_per_round"@[0]);
    }
    assert(!rz_synthesis_params().contains("cycles_per_round"@)) by {
        assert(rz_synthesis_params()[0][0] != "cycles_per_round"@[0]);
        assert(rz_synthesis_params()[1][0] != "cycles_per_round"@[0]);
    }
    assert(!scalar_routing_params().contains("cycles_per_round"@)) by {
        assert(scalar_routing_params()[0][0] != "cycles_per_round"@[0]);
    }
    assert(!cultivation_params().contains("rounds"@)) by {
        assert(cultivation_params()[0][0] != "rounds"@[0]);
        assert(cultivation_params()[1][0] != "rounds"@[0]);
    }
    assert(!rz_synthesis_params().contains("rounds"@)) by {
        assert(rz_synthesis_params()[0][0] != "rounds"@[0]);
        assert(rz_synthesis_params()[1][0] != "rounds"@[0]);
    }
    assert(!scalar_routing_params().contains("rounds"@)) by {
        assert(scalar_routing_params()[0][0] != "rounds"@[0]);
    }
    assert(!cultivation_params().contains("abort_probability"@)) by {
        assert(cultivation_params()[0][0] != "abort_probability"@[0]);
        assert(cultivation_params()[1][0] != "abort_probability"@[0]);
    }
    assert(!rz_synthesis_params().contains("abort_probability"@)) by {
        assert(rz_synthesis_params()[0][0] != "abort_probability"@[0]);
        assert(rz_synthesis_params()[1][0] != "abort_probability"@[0]);
    }
    assert(!scalar_routing_params().contains("abort_probability"@)) by {
        assert(scalar_routing_params()[0][0] != "abort_probability"@[0]);
    }
    assert(!distillation_params().contains("lambda_raw"@)) by {
        assert(distillation_params()[0][0] != "lambda_raw"@[0]);
        assert(distillation_params()[1][0] != "lambda_raw"@[0]);
        assert(distillation_params()[2][0] != "lambda_raw"@[0]);
    }
    assert(!rz_synthesis_params().contains("lambda_raw"@)) by {
        assert(rz_synthesis_params()[0][0] != "lambda_raw"@[0]);
        assert(rz_synthesis_params()[1][0] != "lambda_raw"@[0]);
    }
    assert(!scalar_routing_params().contains("lambda_raw"@)) by {
        assert(scalar_routing_params()[0][0] != "lambda_raw"@[0]);
    }
    assert(!distillation_params().contains("fault_distance"@)) by {
        assert(distillation_params()[0][0] != "fault_distance"@[0]);
        assert(distillation_params()[1][0] != "fault_distance"@[0]);
        assert(distillation_params()[2][0] != "fault_distance"@[0]);
    }
    assert(!rz_synthesis_params().contains("fault_distance"@)) by {
        assert(rz_synthesis_params()[0][0] != "fault_distance"@[0]);
        assert(rz_synthesis_params()[1][0] != "fault_distance"@[0]);
    }
    assert(!scalar_routing_params().contains("fault_distance"@)) by {
        assert(scalar_routing_params()[0][0] != "fault_distance"@[0]);
    }
    assert(!cultivation_params().contains("mean_cycles_per_state"@)) by {
        assert(cultivation_params()[0][0] != "mean_cycles_per_state"@[0]);
        assert(cultivation_params()[1][0] != "mean_cycles_per_state"@[0]);
    }
    assert(!distillation_params().contains("mean_cycles_per_state"@)) by {
        assert(distillation_params()[0][0] != "mean_cycles_per_state"@[0]);
        assert(distillation_params()[1][0] != "mean_cycles_per_state"@[0]);
        assert(distillation_params()[2][0] != "mean_cycles_per_state"@[0]);
    }
    assert(!scalar_routing_params().contains("mean_cycles_per_state"@)) by {
        assert(scalar_routing_params()[0][0] != "mean_cycles_per_state"@[0]);
    }
    assert(!cultivation_params().contains("distinct_angles"@)) by {
        assert(cultivation_params()[0][0] != "distinct_angles"@[0]);
        assert(cultivation_params()[1][0] != "distinct_angles"@[0]);
    }
    assert(!distillation_params().contains("distinct_angles"@)) by {
        assert(distillation_params()[0][0] != "distinct_angles"@[0]);
        assert(distillation_params()[1][0] != "distinct_angles"@[0]);
        assert(distillation_params()[2][0] != "distinct_angles"@[0]);
    }
    assert(!scalar_routing_params().contains("distinct_angles"@)) by {
        assert(scalar_routing_params()[0][0] != "distinct_angles"@[0]);
    }
    assert(!cultivation_params().contains("overhead_cycles"@)) by {
        assert(cultivation_params()[0][0] != "overhead_cycles"@[0]);
        assert(cultivation_params()[1][0] != "overhead_cycles"@[0]);
    }
    assert(!distillation_params().contains("overhead_cycles"@)) by {
        assert(distillation_params()[0][0] != "overhead_cycles"@[0]);
        assert(distillation_params()[1][0] != "overhead_cycles"@[0]);
        assert(distillation_params()[2][0] != "overhead_cycles"@[0]);
    }
    assert(!rz_synthesis_params().contains("overhead_cycles"@)) by {
        assert(rz_synthesis_params()[0][0] != "overhead_cycles"@[0]);
        assert(rz_synthesis_params()[1][0] != "overhead_cycles"@[0]);
    }
    assert(!cultivation_params().contains("code_distance"@)) by {
        assert(cultivation_params()[0][0] != "code_distance"@[0]);
        assert(cultivation_params()[1][0] != "code_distance"@[0]);
    }
    assert(!distillation_params().contains("code_distance"@)) by {
        assert(distillation_params()[0].len() != "code_distance"@.len());
        assert(distillation_params()[1][0] != "code_distance"@[0]);
        assert(distillation_params()[2][0] != "code_distance"@[0]);
    }
    assert(!rz_synthesis_params().contains("code_distance"@)) by {
        assert(rz_synthesis_params()[0][0] != "code_distance"@[0]);
        assert(rz_synthesis_params()[1][0] != "code_distance"@[0]);
    }
    assert(!scalar_routing_params().contains("code_distance"@)) by {
        assert(scalar_routing_params()[0][0] != "code_distance"@[0]);
    }
    assert(!cultivation_params().contains("factory_count"@)) by {
        assert(cultivation_params()[0][0] != "factory_count"@[0]);
        assert(cultivation_params()[1].len() != "factory_count"@.len());
    }
    assert(!distillation_params().contains("factory_count"@)) by {
        assert(distillation_params()[0][0] != "factory_count"@[0]);
        assert(distillation_params()[1][0] != "factory_count"@[0]);
        assert(distillation_params()[2][0] != "factory_count"@[0]);
    }
    assert(!rz_synthesis_params().contains("factory_count"@)) by {
        assert(rz_synthesis_params()[0][0] != "factory_count"@[0]);
        assert(rz_synthesis_params()[1][0] != "factory_count"@[0]);
    }
    assert(!scalar_routing_params().contains("factory_count"@)) by {
        assert(scalar_routing_params()[0][0] != "factory_count"@[0]);
    }
    assert(!cultivation_params().contains("buffer_capacity"@)) by {
        assert(cultivation_params()[0][0] != "buffer_capacity"@[0]);
        assert(cultivation_params()[1][0] != "buffer_capacity"@[0]);
    }
    assert(!distillation_params().contains("buffer_capacity"@)) by {
        assert(distillation_params()[0][0] != "buffer_capacity"@[0]);
        assert(distillation_params()[1][0] != "buffer_capacity"@[0]);
        assert(distillation_params()[2][0] != "buffer_capacity"@[0]);
    }
    assert(!rz_synthesis_params().contains("buffer_capacity"@)) by {
        assert(rz_synthesis_params()[0][0] != "buffer_capacity"@[0]);
        assert(rz_synthesis_params()[1][0] != "buffer_capacity"@[0]);
    }
    assert(!scalar_routing_params().contains("buffer_capacity"@)) by {
        assert(scalar_routing_params()[0][0] != "buffer_capacity"@[0]);
    }
    assert(!cultivation_params().contains("injection_error_probability"@)) by {
        assert(cultivation_params()[0][0] != "injection_error_probability"@[0]);
        assert(cultivation_params()[1][0] != "injection_error_probability"@[0]);
    }
    assert(!distillation_params().contains("injection_error_probability"@)) by {
        assert(distillation_params()[0][0] != "injection_error_probability"@[0]);
        assert(distillation_params()[1][0] != "injection_error_probability"@[0]);
        assert(distillation_params()[2][0] != "injection_error_probability"@[0]);
    }
    assert(!rz_synthesis_params().contains("injection_error_probability"@)) by {
        assert(rz_synthesis_params()[0][0] != "injection_error_probability"@[0]);
        assert(rz_synthesis_params()[1][0] != "injection_error_probability"@[0]);
    }
    assert(!scalar_routing_params().contains("injection_error_probability"@)) by {
        assert(scalar_routing_params()[0][0] != "injection_error_probability"@[0]);
    }
    assert(!known_params().contains("no_such_parameter"@)) by {
        assert(known_params()[0][0] != "no_such_parameter"@[0]);
        assert(known_params()[1][0] != "no_such_parameter"@[0]);
        assert(known_params()[2][0] != "no_such_parameter"@[0]);
        assert(known_params()[3][0] != "no_such_parameter"@[0]);
        assert(known_params()[4][0] != "no_such_parameter"@[0]);
        assert(known_params()[5][0] != "no_such_parameter"@[0]);
        assert(known_params()[6][0] != "no_such_parameter"@[0]);
        assert(known_params()[7][0] != "no_such_parameter"@[0]);
        assert(known_params()[8][0] != "no_such_parameter"@[0]);
        assert(known_params()[9][0] != "no_such_parameter"@[0]);
        assert(known_params()[10][0] != "no_such_parameter"@[0]);
        assert(known_params()[11][0] != "no_such_parameter"@[0]);
        assert(known_params()[12][0] != "no_such_parameter"@[0]);
        assert(known_params()[13][0] != "no_such_parameter"@[0]);
        assert(known_params()[14][0] != "no_such_parameter"@[0]);
        assert(known_params()[15][0] != "no_such_parameter"@[0]);
        assert(known_params()[16][0] != "no_such_parameter"@[0]);
        assert(known_params()[17][0] != "no_such_parameter"@[0]);
        assert(known_params()[18][0] != "no_such_parameter"@[0]);
        assert(known_params()[19][0] != "no_such_parameter"@[0]);
    }
    assert(!cultivation_params().contains("no_such_parameter"@)) by {
        assert(cultivation_params()[0][0] != "no_such_parameter"@[0]);
        assert(cultivation_params()[1][0] != "no_such_parameter"@[0]);
    }
    assert(!distillation_params().contains("no_such_parameter"@)) by {
        assert(distillation_params()[0][0] != "no_such_parameter"@[0]);
        assert(distillation_params()[1][0] != "no_such_parameter"@[0]);
        assert(distillation_params()[2][0] != "no_such_parameter"@[0]);
    }
    assert(!rz_synthesis_params().contains("no_such_parameter"@)) by {
        assert(rz_synthesis_params()[0][0] != "no_such_parameter"@[0]);
        assert(rz_synthesis_params()[1][0] != "no_such_parameter"@[0]);
    }
    assert(!scalar_routing_params().contains("no_such_parameter"@)) by {
        assert(scalar_routing_params()[0][0] != "no_such_parameter"@[0]);
    }
}

} // verus!
