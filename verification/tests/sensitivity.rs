use pirx::sensitivity::{
    check_param_fit, default_bootstrap, default_continuous, point_seed, FactoryFamily, MorrisConfig, MorrisConfigError,
    ParamFitError, ParameterKind, RoutingFamily,
};

#[test]
fn rejects_odd_levels() {
    let config = MorrisConfig { trajectories: 10, levels: 5 };
    let err = config.validate().unwrap_err();
    assert!(matches!(err, MorrisConfigError::InvalidMorrisLevels(5)), "expected InvalidMorrisLevels(5), got {err:?}");
}

#[test]
fn rejects_levels_below_4() {
    let config = MorrisConfig { trajectories: 10, levels: 2 };
    let err = config.validate().unwrap_err();
    assert!(matches!(err, MorrisConfigError::InvalidMorrisLevels(2)), "expected InvalidMorrisLevels(2), got {err:?}");
}

#[test]
fn accepts_even_levels() {
    for levels in [4, 6, 8] {
        let config = MorrisConfig { trajectories: 10, levels };
        assert!(config.validate().is_ok(), "levels={levels} should be valid");
    }
}

#[test]
fn rejects_insufficient_trajectories() {
    let config = MorrisConfig { trajectories: 1, levels: 4 };
    let err = config.validate().unwrap_err();
    assert!(matches!(err, MorrisConfigError::InsufficientTrajectories(1)), "expected InsufficientTrajectories(1), got {err:?}");
}

#[test]
fn trajectories_checked_before_levels() {
    let config = MorrisConfig { trajectories: 0, levels: 3 };
    assert_eq!(config.validate(), Err(MorrisConfigError::InsufficientTrajectories(0)));
}

#[test]
fn defaults() {
    assert_eq!(default_bootstrap(), 1000);
    assert_eq!(default_continuous(), ParameterKind::Continuous);
}

#[test]
fn point_seed_partitions_replicas() {
    assert_eq!(point_seed(100, 0, 5), 100);
    assert_eq!(point_seed(100, 3, 5), 115);
    assert_eq!(point_seed(100, 3, 0), 103);
    assert_eq!(point_seed(u64::MAX, 1, 1), 0);
}

#[test]
fn param_fit_against_hardware_families() {
    assert_eq!(check_param_fit("code_distance", FactoryFamily::Cultivation, RoutingFamily::Manhattan), Ok(()));
    assert_eq!(check_param_fit("bogus", FactoryFamily::Cultivation, RoutingFamily::Scalar), Err(ParamFitError::UnknownParameter));
    assert_eq!(check_param_fit("lambda_raw", FactoryFamily::Distillation, RoutingFamily::Scalar), Err(ParamFitError::FactoryTypeMismatch(FactoryFamily::Cultivation)));
    assert_eq!(check_param_fit("lambda_raw", FactoryFamily::Cultivation, RoutingFamily::Scalar), Ok(()));
    assert_eq!(check_param_fit("rounds", FactoryFamily::Cultivation, RoutingFamily::Scalar), Err(ParamFitError::FactoryTypeMismatch(FactoryFamily::Distillation)));
    assert_eq!(check_param_fit("distinct_angles", FactoryFamily::Distillation, RoutingFamily::Scalar), Err(ParamFitError::FactoryTypeMismatch(FactoryFamily::RzSynthesis)));
    assert_eq!(check_param_fit("overhead_cycles", FactoryFamily::Cultivation, RoutingFamily::Manhattan), Err(ParamFitError::RoutingTypeMismatch(RoutingFamily::Scalar)));
    assert_eq!(check_param_fit("overhead_cycles", FactoryFamily::Cultivation, RoutingFamily::Scalar), Ok(()));
}

#[test]
fn every_known_param_is_known() {
    let known = [
        "code_distance", "physical_error_rate", "error_correction_threshold", "logical_error_prefactor",
        "cycle_time_us", "measurement_time_us", "feedback_latency_us", "factory_count", "lambda_raw",
        "fault_distance", "cycles_per_round", "rounds", "abort_probability", "mean_cycles_per_state",
        "distinct_angles", "injection_error_probability", "fixup_cost_cycles", "overhead_cycles",
        "buffer_capacity", "buffer_preload",
    ];
    for name in known {
        assert_ne!(check_param_fit(name, FactoryFamily::Cultivation, RoutingFamily::Scalar), Err(ParamFitError::UnknownParameter), "{name}");
    }
}
