use optimization_metaheuristics::AlgorithmError;
use optimization_metaheuristics::GeneticAlgorithmConfig;
use optimization_metaheuristics::SimulatedAnnealingConfig;

#[test]
fn test_ga_config_rejects_excess_parent_pairs() {
    // Twelve parents cannot be seated in a population of ten.
    let config = GeneticAlgorithmConfig::new(100, 10, 100_000, 6, None);
    assert!(matches!(config, Err(AlgorithmError::ConfigurationError(_))));
}

#[test]
fn test_ga_config_rejects_mutation_rate_above_one() {
    let config = GeneticAlgorithmConfig::new(100, 10, 1_000_001, 2, None);
    assert!(matches!(config, Err(AlgorithmError::ConfigurationError(_))));
}

#[test]
fn test_ga_config_accepts_boundary_pairs() {
    let config = GeneticAlgorithmConfig::new(100, 10, 100_000, 5, None).unwrap();
    assert_eq!(config.number_generations, 100);
    assert_eq!(config.population_size, 10);
    assert_eq!(config.mutation_rate, 100_000);
    assert_eq!(config.number_pairs_parents, 5);
    assert!(config.stop_threshold.is_none());
}

#[test]
fn test_ga_config_invariant_holds_post_construction() {
    for pairs in 0..8 {
        let config = GeneticAlgorithmConfig::new(50, 10, 500_000, pairs, Some(-10));
        match config {
            Ok(c) => assert!(2 * c.number_pairs_parents <= c.population_size),
            Err(_) => assert!(2 * pairs > 10),
        }
    }
}

#[test]
fn test_ga_config_default() {
    let config = GeneticAlgorithmConfig::default();
    assert_eq!(config.number_generations, 100);
    assert_eq!(config.population_size, 100);
    assert_eq!(config.mutation_rate, 100_000);
    assert_eq!(config.number_pairs_parents, 2);
    assert!(config.stop_threshold.is_none());
}

#[test]
fn test_sa_config_rejects_initial_below_minimal() {
    // An initial temperature of one under a minimal temperature of two.
    let config = SimulatedAnnealingConfig::new(100, 1_000_000, 2_000_000, 900_000, None);
    assert!(matches!(config, Err(AlgorithmError::ConfigurationError(_))));
}

#[test]
fn test_sa_config_rejects_cooling_rate_above_one() {
    let config = SimulatedAnnealingConfig::new(100, 2_000_000, 0, 1_000_001, None);
    assert!(matches!(config, Err(AlgorithmError::ConfigurationError(_))));
}

#[test]
fn test_sa_config_accepts_valid() {
    let config = SimulatedAnnealingConfig::new(100, 2_000_000, 1_000_000, 900_000, Some(-5)).unwrap();
    assert_eq!(config.max_iterations, 100);
    assert_eq!(config.initial_temperature, 2_000_000);
    assert_eq!(config.minimal_temperature, 1_000_000);
    assert_eq!(config.cooling_rate, 900_000);
    assert_eq!(config.stop_threshold, Some(-5));
}

#[test]
fn test_sa_config_default() {
    let config = SimulatedAnnealingConfig::default();
    assert_eq!(config.max_iterations, 1000);
    assert_eq!(config.initial_temperature, 1_000_000);
    assert_eq!(config.minimal_temperature, 0);
    assert_eq!(config.cooling_rate, 990_000);
    assert!(config.stop_threshold.is_none());
}

#[test]
fn test_error_reason_strings() {
    let config = GeneticAlgorithmConfig::new(100, 10, 2_000_000, 2, None);
    match config {
        Err(e) => assert_eq!(e.reason(), "the mutation rate should be between 0 and 1."),
        Ok(_) => panic!("a mutation rate of two must be rejected"),
    }
}
