use optimization_metaheuristics::AlgorithmError;
use optimization_metaheuristics::KnapsackProblem;
use optimization_metaheuristics::KnapsackSolution;
use optimization_metaheuristics::next_temperature;
use optimization_metaheuristics::SimulatedAnnealingAlgorithm;
use optimization_metaheuristics::SimulatedAnnealingConfig;
use rand::rngs::StdRng;
use rand::SeedableRng;

fn sample_problem() -> KnapsackProblem {
    KnapsackProblem::new(&vec![60, 100, 120], &vec![10, 20, 30], 50, Some(220)).unwrap()
}

#[test]
fn test_knapsack_simulated_annealing() {
    // 1000 iterations, initial temperature ten, cooling rate 0.999.
    let problem = sample_problem();
    let config = SimulatedAnnealingConfig::new(1000, 10_000_000, 0, 999_000, None).unwrap();
    let algorithm = SimulatedAnnealingAlgorithm::new(config);
    let mut rng = StdRng::seed_from_u64(97);
    let initial = KnapsackSolution::new(vec![], &problem).unwrap();
    let result = algorithm.execute(initial, &mut rng).unwrap();
    assert_eq!(
        Some(result.solution.value),
        problem.optimal_value,
        "Expected {}, found {}.",
        problem.optimal_value.unwrap(),
        result.solution.value
    );
}

#[test]
fn test_sa_is_deterministic_under_a_fixed_seed() {
    let problem = sample_problem();
    let config = SimulatedAnnealingConfig::new(500, 10_000_000, 0, 999_000, None).unwrap();
    let algorithm = SimulatedAnnealingAlgorithm::new(config);
    let mut first_rng = StdRng::seed_from_u64(97);
    let first = algorithm
        .execute(KnapsackSolution::new(vec![], &problem).unwrap(), &mut first_rng)
        .unwrap();
    let mut second_rng = StdRng::seed_from_u64(97);
    let second = algorithm
        .execute(KnapsackSolution::new(vec![], &problem).unwrap(), &mut second_rng)
        .unwrap();
    assert_eq!(first.solution.items, second.solution.items);
    assert_eq!(first.solution.value, second.solution.value);
    assert_eq!(first.number_iterations, second.number_iterations);
}

#[test]
fn test_sa_runs_the_whole_budget_without_a_threshold() {
    let problem = sample_problem();
    let config = SimulatedAnnealingConfig::new(250, 10_000_000, 0, 999_000, None).unwrap();
    let algorithm = SimulatedAnnealingAlgorithm::new(config);
    let mut rng = StdRng::seed_from_u64(41);
    let initial = KnapsackSolution::new(vec![], &problem).unwrap();
    let result = algorithm.execute(initial, &mut rng).unwrap();
    assert_eq!(result.number_iterations, 250);
}

#[test]
fn test_sa_stops_early_once_best_crosses_the_threshold() {
    let problem = sample_problem();
    let config = SimulatedAnnealingConfig::new(1000, 10_000_000, 0, 999_000, Some(-200)).unwrap();
    let algorithm = SimulatedAnnealingAlgorithm::new(config);
    let mut rng = StdRng::seed_from_u64(97);
    let initial = KnapsackSolution::new(vec![], &problem).unwrap();
    let result = algorithm.execute(initial, &mut rng).unwrap();
    assert!(result.number_iterations < 1000);
    assert!(result.solution.value > 200);
}

#[test]
fn test_sa_best_is_never_worse_than_the_initial_solution() {
    let problem = sample_problem();
    let config = SimulatedAnnealingConfig::new(50, 10_000_000, 0, 999_000, None).unwrap();
    let algorithm = SimulatedAnnealingAlgorithm::new(config);
    let mut rng = StdRng::seed_from_u64(61);
    // The initial solution is already feasible at value 160.
    let initial = KnapsackSolution::new(vec![0, 1], &problem).unwrap();
    let result = algorithm.execute(initial, &mut rng).unwrap();
    assert!(result.solution.value >= 160);
    assert!(result.solution.weight <= 50);
}

#[test]
fn test_sa_with_zero_iterations_returns_the_initial_solution() {
    let problem = sample_problem();
    let config = SimulatedAnnealingConfig::new(0, 10_000_000, 0, 999_000, None).unwrap();
    let algorithm = SimulatedAnnealingAlgorithm::new(config);
    let mut rng = StdRng::seed_from_u64(67);
    let initial = KnapsackSolution::new(vec![0, 1], &problem).unwrap();
    let result = algorithm.execute(initial, &mut rng).unwrap();
    assert_eq!(result.number_iterations, 0);
    assert_eq!(result.solution.value, 160);
}

#[test]
fn test_sa_fails_when_no_neighbor_can_be_generated() {
    let empty_problem = KnapsackProblem::new(&vec![], &vec![], 10, None).unwrap();
    let config = SimulatedAnnealingConfig::new(10, 1_000_000, 0, 990_000, None).unwrap();
    let algorithm = SimulatedAnnealingAlgorithm::new(config);
    let mut rng = StdRng::seed_from_u64(71);
    let initial = KnapsackSolution::new(vec![], &empty_problem).unwrap();
    let result = algorithm.execute(initial, &mut rng);
    assert!(matches!(result, Err(AlgorithmError::ExecutionError(_))));
}

#[test]
fn test_next_temperature_cools_and_respects_the_floor() {
    let config = SimulatedAnnealingConfig::new(10, 10_000_000, 2_000_000, 500_000, None).unwrap();
    // Half of ten is five.
    assert_eq!(next_temperature(10_000_000, &config), 5_000_000);
    // Half of three would fall under the floor of two: clamped.
    assert_eq!(next_temperature(3_000_000, &config), 2_000_000);
    // The floor itself never drops.
    assert_eq!(next_temperature(2_000_000, &config), 2_000_000);
}
