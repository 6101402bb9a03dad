use optimization_metaheuristics::AlgorithmError;
use optimization_metaheuristics::GeneticAlgorithm;
use optimization_metaheuristics::GeneticAlgorithmConfig;
use optimization_metaheuristics::KnapsackProblem;
use optimization_metaheuristics::KnapsackSolution;
use rand::rngs::StdRng;
use rand::SeedableRng;

fn sample_problem() -> KnapsackProblem {
    KnapsackProblem::new(&vec![60, 100, 120], &vec![10, 20, 30], 50, Some(220)).unwrap()
}

fn random_population<'a>(
    problem: &'a KnapsackProblem,
    count: usize,
    rng: &mut StdRng,
) -> Vec<KnapsackSolution<'a>> {
    (0..count)
        .map(|_| KnapsackSolution::new_random(None, problem, rng).unwrap())
        .collect()
}

#[test]
fn test_knapsack_genetic_algorithm() {
    // 1000 generations, population 100, mutation rate 0.2, 4 parent pairs.
    let problem = sample_problem();
    let config = GeneticAlgorithmConfig::new(1000, 100, 200_000, 4, None).unwrap();
    let algorithm = GeneticAlgorithm::new(config);
    let mut rng = StdRng::seed_from_u64(654321);
    let initial = random_population(&problem, 99, &mut rng);
    let result = algorithm.execute(initial, &mut rng).unwrap();
    assert_eq!(
        Some(result.solution.value),
        problem.optimal_value,
        "Expected {}, found {}.",
        problem.optimal_value.unwrap(),
        result.solution.value
    );
}

#[test]
fn test_ga_is_deterministic_under_a_fixed_seed() {
    let problem = sample_problem();
    let config = GeneticAlgorithmConfig::new(50, 20, 200_000, 4, None).unwrap();
    let algorithm = GeneticAlgorithm::new(config);
    let mut first_rng = StdRng::seed_from_u64(31);
    let first_initial = random_population(&problem, 19, &mut first_rng);
    let first = algorithm.execute(first_initial, &mut first_rng).unwrap();
    let mut second_rng = StdRng::seed_from_u64(31);
    let second_initial = random_population(&problem, 19, &mut second_rng);
    let second = algorithm.execute(second_initial, &mut second_rng).unwrap();
    assert_eq!(first.solution.items, second.solution.items);
    assert_eq!(first.solution.value, second.solution.value);
    assert_eq!(first.number_generations, second.number_generations);
}

#[test]
fn test_ga_runs_the_whole_budget_without_a_threshold() {
    let problem = sample_problem();
    let config = GeneticAlgorithmConfig::new(25, 10, 200_000, 2, None).unwrap();
    let algorithm = GeneticAlgorithm::new(config);
    let mut rng = StdRng::seed_from_u64(37);
    let initial = random_population(&problem, 10, &mut rng);
    let result = algorithm.execute(initial, &mut rng).unwrap();
    assert_eq!(result.number_generations, 25);
}

#[test]
fn test_ga_stops_early_once_best_crosses_the_threshold() {
    let problem = sample_problem();
    let config = GeneticAlgorithmConfig::new(1000, 100, 200_000, 4, Some(-200)).unwrap();
    let algorithm = GeneticAlgorithm::new(config);
    let mut rng = StdRng::seed_from_u64(654321);
    let initial = random_population(&problem, 99, &mut rng);
    let result = algorithm.execute(initial, &mut rng).unwrap();
    assert!(result.number_generations < 1000);
    assert!(result.solution.value > 200);
}

#[test]
fn test_ga_keeps_the_best_initial_candidate_alive() {
    let problem = sample_problem();
    let config = GeneticAlgorithmConfig::new(10, 4, 200_000, 2, None).unwrap();
    let algorithm = GeneticAlgorithm::new(config);
    let mut rng = StdRng::seed_from_u64(43);
    // The optimal solution is planted in the initial population; elitist
    // replacement must never lose it.
    let initial = vec![
        KnapsackSolution::new(vec![1, 2], &problem).unwrap(),
        KnapsackSolution::new(vec![0], &problem).unwrap(),
        KnapsackSolution::new(vec![], &problem).unwrap(),
        KnapsackSolution::new(vec![2], &problem).unwrap(),
    ];
    let result = algorithm.execute(initial, &mut rng).unwrap();
    assert_eq!(result.solution.value, 220);
}

#[test]
fn test_ga_with_zero_generations_returns_the_best_initial_candidate() {
    let problem = sample_problem();
    let config = GeneticAlgorithmConfig::new(0, 4, 200_000, 2, None).unwrap();
    let algorithm = GeneticAlgorithm::new(config);
    let mut rng = StdRng::seed_from_u64(53);
    let initial = vec![
        KnapsackSolution::new(vec![0], &problem).unwrap(),
        KnapsackSolution::new(vec![2], &problem).unwrap(),
    ];
    let result = algorithm.execute(initial, &mut rng).unwrap();
    assert_eq!(result.number_generations, 0);
    assert_eq!(result.solution.value, 120);
}

#[test]
fn test_ga_fails_on_an_empty_initial_population() {
    let config = GeneticAlgorithmConfig::new(1, 0, 100_000, 0, None).unwrap();
    let algorithm = GeneticAlgorithm::new(config);
    let mut rng = StdRng::seed_from_u64(59);
    let initial: Vec<KnapsackSolution> = Vec::new();
    let result = algorithm.execute(initial, &mut rng);
    assert!(matches!(result, Err(AlgorithmError::ExecutionError(_))));
}

#[test]
fn test_ga_fails_when_the_population_cannot_seat_the_parents() {
    let problem = sample_problem();
    let config = GeneticAlgorithmConfig::new(10, 10, 200_000, 2, None).unwrap();
    let algorithm = GeneticAlgorithm::new(config);
    let mut rng = StdRng::seed_from_u64(47);
    // Two parent pairs need four elements; only one is supplied.
    let initial = vec![KnapsackSolution::new(vec![0], &problem).unwrap()];
    let result = algorithm.execute(initial, &mut rng);
    assert!(matches!(result, Err(AlgorithmError::ExecutionError(_))));
}
