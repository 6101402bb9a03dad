use optimization_metaheuristics::AlgorithmError;
use optimization_metaheuristics::GeneticAlgorithm;
use optimization_metaheuristics::GeneticAlgorithmConfig;
use optimization_metaheuristics::KnapsackProblem;
use optimization_metaheuristics::KnapsackSolution;
use optimization_metaheuristics::Population;
use optimization_metaheuristics::ProblemSolution;
use rand::rngs::StdRng;
use rand::SeedableRng;

fn sample_problem() -> KnapsackProblem {
    KnapsackProblem::new(&vec![60, 100, 120], &vec![10, 20, 30], 50, Some(220)).unwrap()
}

#[test]
fn test_sort_then_best_individual_returns_minimum_objective() {
    let problem = sample_problem();
    let candidates = vec![
        KnapsackSolution::new(vec![0], &problem).unwrap(),
        KnapsackSolution::new(vec![1, 2], &problem).unwrap(),
        KnapsackSolution::new(vec![2], &problem).unwrap(),
        KnapsackSolution::new(vec![], &problem).unwrap(),
    ];
    let objectives: Vec<i64> = candidates.iter().map(|c| c.objective()).collect();
    let minimum = *objectives.iter().min().unwrap();
    let mut population = Population::new(4);
    population.add_individuals(candidates);
    population.sort();
    let best = population.best_individual().unwrap();
    assert_eq!(best.objective(), minimum);
    assert_eq!(best.objective(), -220);
    assert_eq!(best.value, 220);
}

#[test]
fn test_sort_twice_yields_same_order_as_once() {
    // A tight capacity makes several solutions tie at the worst objective,
    // so the order among ties is what the second sort must preserve.
    let problem = KnapsackProblem::new(&vec![60, 100, 120], &vec![10, 20, 30], 15, None).unwrap();
    let candidates = vec![
        KnapsackSolution::new(vec![1], &problem).unwrap(),
        KnapsackSolution::new(vec![2], &problem).unwrap(),
        KnapsackSolution::new(vec![0], &problem).unwrap(),
        KnapsackSolution::new(vec![0, 1], &problem).unwrap(),
        KnapsackSolution::new(vec![], &problem).unwrap(),
    ];
    let mut population = Population::new(5);
    population.add_individuals(candidates);
    population.sort();
    let after_once: Vec<Vec<usize>> =
        (0..population.len()).map(|i| population.get(i).items.clone()).collect();
    population.sort();
    let after_twice: Vec<Vec<usize>> =
        (0..population.len()).map(|i| population.get(i).items.clone()).collect();
    assert_eq!(after_once, after_twice);
}

#[test]
fn test_truncate_keeps_lowest_objectives() {
    let problem = sample_problem();
    let candidates = vec![
        KnapsackSolution::new(vec![0], &problem).unwrap(),
        KnapsackSolution::new(vec![1, 2], &problem).unwrap(),
        KnapsackSolution::new(vec![2], &problem).unwrap(),
    ];
    let mut population = Population::new(3);
    population.add_individuals(candidates);
    population.sort();
    population.truncate(1);
    assert_eq!(population.len(), 1);
    assert_eq!(population.best_individual().unwrap().value, 220);
}

#[test]
fn test_best_individual_fails_on_empty_population() {
    let population: Population<KnapsackSolution> = Population::new(0);
    let result = population.best_individual();
    assert!(matches!(result, Err(AlgorithmError::ExecutionError(_))));
}

#[test]
fn test_generate_offspring_fails_on_undersized_population() {
    let problem = sample_problem();
    let candidates = vec![
        KnapsackSolution::new(vec![0], &problem).unwrap(),
        KnapsackSolution::new(vec![1], &problem).unwrap(),
    ];
    let mut population = Population::new(2);
    population.add_individuals(candidates);
    let mut rng = StdRng::seed_from_u64(3);
    let result = population.generate_offspring(2, &mut rng);
    assert!(matches!(result, Err(AlgorithmError::ExecutionError(_))));
}

#[test]
fn test_generate_offspring_counts_two_children_per_pair() {
    let problem = sample_problem();
    let candidates = vec![
        KnapsackSolution::new(vec![0], &problem).unwrap(),
        KnapsackSolution::new(vec![1], &problem).unwrap(),
        KnapsackSolution::new(vec![2], &problem).unwrap(),
        KnapsackSolution::new(vec![1, 2], &problem).unwrap(),
    ];
    let mut population = Population::new(4);
    population.add_individuals(candidates);
    let mut rng = StdRng::seed_from_u64(5);
    let offspring = population.generate_offspring(2, &mut rng).unwrap();
    assert_eq!(offspring.len(), 4);
}

#[test]
fn test_run_generation_never_exceeds_population_size() {
    let problem = sample_problem();
    let config = GeneticAlgorithmConfig::new(10, 4, 100_000, 2, None).unwrap();
    let algorithm = GeneticAlgorithm::new(config);
    let mut rng = StdRng::seed_from_u64(23);
    let candidates: Vec<KnapsackSolution> = (0..6)
        .map(|_| KnapsackSolution::new_random(None, &problem, &mut rng).unwrap())
        .collect();
    let mut population = Population::new(6);
    population.add_individuals(candidates);
    population.sort();
    for _ in 0..5 {
        algorithm.run_generation(&mut population, &mut rng).unwrap();
        assert!(population.len() <= 4);
    }
}
