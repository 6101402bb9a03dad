use optimization_metaheuristics::parse_problems;
use optimization_metaheuristics::GeneticCompatible;
use optimization_metaheuristics::KnapsackProblem;
use optimization_metaheuristics::KnapsackSolution;
use optimization_metaheuristics::ProblemError;
use optimization_metaheuristics::ProblemSolution;
use optimization_metaheuristics::SimulatedAnnealing;
use rand::rngs::StdRng;
use rand::SeedableRng;

fn sample_problem() -> KnapsackProblem {
    KnapsackProblem::new(&vec![60, 100, 120], &vec![10, 20, 30], 50, Some(220)).unwrap()
}

#[test]
fn test_problem_rejects_mismatched_lengths() {
    let result = KnapsackProblem::new(&vec![60, 100, 120], &vec![10, 20], 50, None);
    assert!(matches!(result, Err(ProblemError::InitializationError(_))));
}

#[test]
fn test_problem_rejects_value_total_overflow() {
    let result = KnapsackProblem::new(&vec![u64::MAX / 2, u64::MAX / 2], &vec![1, 1], 50, None);
    assert!(matches!(result, Err(ProblemError::InitializationError(_))));
}

#[test]
fn test_objective_is_negated_value_when_feasible() {
    let problem = sample_problem();
    let solution = KnapsackSolution::new(vec![1, 2], &problem).unwrap();
    assert_eq!(solution.value, 220);
    assert_eq!(solution.weight, 50);
    assert_eq!(solution.objective(), -220);
}

#[test]
fn test_objective_is_zero_when_infeasible() {
    let problem = sample_problem();
    let solution = KnapsackSolution::new(vec![0, 1, 2], &problem).unwrap();
    assert_eq!(solution.weight, 60);
    assert_eq!(solution.objective(), 0);
}

#[test]
fn test_solution_collapses_duplicate_items() {
    let problem = sample_problem();
    let solution = KnapsackSolution::new(vec![1, 1, 2, 1], &problem).unwrap();
    assert_eq!(solution.items.len(), 2);
    assert_eq!(solution.value, 220);
}

#[test]
fn test_new_random_draws_distinct_items() {
    let problem = sample_problem();
    let mut rng = StdRng::seed_from_u64(7);
    let solution = KnapsackSolution::new_random(Some(2), &problem, &mut rng).unwrap();
    assert_eq!(solution.items.len(), 2);
    assert!(solution.items.iter().all(|&i| i < 3));
    assert_ne!(solution.items[0], solution.items[1]);
}

#[test]
fn test_new_solution_flips_exactly_one_membership() {
    let problem = sample_problem();
    let solution = KnapsackSolution::new(vec![0], &problem).unwrap();
    let mut rng = StdRng::seed_from_u64(11);
    let neighbor = solution.new_solution(&mut rng).unwrap();
    let flips = (0..3)
        .filter(|i| solution.items.contains(i) != neighbor.items.contains(i))
        .count();
    assert_eq!(flips, 1);
}

#[test]
fn test_mutate_with_rate_one_flips_everything() {
    let problem = sample_problem();
    let mut solution = KnapsackSolution::new(vec![], &problem).unwrap();
    let mut rng = StdRng::seed_from_u64(13);
    solution.mutate(1_000_000, &mut rng).unwrap();
    // A full mutation rate flips every membership, whatever was drawn.
    assert_eq!(solution.items, vec![0, 1, 2]);
    assert_eq!(solution.value, 280);
    assert_eq!(solution.weight, 60);
}

#[test]
fn test_mutate_with_rate_zero_changes_nothing() {
    let problem = sample_problem();
    let mut solution = KnapsackSolution::new(vec![1], &problem).unwrap();
    let mut rng = StdRng::seed_from_u64(17);
    solution.mutate(0, &mut rng).unwrap();
    assert_eq!(solution.items, vec![1]);
}

#[test]
fn test_generate_children_splits_parent_union() {
    let problem = sample_problem();
    let first = KnapsackSolution::new(vec![0], &problem).unwrap();
    let second = KnapsackSolution::new(vec![1, 2], &problem).unwrap();
    let mut rng = StdRng::seed_from_u64(19);
    let children = first.generate_children_with(&second, &mut rng).unwrap();
    assert_eq!(children.len(), 2);
    // The parents' union {0, 1, 2} is distributed over the two children.
    let mut combined: Vec<usize> = children
        .iter()
        .flat_map(|child| child.items.iter().copied())
        .collect();
    combined.sort();
    assert_eq!(combined, vec![0, 1, 2]);
}

#[test]
fn test_new_solution_fails_on_a_problem_without_items() {
    let empty_problem = KnapsackProblem::new(&vec![], &vec![], 10, None).unwrap();
    let solution = KnapsackSolution::new(vec![], &empty_problem).unwrap();
    let mut rng = StdRng::seed_from_u64(23);
    let result = solution.new_solution(&mut rng);
    assert!(matches!(result, Err(ProblemError::NewSolutionError(_))));
}

#[test]
fn test_generate_children_rejects_parents_of_different_problems() {
    let small = sample_problem();
    let large =
        KnapsackProblem::new(&vec![1, 2, 3, 4, 5], &vec![1, 1, 1, 1, 1], 10, None).unwrap();
    let first = KnapsackSolution::new(vec![0], &small).unwrap();
    let second = KnapsackSolution::new(vec![4], &large).unwrap();
    let mut rng = StdRng::seed_from_u64(29);
    let result = first.generate_children_with(&second, &mut rng);
    assert!(matches!(result, Err(ProblemError::NewSolutionError(_))));
}

#[test]
fn test_parse_single_instance() {
    let text = b"50\n10,20,30\n60,100,120\n220".to_vec();
    let problems = parse_problems(&text).unwrap();
    assert_eq!(problems.len(), 1);
    assert_eq!(problems[0].max_weight, 50);
    assert_eq!(problems[0].all_weights, vec![10, 20, 30]);
    assert_eq!(problems[0].all_values, vec![60, 100, 120]);
    assert_eq!(problems[0].number_items, 3);
    assert_eq!(problems[0].optimal_value, Some(220));
}

#[test]
fn test_parse_two_instances() {
    let text = b"50\n10,20,30\n60,100,120\n220\n---\n7\n3,4\n5,6\n11".to_vec();
    let problems = parse_problems(&text).unwrap();
    assert_eq!(problems.len(), 2);
    assert_eq!(problems[1].max_weight, 7);
    assert_eq!(problems[1].all_weights, vec![3, 4]);
    assert_eq!(problems[1].all_values, vec![5, 6]);
    assert_eq!(problems[1].optimal_value, Some(11));
}

#[test]
fn test_parse_accepts_carriage_returns_and_final_newline() {
    let text = b"50\r\n10,20,30\r\n60,100,120\r\n220\r\n".to_vec();
    let problems = parse_problems(&text).unwrap();
    assert_eq!(problems.len(), 1);
    assert_eq!(problems[0].all_values, vec![60, 100, 120]);
}

#[test]
fn test_parse_rejects_missing_line() {
    let text = b"50\n10,20,30".to_vec();
    let result = parse_problems(&text);
    assert!(matches!(result, Err(ProblemError::InitializationError(_))));
}

#[test]
fn test_parse_rejects_non_numeric_field() {
    let text = b"50\n10,2x,30\n60,100,120\n220".to_vec();
    let result = parse_problems(&text);
    assert!(matches!(result, Err(ProblemError::InitializationError(_))));
}

#[test]
fn test_parse_rejects_mismatched_field_counts() {
    let text = b"50\n10,20\n60,100,120\n220".to_vec();
    let result = parse_problems(&text);
    assert!(matches!(result, Err(ProblemError::InitializationError(_))));
}

#[test]
fn test_parse_rejects_empty_text() {
    let result = parse_problems(&Vec::new());
    assert!(matches!(result, Err(ProblemError::InitializationError(_))));
}
