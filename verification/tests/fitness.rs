use problem_generator::problem::clique_tree::{
    is_better_fitness, is_better_or_equal_fitness, is_better_or_equal_solutionfit, is_better_solutionfit,
    is_equal_fitness, is_equal_solutionfit, is_worse_fitness, is_worse_solutionfit, SolutionFit,
};
use problem_generator::problem::fitness::{FITNESS_EPSILON, FITNESS_UNIT};

#[test]
fn tolerance_is_ten_to_the_minus_ten() {
    assert_eq!(FITNESS_UNIT, 1_000_000_000_000_000);
    assert_eq!(FITNESS_EPSILON, 100_000);
    assert_eq!(FITNESS_UNIT as i128 / FITNESS_EPSILON, 10_000_000_000);
}

#[test]
fn equal_means_closer_than_the_tolerance() {
    assert!(is_equal_fitness(0, 0));
    assert!(is_equal_fitness(0, FITNESS_EPSILON - 1));
    assert!(is_equal_fitness(FITNESS_EPSILON - 1, 0));
    assert!(!is_equal_fitness(0, FITNESS_EPSILON));
    assert!(!is_equal_fitness(FITNESS_EPSILON, 0));
    assert!(!is_equal_fitness(i128::MAX, i128::MIN));
    assert!(!is_equal_fitness(i128::MIN, i128::MAX));
    assert!(is_equal_fitness(i128::MAX, i128::MAX - 5));
    assert!(is_equal_fitness(i128::MIN, i128::MIN + 5));
}

#[test]
fn better_needs_the_tolerance_or_more() {
    assert!(is_better_fitness(FITNESS_EPSILON, 0));
    assert!(!is_better_fitness(FITNESS_EPSILON - 1, 0));
    assert!(!is_better_fitness(0, FITNESS_EPSILON));
    assert!(is_better_fitness(i128::MAX, i128::MIN));
    assert!(is_worse_fitness(0, FITNESS_EPSILON));
    assert!(!is_worse_fitness(0, FITNESS_EPSILON - 1));
    assert!(!is_worse_fitness(FITNESS_EPSILON, 0));
}

#[test]
fn better_or_equal_is_not_worse_by_the_tolerance() {
    assert!(is_better_or_equal_fitness(0, FITNESS_EPSILON - 1));
    assert!(!is_better_or_equal_fitness(0, FITNESS_EPSILON));
    assert!(is_better_or_equal_fitness(FITNESS_EPSILON, 0));
    assert!(is_better_or_equal_fitness(7, 7));
}

#[test]
fn exactly_one_of_better_worse_equal() {
    let values = [-FITNESS_EPSILON, -1, 0, 1, FITNESS_EPSILON - 1, FITNESS_EPSILON, 3 * FITNESS_EPSILON];
    for &a in values.iter() {
        for &b in values.iter() {
            let count = [is_better_fitness(a, b), is_worse_fitness(a, b), is_equal_fitness(a, b)]
                .iter()
                .filter(|&&held| held)
                .count();
            assert_eq!(count, 1);
            assert_eq!(is_better_or_equal_fitness(a, b), !is_worse_fitness(a, b));
        }
    }
}

#[test]
fn solutions_compare_by_fitness_and_content() {
    let a = SolutionFit { solution: vec![0, 1, 1], fitness: 1000 };
    let same_fitness = SolutionFit { solution: vec![1, 1, 1], fitness: 1000 };
    let close_same = SolutionFit { solution: vec![0, 1, 1], fitness: 1001 };
    let close_other = SolutionFit { solution: vec![1, 1, 1], fitness: 1001 };
    let far = SolutionFit { solution: vec![0, 1, 1], fitness: 1000 + FITNESS_EPSILON };
    assert!(is_equal_solutionfit(&a, &same_fitness));
    assert!(is_equal_solutionfit(&a, &close_same));
    assert!(!is_equal_solutionfit(&a, &close_other));
    assert!(!is_equal_solutionfit(&a, &far));
    assert!(is_better_solutionfit(&far, &a));
    assert!(!is_better_solutionfit(&close_same, &a));
    assert!(is_worse_solutionfit(&a, &far));
    assert!(!is_worse_solutionfit(&a, &close_other));
    assert!(is_better_or_equal_solutionfit(&close_other, &a));
    assert!(!is_better_or_equal_solutionfit(&a, &close_other));
    assert!(is_better_or_equal_solutionfit(&a, &close_same));
}
