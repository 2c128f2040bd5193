use problem_generator::problem::clique_tree::{CliqueTree, InputParameters, SolutionFit};
use problem_generator::problem::codomain_subclasses::{generate_random, CodomainFunction};
use problem_generator::problem::configuration::get_rng;
use problem_generator::problem::evaluation::{clique_substring_index, clique_substring_index_int, find_variable};
use problem_generator::problem::problem_generation::Problem;

fn hand_made_tree() -> CliqueTree {
    // Two cliques of two variables that share variable 1.
    let problem = Problem {
        input_parameters: InputParameters::new_from_primitives(2, 2, 1, 1),
        cliques: vec![vec![1, 0], vec![1, 2]],
        glob_optima_strings: vec![vec![1, 1, 0]],
        glob_optima_score: 70,
    };
    CliqueTree::construct_from_problem_codomain(problem, vec![vec![1, 2, 3, 40], vec![5, 6, 30, 8]])
}

#[test]
fn construct_from_problem_keeps_the_parts() {
    let tree = hand_made_tree();
    assert_eq!(tree.input_parameters, InputParameters::new_from_primitives(2, 2, 1, 1));
    assert_eq!(tree.codomain_function, CodomainFunction::Unknown);
    assert_eq!(tree.cliques, vec![vec![1, 0], vec![1, 2]]);
    assert_eq!(tree.codomain_values, vec![vec![1, 2, 3, 40], vec![5, 6, 30, 8]]);
    assert_eq!(tree.glob_optima_strings, vec![vec![1, 1, 0]]);
    assert_eq!(tree.glob_optima_score, 70);
}

#[test]
fn fitness_sums_table_values_at_packed_indices() {
    let tree = hand_made_tree();
    let mut evaluations = 0;
    // x = (x0, x1, x2); clique 0 reads (x1, x0), clique 1 reads (x1, x2).
    assert_eq!(tree.calculate_fitness(&[0, 0, 0], &mut evaluations), 1 + 5);
    assert_eq!(tree.calculate_fitness(&[1, 0, 0], &mut evaluations), 2 + 5);
    assert_eq!(tree.calculate_fitness(&[0, 1, 0], &mut evaluations), 3 + 30);
    assert_eq!(tree.calculate_fitness(&[1, 1, 0], &mut evaluations), 40 + 30);
    assert_eq!(tree.calculate_fitness(&[1, 1, 1], &mut evaluations), 40 + 8);
    assert_eq!(tree.calculate_fitness(&[0, 0, 1], &mut evaluations), 1 + 6);
    assert_eq!(evaluations, 6);
}

#[test]
fn fitness_of_signed_values_agrees() {
    let tree = hand_made_tree();
    for x in 0..8u32 {
        let unsigned = vec![x & 1, (x >> 1) & 1, (x >> 2) & 1];
        let signed: Vec<i32> = unsigned.iter().map(|&v| v as i32).collect();
        let mut evaluations = 10;
        let expected = tree.calculate_fitness(&unsigned, &mut evaluations);
        assert_eq!(tree.calculate_fitness_int(&signed, &mut evaluations), expected);
        assert_eq!(evaluations, 12);
    }
}

#[test]
fn fitness_takes_extreme_table_values() {
    let problem = Problem {
        input_parameters: InputParameters::new_from_primitives(2, 1, 0, 1),
        cliques: vec![vec![0], vec![1]],
        glob_optima_strings: vec![vec![0, 0]],
        glob_optima_score: 2 * (i64::MAX as i128),
    };
    let tree = CliqueTree::construct_from_problem_codomain(
        problem,
        vec![vec![i64::MAX, i64::MIN], vec![i64::MAX, i64::MIN]],
    );
    let mut evaluations = 0;
    assert_eq!(tree.calculate_fitness(&[0, 0], &mut evaluations), 2 * (i64::MAX as i128));
    assert_eq!(tree.calculate_fitness(&[1, 1], &mut evaluations), 2 * (i64::MIN as i128));
    assert_eq!(tree.calculate_fitness(&[0, 1], &mut evaluations), -1);
}

#[test]
fn delta_of_hand_made_tree() {
    let tree = hand_made_tree();
    let current = SolutionFit { solution: vec![0, 0, 0], fitness: 6 };
    let mut evaluations = 0;
    assert_eq!(tree.calculate_fitness_delta(&current, &mut evaluations, 0), 2 + 5);
    assert_eq!(tree.calculate_fitness_delta(&current, &mut evaluations, 1), 3 + 30);
    assert_eq!(tree.calculate_fitness_delta(&current, &mut evaluations, 2), 1 + 6);
    // A variable that the landscape does not have changes nothing.
    assert_eq!(tree.calculate_fitness_delta(&current, &mut evaluations, 3), 6);
    assert_eq!(evaluations, 4);
    assert_eq!(current.solution, vec![0, 0, 0]);
}

#[test]
fn delta_shifts_a_claimed_fitness_by_the_difference() {
    let tree = hand_made_tree();
    let current = SolutionFit { solution: vec![1, 1, 0], fitness: 1000 };
    let mut evaluations = 0;
    // The true fitness goes from 70 to 33 + ... : flipping x0 gives 3 + 30.
    assert_eq!(tree.calculate_fitness_delta(&current, &mut evaluations, 0), 1000 + (33 - 70));
}

#[test]
fn delta_equals_fitness_from_scratch_for_all_flips() {
    for &(m, k, o, b, seed) in [(5u32, 3u32, 1u32, 2u32, 1u64), (4, 3, 2, 3, 2), (3, 2, 0, 1, 3), (6, 2, 1, 1, 4)].iter() {
        let parameters = InputParameters::new_from_primitives(m, k, o, b);
        let mut rng = get_rng(Some(seed)).unwrap();
        let codomain = generate_random(&parameters, &mut rng);
        let tree = CliqueTree::new(parameters, CodomainFunction::Random, codomain, &mut rng).unwrap();
        let size = ((m - 1) * (k - o) + k) as usize;
        for x in 0..(1u32 << size) {
            let solution: Vec<u32> = (0..size).map(|v| (x >> v) & 1).collect();
            let mut evaluations = 0;
            let fitness = tree.calculate_fitness(&solution, &mut evaluations);
            let current = SolutionFit { solution: solution.clone(), fitness };
            for v in 0..size {
                let mut flipped = solution.clone();
                flipped[v] = 1 - flipped[v];
                let from_scratch = tree.calculate_fitness(&flipped, &mut evaluations);
                let delta = tree.calculate_fitness_delta(&current, &mut evaluations, v as u32);
                assert_eq!(delta, from_scratch);
            }
        }
    }
}

#[test]
fn packed_index_of_a_clique() {
    assert_eq!(clique_substring_index(&vec![2, 0], &[0, 1, 1]), 0b10);
    assert_eq!(clique_substring_index(&vec![0, 1, 2], &[0, 1, 1]), 0b011);
    assert_eq!(clique_substring_index(&vec![], &[0, 1, 1]), 0);
    assert_eq!(clique_substring_index_int(&vec![2, 0], &[0, 1, 1]), 0b10);
    assert_eq!(clique_substring_index_int(&vec![1, 1, 0], &[0, 1, 1]), 0b110);
}

#[test]
fn find_variable_gives_first_position() {
    assert_eq!(find_variable(&vec![4, 7, 9, 7], 7), Some(1));
    assert_eq!(find_variable(&vec![4, 7, 9, 7], 4), Some(0));
    assert_eq!(find_variable(&vec![4, 7, 9, 7], 5), None);
    assert_eq!(find_variable(&vec![], 5), None);
}
