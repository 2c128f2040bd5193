use problem_generator::problem::clique_tree::{
    get_child_separator_substring, get_possible_substrings, get_separator_substring_from_string, CliqueTree,
    InputParameters,
};
use problem_generator::problem::elimination::{best_for_separator_value, candidate_score};
use problem_generator::problem::separable::{extend_string, separable_clique_optima};

const UNIT: i64 = 1_000_000_000_000_000;

#[test]
fn separator_values_are_read_from_a_string() {
    assert_eq!(get_separator_substring_from_string(&vec![2, 0], &vec![1, 0, 0, 1]), vec![0, 1]);
    assert_eq!(get_separator_substring_from_string(&vec![], &vec![1, 0, 0, 1]), Vec::<u32>::new());
    assert_eq!(get_separator_substring_from_string(&vec![3, 3], &vec![1, 0, 0, 1]), vec![1, 1]);
}

#[test]
fn separator_values_are_looked_up_by_variable() {
    // The clique holds the variables 9, 8, 10 with the values 0, 1, 0.
    assert_eq!(get_child_separator_substring(&vec![9, 8, 10], &vec![8], &vec![0, 1, 0]), vec![1]);
    assert_eq!(get_child_separator_substring(&vec![9, 8, 10], &vec![10, 9], &vec![1, 1, 0]), vec![0, 1]);
    assert_eq!(get_child_separator_substring(&vec![9, 8, 10], &vec![], &vec![1, 1, 0]), Vec::<u32>::new());
}

#[test]
fn strings_are_extended_at_the_private_variables() {
    assert_eq!(extend_string(&vec![0, 0, 0, 0, 0], &vec![4, 1, 3], 1, &vec![1, 1]), vec![0, 1, 0, 1, 0]);
    assert_eq!(extend_string(&vec![1, 1, 1, 1, 1], &vec![4, 1, 3], 0, &vec![0, 1, 0]), vec![1, 1, 1, 0, 0]);
    assert_eq!(extend_string(&vec![1, 0, 1], &vec![2, 0], 2, &vec![]), vec![1, 0, 1]);
}

#[test]
fn separable_scan_keeps_what_is_close_to_the_first_kept() {
    assert_eq!(separable_clique_optima(&vec![5 * UNIT]), vec![0]);
    assert_eq!(separable_clique_optima(&vec![UNIT, 3 * UNIT, 2 * UNIT, 3 * UNIT]), vec![1, 3]);
    assert_eq!(separable_clique_optima(&vec![3 * UNIT, 3 * UNIT, 3 * UNIT]), vec![0, 1, 2]);
    // Within the tolerance of the first kept value, which stays the measure.
    assert_eq!(separable_clique_optima(&vec![0, 99_999, 199_998, 100_000]), vec![2, 3]);
    assert_eq!(separable_clique_optima(&vec![0, 99_999, 199_998, 99_998]), vec![2]);
    assert_eq!(separable_clique_optima(&vec![0, 99_999, 60_000, -99_999, -100_000]), vec![0, 1, 2, 3]);
    assert_eq!(separable_clique_optima(&vec![i64::MIN, i64::MAX, i64::MAX - 1, i64::MIN]), vec![1, 2]);
}

/// A chain of three cliques of two variables: clique 1 shares variable 1
/// with the root, clique 2 shares variable 2 with clique 1.
fn chain() -> (InputParameters, Vec<Vec<u32>>, Vec<Vec<u32>>, Vec<Vec<i64>>) {
    let parameters = InputParameters::new_from_primitives(3, 2, 1, 1);
    let cliques = vec![vec![0, 1], vec![1, 2], vec![2, 3]];
    let separators = vec![vec![], vec![1], vec![2]];
    let tables = vec![
        vec![0, UNIT, 2 * UNIT, 0],
        vec![0, 0, 3 * UNIT, 0],
        vec![UNIT, 5 * UNIT, 4 * UNIT, 4 * UNIT],
    ];
    (parameters, cliques, separators, tables)
}

#[test]
fn scores_are_passed_up_a_chain() {
    let (parameters, cliques, separators, tables) = chain();
    let (scores, ties) = CliqueTree::eliminate(&parameters, &tables, &cliques, &separators);
    // Clique 2, by the value of variable 2.
    assert_eq!(scores[2], vec![5 * UNIT as i128, 4 * UNIT as i128]);
    assert_eq!(ties[2], vec![vec![1], vec![0, 1]]);
    // Clique 1, by the value of variable 1: its table plus what clique 2 records.
    assert_eq!(scores[1], vec![5 * UNIT as i128, 8 * UNIT as i128]);
    assert_eq!(ties[1], vec![vec![0], vec![0]]);
    // The root: 0 + 5, 1 + 8, 2 + 5, 0 + 8.
    assert_eq!(scores[0], vec![9 * UNIT as i128]);
    assert_eq!(ties[0], vec![vec![1]]);

    let possible = get_possible_substrings(2);
    assert_eq!(
        candidate_score(&parameters, &tables, &cliques, &separators, &scores, 0, 3, &possible[3]),
        8 * UNIT as i128
    );
    assert_eq!(
        candidate_score(&parameters, &tables, &cliques, &separators, &scores, 2, 1, &possible[1]),
        5 * UNIT as i128
    );
    assert_eq!(
        best_for_separator_value(&parameters, &tables, &cliques, &separators, &scores, &possible, 1, 1),
        (vec![0], 8 * UNIT as i128)
    );

    let optima = CliqueTree::assemble_optima(&parameters, &tables, &cliques, &separators, &ties);
    assert_eq!(optima, vec![vec![0, 1, 0, 1]]);
    let solved = CliqueTree::calculate_global_optima_by_elimination(&parameters, &tables, &cliques, &separators);
    assert_eq!(solved, vec![(vec![0, 1, 0, 1], 9 * UNIT as i128)]);
}

#[test]
fn ties_along_a_chain_multiply() {
    let (parameters, cliques, separators, mut tables) = chain();
    // Two best values for the last clique under either separator value, and
    // two best root indices.
    tables[2] = vec![5 * UNIT, 5 * UNIT, 5 * UNIT, 5 * UNIT];
    tables[1] = vec![0, 0, 0, 0];
    tables[0] = vec![UNIT, 0, 0, UNIT];
    let solved = CliqueTree::calculate_global_optima_by_elimination(&parameters, &tables, &cliques, &separators);
    assert_eq!(solved.len(), 8);
    assert!(solved.iter().all(|(_, score)| *score == 6 * UNIT as i128));
    let mut strings: Vec<Vec<u32>> = solved.into_iter().map(|(string, _)| string).collect();
    strings.sort();
    strings.dedup();
    assert_eq!(strings.len(), 8);
    assert!(strings.iter().all(|string| string[0] == string[1]));
}

#[test]
fn branches_of_a_tree() {
    // The root has two children, which share variable 0 and variable 1 with it.
    let parameters = InputParameters::new_from_primitives(3, 2, 1, 2);
    let cliques = vec![vec![0, 1], vec![0, 2], vec![1, 3]];
    let separators = vec![vec![], vec![0], vec![1]];
    let tables = vec![
        vec![0, 0, 0, 0],
        vec![0, UNIT, 7 * UNIT, 0],
        vec![2 * UNIT, 0, 0, 3 * UNIT],
    ];
    let solved = CliqueTree::calculate_global_optima_by_elimination(&parameters, &tables, &cliques, &separators);
    // Variable 0 = 1 with variable 2 = 0 gives 7; variable 1 = 1 with variable 3 = 1 gives 3.
    assert_eq!(solved, vec![(vec![1, 1, 0, 1], 10 * UNIT as i128)]);
}
