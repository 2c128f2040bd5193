use problem_generator::problem::clique_tree::{CliqueTree, InputParameters};
use problem_generator::problem::codomain_subclasses::{generate_random, CodomainFunction};
use problem_generator::problem::configuration::get_rng;
use problem_generator::problem::problem_generation::Problem;
use problem_generator::problem::validation::{
    check_cliques_shape, check_separators, check_solvable, check_tree, has_no_duplicates,
};

#[test]
fn duplicates_are_found() {
    assert!(has_no_duplicates(&vec![]));
    assert!(has_no_duplicates(&vec![7]));
    assert!(has_no_duplicates(&vec![3, 1, 2]));
    assert!(!has_no_duplicates(&vec![3, 1, 3]));
    assert!(!has_no_duplicates(&vec![1, 1]));
    assert!(!has_no_duplicates(&vec![0, 5, 6, 5]));
}

#[test]
fn constructed_trees_pass_the_check() {
    let cases = [(1u32, 1u32, 0u32, 1u32), (5, 3, 1, 2), (7, 4, 2, 3), (6, 3, 0, 4), (12, 3, 2, 100)];
    for (seed, &(m, k, o, b)) in cases.iter().enumerate() {
        let parameters = InputParameters::new_from_primitives(m, k, o, b);
        let mut rng = get_rng(Some(seed as u64)).unwrap();
        let (cliques, separators) = CliqueTree::construct(&parameters, &mut rng);
        assert!(check_cliques_shape(&parameters, &cliques));
        assert!(check_tree(&parameters, &cliques));
        assert!(check_separators(&parameters, &cliques, &separators));
        let tables = generate_random(&parameters, &mut rng);
        assert!(check_solvable(&parameters, &tables, &cliques, &separators));
    }
}

/// The tree of the cliques 0-1, 1-2, 1-3 with two branches: both children
/// share variable 1 with the root.
fn small_tree() -> (InputParameters, Vec<Vec<u32>>, Vec<Vec<u32>>) {
    (
        InputParameters::new_from_primitives(3, 2, 1, 2),
        vec![vec![0, 1], vec![1, 2], vec![1, 3]],
        vec![vec![], vec![1], vec![1]],
    )
}

#[test]
fn what_is_no_tree() {
    let (parameters, cliques, _) = small_tree();
    assert!(check_tree(&parameters, &cliques));
    // Invalid parameters.
    assert!(!check_tree(&InputParameters::new_from_primitives(3, 2, 2, 2), &cliques));
    // Too few cliques, a clique of the wrong size, a variable out of range.
    assert!(!check_tree(&parameters, &cliques[..2]));
    assert!(!check_tree(&parameters, &[vec![0, 1], vec![1, 2, 3], vec![1, 3]]));
    assert!(!check_tree(&parameters, &[vec![0, 1], vec![1, 2], vec![1, 4]]));
    // A variable twice in a clique.
    assert!(!check_tree(&parameters, &[vec![0, 1], vec![1, 1], vec![1, 3]]));
    // A shared variable that the parent does not hold.
    assert!(!check_tree(&parameters, &[vec![0, 1], vec![1, 2], vec![2, 3]]));
    // With one branch, clique 2 is the child of clique 1, which holds variable 2.
    assert!(check_tree(&InputParameters::new_from_primitives(3, 2, 1, 1), &[vec![0, 1], vec![1, 2], vec![2, 3]]));
    // A variable private to two cliques, and so another to none.
    assert!(!check_tree(&parameters, &[vec![0, 1], vec![1, 2], vec![1, 2]]));
    assert!(!check_tree(&parameters, &[vec![0, 1], vec![1, 0], vec![1, 3]]));
}

#[test]
fn separators_have_to_lead_the_cliques() {
    let (parameters, cliques, separators) = small_tree();
    assert!(check_separators(&parameters, &cliques, &separators));
    assert!(!check_separators(&parameters, &cliques, &separators[..2]));
    assert!(!check_separators(&parameters, &cliques, &[vec![0], vec![1], vec![1]]));
    assert!(!check_separators(&parameters, &cliques, &[vec![], vec![2], vec![1]]));
    assert!(!check_separators(&parameters, &cliques, &[vec![], vec![1], vec![]]));
}

#[test]
fn tables_have_to_fit() {
    let (parameters, cliques, separators) = small_tree();
    assert!(check_solvable(&parameters, &vec![vec![0; 4]; 3], &cliques, &separators));
    assert!(!check_solvable(&parameters, &vec![vec![0; 4]; 2], &cliques, &separators));
    assert!(!check_solvable(&parameters, &vec![vec![0; 4], vec![0; 4], vec![0; 5]], &cliques, &separators));
    assert!(!check_solvable(&parameters, &vec![vec![0; 4]; 3], &cliques, &separators[..1]));
    let solved = CliqueTree::calculate_global_optima(
        &parameters,
        &CodomainFunction::Unknown,
        &vec![vec![0; 4]; 3],
        &cliques,
        &separators,
    );
    assert_eq!(solved.len(), 16);
}

#[test]
fn stored_problems_are_checked_before_evaluation() {
    let tree = |cliques: Vec<Vec<u32>>, tables: Vec<Vec<i64>>| {
        CliqueTree::construct_from_problem_codomain(
            Problem {
                input_parameters: InputParameters::new_from_primitives(2, 2, 1, 1),
                cliques,
                glob_optima_strings: vec![vec![0, 0, 0]],
                glob_optima_score: 0,
            },
            tables,
        )
    };
    assert!(tree(vec![vec![1, 0], vec![1, 2]], vec![vec![0; 4]; 2]).check_shape());
    // The shape does not ask for a tree: any distinct variables will do.
    assert!(tree(vec![vec![1, 0], vec![0, 1]], vec![vec![0; 4]; 2]).check_shape());
    assert!(!tree(vec![vec![1, 0], vec![1, 3]], vec![vec![0; 4]; 2]).check_shape());
    assert!(!tree(vec![vec![1, 0], vec![2, 2]], vec![vec![0; 4]; 2]).check_shape());
    assert!(!tree(vec![vec![1, 0]], vec![vec![0; 4]; 2]).check_shape());
    assert!(!tree(vec![vec![1, 0], vec![1, 2]], vec![vec![0; 4]]).check_shape());
    assert!(!tree(vec![vec![1, 0], vec![1, 2]], vec![vec![0; 4], vec![0; 2]]).check_shape());
    assert!(!tree(vec![vec![1, 0], vec![1, 2, 0]], vec![vec![0; 4]; 2]).check_shape());
}

#[test]
fn multiples_of_the_tolerance_are_recognised() {
    let tree = |tables: Vec<Vec<i64>>| {
        CliqueTree::construct_from_problem_codomain(
            Problem {
                input_parameters: InputParameters::new_from_primitives(2, 1, 0, 1),
                cliques: vec![vec![0], vec![1]],
                glob_optima_strings: vec![vec![0, 0]],
                glob_optima_score: 0,
            },
            tables,
        )
    };
    assert!(tree(vec![vec![0, 100_000], vec![-300_000, 1_000_000_000_000_000]]).check_quantized());
    assert!(!tree(vec![vec![0, 100_000], vec![-300_000, 1]]).check_quantized());
    assert!(!tree(vec![vec![99_999, 100_000], vec![0, 0]]).check_quantized());
    assert!(!tree(vec![vec![0, 0], vec![-100_001, 0]]).check_quantized());
    assert!(!tree(vec![vec![i64::MIN, 0], vec![0, 0]]).check_quantized());
    assert!(tree(vec![vec![i64::MIN + 75_808, 0], vec![0, 0]]).check_quantized());
}
