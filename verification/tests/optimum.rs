use problem_generator::problem::clique_tree::{CliqueTree, InputParameters, SolutionFit};
use problem_generator::problem::codomain_subclasses::{
    generate_random, generate_trap_general, CodomainFunction,
};
use problem_generator::problem::configuration::get_rng;
use problem_generator::problem::fitness::FITNESS_EPSILON;

fn assignments(size: usize) -> Vec<Vec<u32>> {
    (0..(1u32 << size)).map(|x| (0..size).map(|v| (x >> v) & 1).collect()).collect()
}

fn sorted(mut strings: Vec<Vec<u32>>) -> Vec<Vec<u32>> {
    strings.sort();
    strings
}

/// The assignments of highest fitness, by trying them all.
fn optima_by_enumeration(tree: &CliqueTree, size: usize) -> (i128, Vec<Vec<u32>>) {
    let mut best = i128::MIN;
    let mut optima = Vec::new();
    let mut evaluations = 0;
    for solution in assignments(size) {
        let fitness = tree.calculate_fitness(&solution, &mut evaluations);
        if fitness > best {
            best = fitness;
            optima.clear();
        }
        if fitness == best {
            optima.push(solution);
        }
    }
    (best, sorted(optima))
}

fn size_of(parameters: &InputParameters) -> usize {
    ((parameters.m - 1) * (parameters.k - parameters.o) + parameters.k) as usize
}

#[test]
fn stored_optima_are_the_optima_of_random_landscapes() {
    let cases = [
        (1u32, 3u32, 0u32, 1u32),
        (1, 4, 2, 3),
        (4, 3, 1, 2),
        (5, 3, 2, 2),
        (6, 2, 1, 1),
        (6, 2, 1, 3),
        (3, 4, 3, 2),
        (4, 3, 0, 2),
        (7, 2, 1, 2),
    ];
    for (seed, &(m, k, o, b)) in cases.iter().enumerate() {
        let parameters = InputParameters::new_from_primitives(m, k, o, b);
        let mut rng = get_rng(Some(100 + seed as u64)).unwrap();
        let codomain = generate_random(&parameters, &mut rng);
        let tree = CliqueTree::new(parameters, CodomainFunction::Random, codomain, &mut rng).unwrap();
        let (best, optima) = optima_by_enumeration(&tree, size_of(&parameters));
        assert_eq!(tree.glob_optima_score, best);
        assert_eq!(sorted(tree.glob_optima_strings.clone()), optima);
    }
}

#[test]
fn stored_optima_are_the_optima_of_deceptive_traps() {
    let cases = [(3u32, 3u32, 1u32, 2u32), (5, 3, 1, 2), (4, 4, 2, 2), (5, 2, 1, 4), (3, 3, 0, 1)];
    for (seed, &(m, k, o, b)) in cases.iter().enumerate() {
        let parameters = InputParameters::new_from_primitives(m, k, o, b);
        let mut rng = get_rng(Some(200 + seed as u64)).unwrap();
        let codomain = generate_trap_general(&parameters, &mut rng);
        let tree = CliqueTree::new(parameters, CodomainFunction::DeceptiveTrap, codomain, &mut rng).unwrap();
        let (best, optima) = optima_by_enumeration(&tree, size_of(&parameters));
        assert_eq!(tree.glob_optima_score, best);
        assert_eq!(sorted(tree.glob_optima_strings.clone()), optima);
        let mut evaluations = 0;
        for optimum in tree.glob_optima_strings.iter() {
            assert_eq!(tree.calculate_fitness(optimum, &mut evaluations), tree.glob_optima_score);
        }
    }
}

#[test]
fn landscapes_with_many_ties() {
    // Tables with few different values have many optima.
    let cases = [(3u32, 2u32, 1u32, 2u32), (4, 2, 1, 1), (3, 3, 1, 2), (3, 2, 0, 1)];
    for (seed, &(m, k, o, b)) in cases.iter().enumerate() {
        let parameters = InputParameters::new_from_primitives(m, k, o, b);
        let mut rng = get_rng(Some(300 + seed as u64)).unwrap();
        let codomain: Vec<Vec<i64>> = generate_random(&parameters, &mut rng)
            .into_iter()
            .map(|table| table.into_iter().map(|value| (value % 2) * 1_000_000).collect())
            .collect();
        let tree = CliqueTree::new(parameters, CodomainFunction::Unknown, codomain, &mut rng).unwrap();
        let (best, optima) = optima_by_enumeration(&tree, size_of(&parameters));
        assert_eq!(tree.glob_optima_score, best);
        assert_eq!(sorted(tree.glob_optima_strings.clone()), optima);
    }
}

#[test]
fn all_equal_tables_make_every_assignment_optimal() {
    let parameters = InputParameters::new_from_primitives(3, 2, 1, 2);
    let mut rng = get_rng(Some(9)).unwrap();
    let tree = CliqueTree::new(parameters, CodomainFunction::Unknown, vec![vec![5; 4]; 3], &mut rng).unwrap();
    assert_eq!(tree.glob_optima_score, 15);
    assert_eq!(sorted(tree.glob_optima_strings.clone()), sorted(assignments(4)));
}

#[test]
fn elimination_and_separable_scores_agree_without_overlap() {
    for (seed, &(m, k)) in [(1u32, 1u32), (1, 3), (2, 2), (3, 3), (5, 2), (4, 3), (2, 4)].iter().enumerate() {
        for &b in [1u32, 2, 5].iter() {
            let parameters = InputParameters::new_from_primitives(m, k, 0, b);
            let mut rng = get_rng(Some(400 + seed as u64)).unwrap();
            let codomain = generate_random(&parameters, &mut rng);
            let (cliques, separators) = CliqueTree::construct(&parameters, &mut rng);
            let separable = CliqueTree::calculate_global_optimum_separable(&parameters, &codomain, &cliques);
            let eliminated =
                CliqueTree::calculate_global_optima_by_elimination(&parameters, &codomain, &cliques, &separators);
            assert_eq!(separable[0].1, eliminated[0].1);
            let expected: i128 = codomain.iter().map(|table| *table.iter().max().unwrap() as i128).sum();
            assert_eq!(separable[0].1, expected);
            let separable_strings: Vec<Vec<u32>> = separable.into_iter().map(|tuple| tuple.0).collect();
            let eliminated_strings: Vec<Vec<u32>> = eliminated.into_iter().map(|tuple| tuple.0).collect();
            assert_eq!(sorted(separable_strings), sorted(eliminated_strings));
        }
    }
}

#[test]
fn two_equal_maxima_give_two_optima() {
    let parameters = InputParameters::new_from_primitives(1, 3, 0, 1);
    let mut rng = get_rng(Some(21)).unwrap();
    let (cliques, separators) = CliqueTree::construct(&parameters, &mut rng);
    let table: Vec<i64> = vec![10, 700_000_000, 30, 40, 700_000_000, 60, 70, 80];
    let optima = CliqueTree::calculate_global_optima(
        &parameters,
        &CodomainFunction::Unknown,
        &[table.clone()],
        &cliques,
        &separators,
    );
    assert_eq!(optima.len(), 2);
    let tree = CliqueTree::new(parameters, CodomainFunction::Unknown, vec![table], &mut get_rng(Some(21)).unwrap()).unwrap();
    assert_eq!(tree.cliques, cliques);
    let mut evaluations = 0;
    for (solution, score) in optima.iter() {
        assert_eq!(*score, 700_000_000);
        assert_eq!(tree.calculate_fitness(solution, &mut evaluations), 700_000_000);
    }
    assert_ne!(optima[0].0, optima[1].0);
    // The optima are the assignments that give the clique the indices 1 and 4.
    let mut indices: Vec<u32> = optima
        .iter()
        .map(|(solution, _)| cliques[0].iter().fold(0, |index, &v| index * 2 + solution[v as usize]))
        .collect();
    indices.sort();
    assert_eq!(indices, vec![1, 4]);
}

#[test]
fn single_clique_is_a_table_scan() {
    let parameters = InputParameters::new_from_primitives(1, 2, 1, 3);
    let mut rng = get_rng(Some(33)).unwrap();
    let unit = 1_000_000_000_000_000;
    let tree = CliqueTree::new(
        parameters,
        CodomainFunction::Unknown,
        vec![vec![4 * unit, 9 * unit, 2 * unit, 7 * unit]],
        &mut rng,
    )
    .unwrap();
    assert_eq!(tree.glob_optima_score, 9 * unit as i128);
    assert_eq!(tree.glob_optima_strings.len(), 1);
    let optimum = &tree.glob_optima_strings[0];
    // Index 1: the first variable of the clique is 0, the second is 1.
    assert_eq!(optimum[tree.cliques[0][0] as usize], 0);
    assert_eq!(optimum[tree.cliques[0][1] as usize], 1);
}

#[test]
fn values_within_the_tolerance_count_as_ties() {
    // One clique, no overlap: the scan keeps what is within the tolerance of
    // the first value kept.
    let parameters = InputParameters::new_from_primitives(1, 2, 0, 1);
    let close = (FITNESS_EPSILON - 1) as i64;
    let mut rng = get_rng(Some(1)).unwrap();
    let tree = CliqueTree::new(
        parameters,
        CodomainFunction::Unknown,
        vec![vec![1_000_000, 1_000_000 + close, 0, 1_000_000 - close]],
        &mut rng,
    )
    .unwrap();
    assert_eq!(tree.glob_optima_score, 1_000_000);
    assert_eq!(tree.glob_optima_strings.len(), 3);

    let apart = FITNESS_EPSILON as i64;
    let tree = CliqueTree::new(
        parameters,
        CodomainFunction::Unknown,
        vec![vec![1_000_000, 1_000_000 + apart, 0, 1_000_000 + apart]],
        &mut rng,
    )
    .unwrap();
    assert_eq!(tree.glob_optima_score, 1_000_000 + apart as i128);
    assert_eq!(tree.glob_optima_strings.len(), 2);
}

#[test]
fn elimination_keeps_what_is_within_the_tolerance_of_the_last_kept() {
    // One clique with overlap parameter 1: the root is scanned by variable
    // elimination, which compares with the last value kept and reports the
    // first.
    let parameters = InputParameters::new_from_primitives(1, 2, 1, 1);
    let step = (FITNESS_EPSILON - 1) as i64;
    let mut rng = get_rng(Some(1)).unwrap();
    let tree = CliqueTree::new(
        parameters,
        CodomainFunction::Unknown,
        vec![vec![0, -step, -2 * step, -3 * step]],
        &mut rng,
    )
    .unwrap();
    assert_eq!(tree.glob_optima_score, 0);
    assert_eq!(tree.glob_optima_strings.len(), 4);
}

#[test]
fn is_global_optimum_checks_score_and_membership() {
    let parameters = InputParameters::new_from_primitives(1, 2, 1, 1);
    let mut rng = get_rng(Some(2)).unwrap();
    let tree =
        CliqueTree::new(parameters, CodomainFunction::Unknown, vec![vec![0, 5_000_000, 1, 2]], &mut rng).unwrap();
    let optimum = tree.glob_optima_strings[0].clone();
    let other: Vec<u32> = optimum.iter().map(|&bit| 1 - bit).collect();
    assert!(tree.is_global_optimum(&SolutionFit { solution: optimum.clone(), fitness: 5_000_000 }));
    // The same score makes any solution count.
    assert!(tree.is_global_optimum(&SolutionFit { solution: other.clone(), fitness: 5_000_000 }));
    // Within the tolerance, the solution has to be a stored optimum.
    assert!(tree.is_global_optimum(&SolutionFit { solution: optimum.clone(), fitness: 5_000_001 }));
    assert!(!tree.is_global_optimum(&SolutionFit { solution: other.clone(), fitness: 5_000_001 }));
    assert!(!tree.is_global_optimum(&SolutionFit {
        solution: optimum.clone(),
        fitness: 5_000_000 + FITNESS_EPSILON
    }));
    assert!(!tree.is_global_optimum(&SolutionFit { solution: optimum, fitness: 0 }));
}

#[test]
fn within_the_tolerance_the_two_scans_can_differ() {
    // The separable scan measures against the first value kept, variable
    // elimination against the last: values that climb in steps below the
    // tolerance are told apart by the one and taken for ties by the other.
    let parameters = InputParameters::new_from_primitives(1, 2, 0, 1);
    let mut rng = get_rng(Some(3)).unwrap();
    let (cliques, separators) = CliqueTree::construct(&parameters, &mut rng);
    let tables = vec![vec![0, 60_000, 120_000, 0]];
    let separable = CliqueTree::calculate_global_optimum_separable(&parameters, &tables, &cliques);
    let eliminated = CliqueTree::calculate_global_optima_by_elimination(&parameters, &tables, &cliques, &separators);
    assert_eq!(separable.len(), 1);
    assert_eq!(separable[0].1, 120_000);
    assert_eq!(eliminated.len(), 3);
    assert_eq!(eliminated[0].1, 0);
}

#[test]
fn a_value_close_to_two_maxima_is_kept_with_them() {
    let parameters = InputParameters::new_from_primitives(1, 2, 0, 1);
    let mut rng = get_rng(Some(3)).unwrap();
    let tree = CliqueTree::new(
        parameters,
        CodomainFunction::Unknown,
        vec![vec![100_000, 100_000, 50_000, 0]],
        &mut rng,
    )
    .unwrap();
    assert_eq!(tree.glob_optima_score, 100_000);
    assert_eq!(tree.glob_optima_strings.len(), 3);
    let tree = CliqueTree::new(
        parameters,
        CodomainFunction::Unknown,
        vec![vec![200_000, 200_000, 150_000, 0]],
        &mut rng,
    )
    .unwrap();
    assert_eq!(tree.glob_optima_score, 200_000);
    assert_eq!(tree.glob_optima_strings.len(), 3);
}

#[test]
fn two_maxima_come_in_the_order_of_their_indices() {
    let parameters = InputParameters::new_from_primitives(1, 2, 0, 1);
    let unit: i64 = 1_000_000_000_000_000;
    let optima = CliqueTree::calculate_global_optima(
        &parameters,
        &CodomainFunction::Unknown,
        &[vec![unit, 3 * unit, 3 * unit, 0]],
        &[vec![0, 1]],
        &[vec![]],
    );
    assert_eq!(optima, vec![(vec![0, 1], 3 * unit as i128), (vec![1, 0], 3 * unit as i128)]);
    let optima = CliqueTree::calculate_global_optima(
        &parameters,
        &CodomainFunction::Unknown,
        &[vec![unit, 3 * unit, 3 * unit, 0]],
        &[vec![1, 0]],
        &[vec![]],
    );
    assert_eq!(optima, vec![(vec![1, 0], 3 * unit as i128), (vec![0, 1], 3 * unit as i128)]);
}

#[test]
fn separable_optima_go_round_the_strings_for_every_kept_index() {
    // Two cliques of one variable, both with two best values: the strings so
    // far are repeated for each best index of the next clique.
    let parameters = InputParameters::new_from_primitives(2, 1, 0, 1);
    let optima = CliqueTree::calculate_global_optimum_separable(
        &parameters,
        &[vec![5, 5], vec![7, 7]],
        &[vec![0], vec![1]],
    );
    let strings: Vec<Vec<u32>> = optima.into_iter().map(|tuple| tuple.0).collect();
    assert_eq!(strings, vec![vec![0, 0], vec![1, 0], vec![0, 1], vec![1, 1]]);
}

#[test]
fn eliminated_optima_keep_single_values_in_place_and_append_copies() {
    // A chain of two cliques that share variable 1. The root keeps the
    // indices 1 and 2, so variable 1 is 1 or 0. Under variable 1 = 1 the child
    // keeps one value, under variable 1 = 0 it keeps two.
    let parameters = InputParameters::new_from_primitives(2, 2, 1, 1);
    let unit: i64 = 1_000_000_000_000_000;
    let optima = CliqueTree::calculate_global_optima_by_elimination(
        &parameters,
        &[vec![0, unit, unit, 0], vec![unit, unit, unit, 0]],
        &[vec![0, 1], vec![1, 2]],
        &[vec![], vec![1]],
    );
    let strings: Vec<Vec<u32>> = optima.into_iter().map(|tuple| tuple.0).collect();
    // After the root: 010, then 100. The first keeps its place with variable
    // 2 = 0; the second is replaced by its two copies at the end.
    assert_eq!(strings, vec![vec![0, 1, 0], vec![1, 0, 0], vec![1, 0, 1]]);
}

#[test]
fn place_of_a_separable_optimum_gives_its_kept_indices() {
    // Three cliques of one variable with 2, 1 and 2 kept indices: the string
    // at the place r gives clique i the kept index number (r / stride) % n.
    let parameters = InputParameters::new_from_primitives(3, 1, 0, 1);
    let optima = CliqueTree::calculate_global_optimum_separable(
        &parameters,
        &[vec![5, 5], vec![0, 900_000], vec![7, 7]],
        &[vec![2], vec![0], vec![1]],
    );
    let kept: Vec<Vec<u32>> = vec![vec![0, 1], vec![1], vec![0, 1]];
    let cliques = [2usize, 0, 1];
    assert_eq!(optima.len(), 4);
    for (r, (string, score)) in optima.iter().enumerate() {
        assert_eq!(*score, 5 + 900_000 + 7);
        let mut stride = 1;
        for i in 0..3 {
            assert_eq!(string[cliques[i]], kept[i][(r / stride) % kept[i].len()]);
            stride *= kept[i].len();
        }
    }
}
