use problem_generator::problem::clique_tree::{CliqueTree, InputParameters, SolutionFit};
use problem_generator::problem::codomain::{generate_write_return, read_codomain, write_codomain};
use problem_generator::problem::codomain_subclasses::{generate_trap_general, CodomainFunction};
use problem_generator::problem::configuration::{get_rng, ConfigurationParameters};

const THREE_TENTHS: i64 = 300_000_000_000_000;
const SIX_TENTHS: i64 = 600_000_000_000_000;
const NINE_TENTHS: i64 = 900_000_000_000_000;
const ONE: i64 = 1_000_000_000_000_000;

#[test]
fn deceptive_trap_generated() {
    let mut rng = get_rng(Some(2398)).unwrap();
    let parameters = InputParameters::new_from_primitives(5, 3, 1, 2);
    let codomain = generate_trap_general(&parameters, &mut rng);
    let codomain_expected = vec![
        vec![THREE_TENTHS, SIX_TENTHS, ONE, THREE_TENTHS, SIX_TENTHS, NINE_TENTHS, THREE_TENTHS, SIX_TENTHS],
        vec![SIX_TENTHS, THREE_TENTHS, NINE_TENTHS, SIX_TENTHS, THREE_TENTHS, ONE, SIX_TENTHS, THREE_TENTHS],
        vec![SIX_TENTHS, THREE_TENTHS, NINE_TENTHS, SIX_TENTHS, THREE_TENTHS, ONE, SIX_TENTHS, THREE_TENTHS],
        vec![THREE_TENTHS, SIX_TENTHS, ONE, THREE_TENTHS, SIX_TENTHS, NINE_TENTHS, THREE_TENTHS, SIX_TENTHS],
        vec![THREE_TENTHS, SIX_TENTHS, ONE, THREE_TENTHS, SIX_TENTHS, NINE_TENTHS, THREE_TENTHS, SIX_TENTHS],
    ];
    assert_eq!(codomain, codomain_expected);

    let tree = CliqueTree::new(parameters, CodomainFunction::DeceptiveTrap, codomain, &mut rng).unwrap();
    assert_eq!(
        tree.cliques,
        vec![vec![9, 8, 10], vec![9, 5, 4], vec![9, 7, 0], vec![4, 6, 1], vec![9, 3, 2]]
    );
    assert_eq!(tree.glob_optima_score, 4_800_000_000_000_000);
    assert_eq!(tree.glob_optima_strings, vec![vec![0, 0, 0, 1, 0, 1, 1, 1, 1, 0, 0]]);
}

#[test]
fn deceptive_trap_files() {
    // A configuration with one combination of parameters.
    let configuration =
        ConfigurationParameters::from_text(b"M 5 6\nk 3 4\no 1 2\nb 2 3\ndeceptive-trap\n".to_vec()).unwrap();
    let codomain_function = configuration.codomain_function;
    let mut parameters_iterator = configuration.into_iter();
    let parameters = parameters_iterator.next().unwrap();
    assert_eq!(parameters_iterator.next(), None);

    let mut rng = get_rng(Some(2398)).unwrap();
    let (codomain, codomain_text) = generate_write_return(&parameters, &codomain_function, &mut rng);
    let codomain_expected_output = "deceptive-trap
5 3 1 2
0.3
0.6
1
0.3
0.6
0.9
0.3
0.6
0.6
0.3
0.9
0.6
0.3
1
0.6
0.3
0.6
0.3
0.9
0.6
0.3
1
0.6
0.3
0.3
0.6
1
0.3
0.6
0.9
0.3
0.6
0.3
0.6
1
0.3
0.6
0.9
0.3
0.6
";
    assert_eq!(String::from_utf8(codomain_text.clone()).unwrap(), codomain_expected_output);
    assert_eq!(read_codomain(&parameters, codomain_text, 2), Ok(codomain.clone()));

    let tree = CliqueTree::new(parameters, codomain_function, codomain, &mut rng).unwrap();
    let problem_expected_output = "5 3 1 2
4.8
1
00010111100
9 8 10
9 5 4
9 7 0
4 6 1
9 3 2
";
    assert_eq!(String::from_utf8(tree.problem_text()).unwrap(), problem_expected_output);
}

#[test]
fn deceptive_trap_file_in_floating_point_text_reads_the_same() {
    let parameters = InputParameters::new_from_primitives(5, 3, 1, 2);
    let written = "deceptive-trap
5 3 1 2
0.30000000000000004
0.6000000000000001
1
0.30000000000000004
0.6000000000000001
0.9
0.30000000000000004
0.6000000000000001
0.6000000000000001
0.30000000000000004
0.9
0.6000000000000001
0.30000000000000004
1
0.6000000000000001
0.30000000000000004
0.6000000000000001
0.30000000000000004
0.9
0.6000000000000001
0.30000000000000004
1
0.6000000000000001
0.30000000000000004
0.30000000000000004
0.6000000000000001
1
0.30000000000000004
0.6000000000000001
0.9
0.30000000000000004
0.6000000000000001
0.30000000000000004
0.6000000000000001
1
0.30000000000000004
0.6000000000000001
0.9
0.30000000000000004
0.6000000000000001
";
    let mut rng = get_rng(Some(2398)).unwrap();
    let generated = generate_trap_general(&parameters, &mut rng);
    assert_eq!(read_codomain(&parameters, written.as_bytes().to_vec(), 2), Ok(generated.clone()));
    assert_eq!(
        read_codomain(
            &parameters,
            write_codomain(&parameters, &CodomainFunction::DeceptiveTrap, &generated),
            2
        ),
        Ok(generated)
    );
}

#[test]
fn deceptive_trap_optimum_is_recognised() {
    let mut rng = get_rng(Some(2398)).unwrap();
    let parameters = InputParameters::new_from_primitives(5, 3, 1, 2);
    let codomain = generate_trap_general(&parameters, &mut rng);
    let tree = CliqueTree::new(parameters, CodomainFunction::DeceptiveTrap, codomain, &mut rng).unwrap();
    let optimum = vec![0, 0, 0, 1, 0, 1, 1, 1, 1, 0, 0];
    let mut evaluations = 0;
    let fitness = tree.calculate_fitness(&optimum, &mut evaluations);
    assert_eq!(fitness, 4_800_000_000_000_000);
    assert!(tree.is_global_optimum(&SolutionFit { solution: optimum.clone(), fitness }));
    let mut best_neighbour = i128::MIN;
    for v in 0..11 {
        let after = tree.calculate_fitness_delta(&SolutionFit { solution: optimum.clone(), fitness }, &mut evaluations, v);
        assert!(after < fitness);
        assert!(!tree.is_global_optimum(&SolutionFit { solution: optimum.clone(), fitness: after }));
        best_neighbour = best_neighbour.max(after);
    }
    assert_eq!(evaluations, 12);
    assert!(best_neighbour < fitness);
}
