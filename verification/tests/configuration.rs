use problem_generator::problem::clique_tree::InputParameters;
use problem_generator::problem::codomain_subclasses::CodomainFunction;
use problem_generator::problem::configuration::{
    get_m_for_max_problem_size, get_m_for_min_problem_size, get_rng, read_range, ConfigurationError,
    ConfigurationParameters, ConfigurationParametersIterator,
};
use problem_generator::problem::codomain_subclasses::get_random_solution;

fn all_combinations(configuration: ConfigurationParameters) -> Vec<(u32, u32, u32, u32)> {
    let mut iterator = configuration.into_iter();
    let mut combinations = Vec::new();
    while let Some(parameters) = iterator.next() {
        combinations.push((parameters.m, parameters.k, parameters.o, parameters.b));
        assert!(combinations.len() < 1000);
    }
    assert_eq!(iterator.next(), None);
    combinations
}

#[test]
fn single_combination() {
    let configuration = ConfigurationParameters::new(5, 6, 3, 4, 1, 2, 2, 3, CodomainFunction::DeceptiveTrap);
    assert_eq!(all_combinations(configuration), vec![(5, 3, 1, 2)]);
}

#[test]
fn branches_change_fastest_and_cliques_slowest() {
    let configuration = ConfigurationParameters::new(1, 3, 4, 6, 1, 3, 2, 4, CodomainFunction::Random);
    let mut expected = Vec::new();
    for m in 1..3 {
        for k in 4..6 {
            for o in 1..3 {
                for b in 2..4 {
                    expected.push((m, k, o, b));
                }
            }
        }
    }
    assert_eq!(all_combinations(configuration), expected);
}

#[test]
fn empty_ranges_still_give_their_begin() {
    let configuration = ConfigurationParameters::new(2, 2, 3, 1, 1, 1, 4, 1, CodomainFunction::Trap);
    assert_eq!(all_combinations(configuration), vec![(2, 3, 1, 4)]);
}

#[test]
fn iterator_starts_before_the_first_combination() {
    let configuration = ConfigurationParameters::new(5, 6, 3, 4, 1, 2, 2, 3, CodomainFunction::NKq { q: 4 });
    let iterator = ConfigurationParametersIterator::from_configuration_parameters(&configuration);
    assert_eq!(iterator.current_parameters, InputParameters::new_from_primitives(0, 0, 0, 0));
    assert_eq!(iterator.m_begin, 5);
    assert_eq!(iterator.b_end, 3);
    assert_eq!(iterator.codomain_function, CodomainFunction::NKq { q: 4 });
    let mut direct = ConfigurationParametersIterator::new(5, 6, 3, 4, 1, 2, 2, 3, CodomainFunction::NKq { q: 4 });
    assert_eq!(direct.next(), Some(InputParameters::new_from_primitives(5, 3, 1, 2)));
    assert_eq!(direct.current_parameters, InputParameters::new_from_primitives(5, 3, 1, 2));
    assert_eq!(direct.next(), None);
    assert_eq!(direct.current_parameters, InputParameters::new_from_primitives(5, 3, 1, 2));
}

#[test]
fn cliques_for_a_least_problem_size() {
    // n = (m - 1)(k - o) + k; k = 3, o = 1: m = 1 gives 3, m = 2 gives 5, m = 3 gives 7.
    assert_eq!(get_m_for_min_problem_size(0, 3, 1), 1);
    assert_eq!(get_m_for_min_problem_size(3, 3, 1), 1);
    assert_eq!(get_m_for_min_problem_size(4, 3, 1), 2);
    assert_eq!(get_m_for_min_problem_size(5, 3, 1), 2);
    assert_eq!(get_m_for_min_problem_size(6, 3, 1), 3);
    assert_eq!(get_m_for_min_problem_size(7, 3, 1), 3);
    assert_eq!(get_m_for_min_problem_size(100, 5, 0), 20);
    assert_eq!(get_m_for_min_problem_size(101, 5, 0), 21);
    assert_eq!(get_m_for_min_problem_size(u32::MAX, 2, 1), u32::MAX - 1);
    for size in 0..60u32 {
        for &(k, o) in [(3u32, 1u32), (4, 0), (5, 4), (2, 1)].iter() {
            let m = get_m_for_min_problem_size(size, k, o);
            assert!(m >= 1);
            assert!((m - 1) * (k - o) + k >= size);
            assert!(m == 1 || (m - 2) * (k - o) + k < size);
        }
    }
}

#[test]
fn cliques_before_a_largest_problem_size() {
    assert_eq!(get_m_for_max_problem_size(1, 3, 1), 2);
    assert_eq!(get_m_for_max_problem_size(5, 3, 1), 2);
    assert_eq!(get_m_for_max_problem_size(6, 3, 1), 3);
    assert_eq!(get_m_for_max_problem_size(7, 3, 1), 3);
    assert_eq!(get_m_for_max_problem_size(8, 3, 1), 4);
    assert_eq!(get_m_for_max_problem_size(100, 5, 0), 20);
    assert_eq!(get_m_for_max_problem_size(0, 5, 0), 2);
}

#[test]
fn seeded_generators_repeat() {
    let first = get_random_solution(64, &mut get_rng(Some(5)).unwrap());
    let second = get_random_solution(64, &mut get_rng(Some(5)).unwrap());
    let other = get_random_solution(64, &mut get_rng(Some(6)).unwrap());
    assert_eq!(first, second);
    assert_ne!(first, other);
    assert!(get_rng(Some(0)).is_some());
    assert!(get_rng(Some(u64::MAX)).is_some());
    // Without a seed there is a generator where the system provides randomness.
    if let Some(mut unseeded) = get_rng(None) {
        assert_eq!(get_random_solution(64, &mut unseeded).len(), 64);
    }
}

fn configuration_from(text: &str) -> Result<(u32, u32, u32, u32, u32, u32, u32, u32, CodomainFunction), ConfigurationError> {
    ConfigurationParameters::from_text(text.as_bytes().to_vec()).map(|c| {
        (c.m_begin, c.m_end, c.k_begin, c.k_end, c.o_begin, c.o_end, c.b_begin, c.b_end, c.codomain_function)
    })
}

#[test]
fn configuration_with_numbers_of_cliques() {
    assert_eq!(
        configuration_from("M 5 6\nk 3 4\no 1 2\nb 2 3\ndeceptive-trap\n"),
        Ok((5, 6, 3, 4, 1, 2, 2, 3, CodomainFunction::DeceptiveTrap))
    );
    assert_eq!(
        configuration_from("M 1 50 extra\r\nk 2 7\r\no 0  3 \r\nb 1 4\r\nnk-q 5"),
        Err(ConfigurationError::Unreadable { line: 2 })
    );
    assert_eq!(
        configuration_from("M 1 50 extra\r\nk 2 7\r\no 0 +3\r\nb 1 4\r\nnk-q 5"),
        Ok((1, 50, 2, 7, 0, 3, 1, 4, CodomainFunction::NKq { q: 5 }))
    );
    assert_eq!(
        configuration_from("M 1 2\nk 2 3\no 0 -1\nb 1 2\nnk-p 0.25\n"),
        Ok((1, 2, 2, 3, 0, u32::MAX, 1, 2, CodomainFunction::NKp { p: 250_000_000_000_000 }))
    );
    assert_eq!(
        configuration_from("M 1 2\nk 2 3\no 0 1\t\nb 1 2\nrandom-deceptive-trap 0.5\n"),
        Ok((1, 2, 2, 3, 0, 1, 1, 2, CodomainFunction::RandomDeceptiveTrap { p_deceptive: 500_000_000_000_000 }))
    );
}

#[test]
fn configuration_with_problem_sizes() {
    // k = 3, o = 1: sizes from 6 up to, but not including, 12 are those of 3, 4 and 5 cliques.
    assert_eq!(
        configuration_from("N 6 12\nk 3 4\no 1 2\nb 2 3\nrandom\n"),
        Ok((3, 6, 3, 4, 1, 2, 2, 3, CodomainFunction::Random))
    );
    assert_eq!(
        configuration_from("N 6 12\nk 3 5\no 1 2\nb 2 3\nrandom\n"),
        Err(ConfigurationError::SizeNeedsFixedCliques)
    );
    assert_eq!(
        configuration_from("N 6 12\nk 3 4\no 1 0\nb 2 3\nrandom\n"),
        Err(ConfigurationError::SizeNeedsFixedCliques)
    );
    assert_eq!(
        configuration_from("N 6 12\nk 3 4\no 3 4\nb 2 3\nrandom\n"),
        Err(ConfigurationError::SizeOutOfReach)
    );
    assert_eq!(
        configuration_from("N 0 1\nk 3 4\no 2 3\nb 2 3\nrandom\n"),
        Err(ConfigurationError::SizeOutOfReach)
    );
}

#[test]
fn what_is_wrong_with_a_configuration() {
    assert_eq!(configuration_from(""), Err(ConfigurationError::MissingLine));
    assert_eq!(configuration_from("M 5 6\nk 3 4\no 1 2\n"), Err(ConfigurationError::MissingLine));
    assert_eq!(configuration_from("M 5 6\nk 3 4\no 1 2\nb 2 3\n"), Err(ConfigurationError::MissingLine));
    assert_eq!(
        configuration_from("M 5\nk 3 4\no 1 2\nb 2 3\ntrap\n"),
        Err(ConfigurationError::MissingField { line: 0 })
    );
    assert_eq!(
        configuration_from("M 5 6\nk 3 4\no 1 2\nb\ntrap\n"),
        Err(ConfigurationError::MissingField { line: 3 })
    );
    assert_eq!(
        configuration_from("M 5 x\nk 3 4\no 1 2\nb 2 3\ntrap\n"),
        Err(ConfigurationError::Unreadable { line: 0 })
    );
    assert_eq!(
        configuration_from("M 5 6\nk 3 4 \no 1 2\nb 2 3\ntrap\n"),
        Ok((5, 6, 3, 4, 1, 2, 2, 3, CodomainFunction::Trap))
    );
    assert_eq!(
        configuration_from("M 5 6\nk three 4\no 1 2\nb 2 3\ntrap\n"),
        Err(ConfigurationError::Unreadable { line: 1 })
    );
    assert_eq!(
        configuration_from("X 5 6\nk 3 4\no 1 2\nb 2 3\ntrap\n"),
        Err(ConfigurationError::UnknownLetter)
    );
    assert_eq!(
        configuration_from("M 5 6\nk 3 4\no 1 2\nb 2 3\ntrap,random\n"),
        Err(ConfigurationError::SeveralClasses)
    );
    assert_eq!(
        configuration_from("M 5 6\nk 3 4\no 1 2\nb 2 3\nnk-q\n"),
        Err(ConfigurationError::UnknownClass)
    );
    assert_eq!(
        configuration_from("M 5 6\nk 3 4\no 1 2\nb 2 3\ntrap 2\n"),
        Err(ConfigurationError::UnknownClass)
    );
    // The first thing that is wrong is reported.
    assert_eq!(
        configuration_from("X 5 6\nk\no 1 2\nb 2 3\nnothing\n"),
        Err(ConfigurationError::MissingField { line: 1 })
    );
}

#[test]
fn ranges_on_a_line() {
    assert_eq!(read_range(b"k 3 4", false, 1), Ok((b"k".to_vec(), 3, 4)));
    assert_eq!(read_range(b"o 3 \t-2\r", true, 2), Ok((b"o".to_vec(), 3, u32::MAX - 1)));
    assert_eq!(read_range(b"o 3 -2", false, 2), Err(ConfigurationError::Unreadable { line: 2 }));
    assert_eq!(read_range(b" 3 4", false, 7), Ok((Vec::new(), 3, 4)));
    assert_eq!(read_range(b"3 4", false, 7), Err(ConfigurationError::MissingField { line: 7 }));
}
