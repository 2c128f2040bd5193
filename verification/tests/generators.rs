use problem_generator::problem::clique_tree::InputParameters;
use problem_generator::problem::codomain::{generate_codomain, generate_write_return, read_codomain};
use problem_generator::problem::codomain_subclasses::{
    count_ones, deceptive_trap_clique, generate_nk_p, generate_nk_q, generate_random, generate_random_trap,
    generate_trap, generate_trap_general, get_hamming_distance_to_solution, get_random_solution,
    fitness_of_draws, holds_among_first, random_fitness, CodomainFunction,
};
use problem_generator::problem::clique_tree::get_possible_substrings;
use problem_generator::problem::configuration::get_rng;

const UNIT: i64 = 1_000_000_000_000_000;

#[test]
fn random_solutions_are_bit_strings() {
    let mut rng = get_rng(Some(4)).unwrap();
    let solution = get_random_solution(200, &mut rng);
    assert_eq!(solution.len(), 200);
    assert!(solution.iter().all(|&bit| bit <= 1));
    assert!(solution.contains(&0));
    assert!(solution.contains(&1));
    assert_eq!(get_random_solution(0, &mut rng), Vec::<u32>::new());
}

#[test]
fn random_fitness_lies_below_one() {
    let mut rng = get_rng(Some(8)).unwrap();
    let mut smallest = i64::MAX;
    let mut largest = i64::MIN;
    for _ in 0..2000 {
        let value = random_fitness(&mut rng);
        assert!(0 <= value && value < UNIT);
        smallest = smallest.min(value);
        largest = largest.max(value);
    }
    assert!(smallest < UNIT / 10);
    assert!(largest > UNIT / 10 * 9);
}

#[test]
fn hamming_distance_counts_differences() {
    assert_eq!(get_hamming_distance_to_solution(&vec![0, 1, 1, 0], &vec![0, 1, 1, 0]), 0);
    assert_eq!(get_hamming_distance_to_solution(&vec![0, 1, 1, 0], &vec![1, 0, 0, 1]), 4);
    assert_eq!(get_hamming_distance_to_solution(&vec![0, 1, 1, 0], &vec![0, 0, 1, 1]), 2);
    assert_eq!(get_hamming_distance_to_solution(&vec![], &vec![]), 0);
}

#[test]
fn ones_are_counted_among_the_lowest_digits() {
    assert_eq!(count_ones(3, 0b101), 2);
    assert_eq!(count_ones(2, 0b101), 1);
    assert_eq!(count_ones(0, 0b101), 0);
    assert_eq!(count_ones(32, u32::MAX), 32);
    assert_eq!(count_ones(31, u32::MAX), 31);
}

#[test]
fn deceptive_trap_of_three_variables() {
    let possible = get_possible_substrings(3);
    // Attractor 101: distance 0 at index 5, distance 3 at index 2.
    let table = deceptive_trap_clique(&vec![1, 0, 1], &possible);
    let low = 3 * UNIT / 10;
    let middle = 6 * UNIT / 10;
    let high = 9 * UNIT / 10;
    assert_eq!(table, vec![low, middle, UNIT, low, middle, high, low, middle]);
}

#[test]
fn deceptive_trap_of_seven_variables_rounds_the_step_down() {
    let possible = get_possible_substrings(7);
    let table = deceptive_trap_clique(&vec![0; 7], &possible);
    let step = 900_000_000_000_000 / 7;
    assert_eq!(step, 128_571_428_571_428);
    assert_eq!(table[0], 900_000_000_000_000);
    assert_eq!(table[1], 900_000_000_000_000 - step);
    assert_eq!(table[0b1111110], 900_000_000_000_000 - 6 * step);
    assert_eq!(table[0b1111111], UNIT);
}

#[test]
fn deceptive_trap_without_variables() {
    let table = deceptive_trap_clique(&vec![], &get_possible_substrings(0));
    assert_eq!(table, vec![UNIT]);
}

#[test]
fn deceptive_traps_have_one_optimum_and_one_attractor() {
    let parameters = InputParameters::new_from_primitives(6, 4, 1, 2);
    let codomain = generate_trap_general(&parameters, &mut get_rng(Some(3)).unwrap());
    assert_eq!(codomain.len(), 6);
    for table in codomain.iter() {
        assert_eq!(table.len(), 16);
        let optimum = table.iter().position(|&value| value == UNIT).unwrap();
        let attractor = table.iter().position(|&value| value == 9 * UNIT / 10).unwrap();
        assert_eq!(optimum ^ attractor, 0b1111);
        assert_eq!(table.iter().filter(|&&value| value == UNIT).count(), 1);
        for (index, &value) in table.iter().enumerate() {
            let distance = (index ^ attractor).count_ones() as i64;
            if distance < 4 {
                assert_eq!(value, 9 * UNIT / 10 - distance * (9 * UNIT / 10 / 4));
            }
        }
    }
}

#[test]
fn random_tables_have_values_below_one() {
    let parameters = InputParameters::new_from_primitives(4, 3, 1, 2);
    let codomain = generate_random(&parameters, &mut get_rng(Some(3)).unwrap());
    assert_eq!(codomain.len(), 4);
    for table in codomain.iter() {
        assert_eq!(table.len(), 8);
        assert!(table.iter().all(|&value| 0 <= value && value < UNIT));
    }
    assert_ne!(codomain[0], codomain[1]);
}

#[test]
fn trap_table_of_four_variables() {
    let parameters = InputParameters::new_from_primitives(3, 4, 1, 2);
    let codomain = generate_trap(&parameters, 2_500_000_000_000_000);
    assert_eq!(codomain.len(), 3);
    // k - d = 1.5, slope 0.5: 1.5, 1, 0.5, 0 for 0 to 3 ones, and 4 for 4 ones.
    for table in codomain.iter() {
        assert_eq!(table.len(), 16);
        for (index, &value) in table.iter().enumerate() {
            let expected = match (index as u32).count_ones() {
                0 => 3 * UNIT / 2,
                1 => UNIT,
                2 => UNIT / 2,
                3 => 0,
                _ => 4 * UNIT,
            };
            assert_eq!(value, expected);
        }
    }
}

#[test]
fn trap_table_with_a_negative_base() {
    let parameters = InputParameters::new_from_primitives(1, 2, 0, 1);
    // k - d = -0.5, slope -0.5: -0.5, 0 for 0 and 1 ones, and 2 for 2 ones.
    let codomain = generate_trap(&parameters, 2_500_000_000_000_000);
    assert_eq!(codomain, vec![vec![-UNIT / 2, 0, 0, 2 * UNIT]]);
    // The slope is rounded towards 0: (4 - (-0.000000000000001)) / 3.
    let parameters = InputParameters::new_from_primitives(1, 4, 0, 1);
    let codomain = generate_trap(&parameters, -1);
    assert_eq!(codomain[0][0], 4 * UNIT + 1);
    assert_eq!(codomain[0][1], 4 * UNIT + 1 - (4 * UNIT + 1) / 3);
    let codomain = generate_trap(&parameters, 4 * UNIT + 2);
    assert_eq!(codomain[0][0], -2);
    assert_eq!(codomain[0][1], -2);
    assert_eq!(codomain[0][0b0111], -2);
    assert_eq!(codomain[0][0b1111], 4 * UNIT);
}

#[test]
fn nk_q_tables_take_q_values() {
    let parameters = InputParameters::new_from_primitives(5, 4, 1, 2);
    let codomain = generate_nk_q(&parameters, 3, &mut get_rng(Some(12)).unwrap());
    assert_eq!(codomain.len(), 5);
    let mut seen = vec![false; 3];
    for table in codomain.iter() {
        assert_eq!(table.len(), 16);
        for &value in table.iter() {
            let step = [0, UNIT / 2, UNIT].iter().position(|&allowed| allowed == value).unwrap();
            seen[step] = true;
        }
    }
    assert_eq!(seen, vec![true, true, true]);
    let thirds = generate_nk_q(&parameters, 4, &mut get_rng(Some(12)).unwrap());
    assert!(thirds.iter().flatten().all(|&value| [0, UNIT / 3, 2 * UNIT / 3, UNIT].contains(&value)));
}

#[test]
fn nk_p_tables_have_their_part_of_zeros() {
    let parameters = InputParameters::new_from_primitives(6, 4, 1, 2);
    for &(p, zeros) in [(0i64, 0usize), (UNIT / 4, 4), (UNIT / 2, 8), (UNIT / 32, 1), (UNIT / 33, 0), (UNIT, 16)].iter() {
        let codomain = generate_nk_p(&parameters, p, &mut get_rng(Some(6)).unwrap());
        assert_eq!(codomain.len(), 6);
        for table in codomain.iter() {
            assert_eq!(table.len(), 16);
            assert!(table.iter().all(|&value| 0 <= value && value < UNIT));
            assert!(table.iter().filter(|&&value| value == 0).count() >= zeros);
            assert!(table.iter().filter(|&&value| value == 0).count() <= zeros + 1);
        }
    }
    let codomain = generate_nk_p(&parameters, UNIT / 4, &mut get_rng(Some(6)).unwrap());
    let places: Vec<Vec<usize>> = codomain
        .iter()
        .map(|table| (0..16).filter(|&index| table[index] == 0).collect())
        .collect();
    assert!(places.iter().any(|place| place != &places[0]));
}

#[test]
fn holds_among_first_looks_at_the_first_only() {
    assert!(holds_among_first(&vec![5, 3, 9], 2, 3));
    assert!(!holds_among_first(&vec![5, 3, 9], 2, 9));
    assert!(!holds_among_first(&vec![5, 3, 9], 0, 5));
    assert!(holds_among_first(&vec![5, 3, 9], 3, 9));
}

#[test]
fn random_trap_tables_are_traps_or_random() {
    let parameters = InputParameters::new_from_primitives(40, 3, 1, 2);
    let is_trap = |table: &Vec<i64>| table.contains(&UNIT);
    let all_traps = generate_random_trap(&parameters, UNIT, &mut get_rng(Some(1)).unwrap());
    assert!(all_traps.iter().all(is_trap));
    let none = generate_random_trap(&parameters, -1, &mut get_rng(Some(1)).unwrap());
    assert!(!none.iter().any(is_trap));
    let mixed = generate_random_trap(&parameters, UNIT / 2, &mut get_rng(Some(1)).unwrap());
    assert!(mixed.iter().any(is_trap));
    assert!(!mixed.iter().all(is_trap));
    assert!(mixed.iter().all(|table| table.len() == 8));
}

#[test]
fn generation_by_class() {
    let parameters = InputParameters::new_from_primitives(3, 3, 1, 2);
    let classes = [
        CodomainFunction::Random,
        CodomainFunction::Trap,
        CodomainFunction::DeceptiveTrap,
        CodomainFunction::NKq { q: 5 },
        CodomainFunction::NKp { p: UNIT / 2 },
        CodomainFunction::RandomDeceptiveTrap { p_deceptive: UNIT / 2 },
    ];
    for class in classes.iter() {
        let codomain = generate_codomain(&parameters, class, &mut get_rng(Some(10)).unwrap());
        assert_eq!(codomain.len(), 3);
        assert!(codomain.iter().all(|table| table.len() == 8));
        let (again, text) = generate_write_return(&parameters, class, &mut get_rng(Some(10)).unwrap());
        assert_eq!(again, codomain);
        assert_eq!(read_codomain(&parameters, text, 2), Ok(codomain));
    }
    assert_eq!(
        generate_codomain(&parameters, &CodomainFunction::Trap, &mut get_rng(Some(10)).unwrap()),
        generate_trap(&parameters, 2_500_000_000_000_000)
    );
    assert_eq!(
        generate_codomain(&parameters, &CodomainFunction::DeceptiveTrap, &mut get_rng(Some(10)).unwrap()),
        generate_trap_general(&parameters, &mut get_rng(Some(10)).unwrap())
    );
    assert_eq!(
        generate_codomain(&parameters, &CodomainFunction::Random, &mut get_rng(Some(10)).unwrap()),
        generate_random(&parameters, &mut get_rng(Some(10)).unwrap())
    );
}

#[test]
fn classes_have_names() {
    let classes = [
        (CodomainFunction::Random, "random", "random"),
        (CodomainFunction::Trap, "trap", "trap"),
        (CodomainFunction::DeceptiveTrap, "deceptive-trap", "deceptive-trap"),
        (CodomainFunction::NKq { q: 3 }, "nk-q-3", "nk-q 3"),
        (CodomainFunction::NKp { p: UNIT / 2 }, "nk-p-0.5", "nk-p 0.5"),
        (
            CodomainFunction::RandomDeceptiveTrap { p_deceptive: UNIT / 4 },
            "random-deceptive-trap-0.25",
            "random-deceptive-trap 0.25",
        ),
        (CodomainFunction::Unknown, "unknown", "unknown"),
    ];
    for (class, io_name, tag) in classes.iter() {
        assert_eq!(class.to_io_string(), *io_name);
        assert_eq!(class.to_string(), *tag);
        assert_eq!(CodomainFunction::from_tag(tag.as_bytes()), Some(*class));
    }
}

#[test]
fn what_names_no_class() {
    for tag in ["", "Random", "random ", " random", "random 1", "nk-q", "nk-q x", "nk-q 3 4", "nk-p", "nk-p 1e", "nk-q-3", "trap,random", "deceptive trap"] {
        assert_eq!(CodomainFunction::from_tag(tag.as_bytes()), None);
    }
    assert_eq!(CodomainFunction::from_tag(b"nk-q +07"), Some(CodomainFunction::NKq { q: 7 }));
    assert_eq!(CodomainFunction::from_tag(b"nk-p -0.5"), Some(CodomainFunction::NKp { p: -UNIT / 2 }));
    assert_eq!(CodomainFunction::from_tag(b"nk-p 1e-3"), Some(CodomainFunction::NKp { p: UNIT / 1000 }));
    assert_eq!(CodomainFunction::from_tag(b"nk-p +.5"), Some(CodomainFunction::NKp { p: UNIT / 2 }));
}

#[test]
fn fitness_is_made_of_two_draws() {
    assert_eq!(fitness_of_draws(0, 0), 0);
    assert_eq!(fitness_of_draws(0, 1), 1);
    assert_eq!(fitness_of_draws(1, 0), 1_000_000);
    assert_eq!(fitness_of_draws(300_000_000, 0), 3 * UNIT / 10);
    assert_eq!(fitness_of_draws(123_456_789, 12_345), 123_456_789_012_345);
    assert_eq!(fitness_of_draws(999_999_999, 999_999), UNIT - 1);
}

#[test]
fn trap_table_with_the_largest_parameters() {
    let parameters = InputParameters::new_from_primitives(1, 2, 0, 1);
    // k - d is as low as a table value can be.
    let codomain = generate_trap(&parameters, i64::MAX);
    let base = 2 * UNIT - i64::MAX;
    assert_eq!(codomain, vec![vec![base, 0, 0, 2 * UNIT]]);
    // k - d is as high as a table value can be.
    let codomain = generate_trap(&parameters, 2 * UNIT - i64::MAX);
    assert_eq!(codomain, vec![vec![i64::MAX, 0, 0, 2 * UNIT]]);
    let parameters = InputParameters::new_from_primitives(1, 12, 0, 1);
    let codomain = generate_trap(&parameters, 12 * UNIT - i64::MAX);
    assert_eq!(codomain[0][0], i64::MAX);
    assert_eq!(codomain[0][1], i64::MAX - i64::MAX / 11);
    assert_eq!(codomain[0][(1usize << 12) - 2], i64::MAX - 11 * (i64::MAX / 11));
    assert_eq!(codomain[0][(1usize << 12) - 1], 12 * UNIT);
}
