use problem_generator::problem::clique_tree::{CliqueTree, ConstructionError, InputParameters, ParameterError};
use problem_generator::problem::codomain_subclasses::CodomainFunction;
use problem_generator::problem::configuration::get_rng;
use problem_generator::problem::parameter_text::{LineError, ParameterField};
use problem_generator::problem::text::Lines;

#[test]
fn valid_parameters_pass() {
    assert_eq!(InputParameters::new_from_primitives(5, 3, 1, 2).validate(), Ok(()));
    assert_eq!(InputParameters::new_from_primitives(1, 1, 0, 1).validate(), Ok(()));
    assert_eq!(InputParameters::new_from_primitives(1, 31, 30, u32::MAX).validate(), Ok(()));
    assert_eq!(InputParameters::new_from_primitives(5, 3, 1, 2).number_of_variables(), 11);
    assert_eq!(InputParameters::new_from_primitives(4, 3, 0, 2).number_of_variables(), 12);
    assert_eq!(InputParameters::new_from_primitives(1, 7, 6, 2).number_of_variables(), 7);
}

#[test]
fn each_defect_is_reported() {
    assert_eq!(InputParameters::new_from_primitives(0, 3, 1, 2).validate(), Err(ParameterError::NoCliques));
    assert_eq!(
        InputParameters::new_from_primitives(5, 0, 0, 2).validate(),
        Err(ParameterError::CliqueSizeOutOfRange)
    );
    assert_eq!(
        InputParameters::new_from_primitives(5, 32, 1, 2).validate(),
        Err(ParameterError::CliqueSizeOutOfRange)
    );
    assert_eq!(
        InputParameters::new_from_primitives(5, 3, 3, 2).validate(),
        Err(ParameterError::SeparatorTooLarge)
    );
    assert_eq!(InputParameters::new_from_primitives(5, 3, 1, 0).validate(), Err(ParameterError::NoBranches));
    assert_eq!(
        InputParameters::new_from_primitives(u32::MAX, 3, 1, 2).validate(),
        Err(ParameterError::TooManyVariables)
    );
    // The first defect in the order of the checks is the one reported.
    assert_eq!(InputParameters::new_from_primitives(0, 0, 5, 0).validate(), Err(ParameterError::NoCliques));
    assert_eq!(
        InputParameters::new_from_primitives(1, 40, 50, 0).validate(),
        Err(ParameterError::CliqueSizeOutOfRange)
    );
}

#[test]
fn largest_landscape_that_fits() {
    // (m - 1) * 1 + 2 = u32::MAX
    assert_eq!(InputParameters::new_from_primitives(u32::MAX - 1, 2, 1, 2).validate(), Ok(()));
    assert_eq!(
        InputParameters::new_from_primitives(u32::MAX, 2, 1, 2).validate(),
        Err(ParameterError::TooManyVariables)
    );
}

#[test]
fn new_tree_rejects_bad_input_before_building() {
    let mut rng = get_rng(Some(1)).unwrap();
    let bad = InputParameters::new_from_primitives(2, 2, 2, 1);
    assert_eq!(
        CliqueTree::new(bad, CodomainFunction::Unknown, vec![vec![0; 4]; 2], &mut rng).err(),
        Some(ConstructionError::Parameters(ParameterError::SeparatorTooLarge))
    );
    let good = InputParameters::new_from_primitives(2, 2, 1, 1);
    assert_eq!(
        CliqueTree::new(good, CodomainFunction::Unknown, vec![vec![0; 4]; 3], &mut rng).err(),
        Some(ConstructionError::WrongNumberOfTables)
    );
    assert_eq!(
        CliqueTree::new(good, CodomainFunction::Unknown, vec![vec![0; 4], vec![0; 3]], &mut rng).err(),
        Some(ConstructionError::WrongTableSize)
    );
    let tree = CliqueTree::new(good, CodomainFunction::Trap, vec![vec![0; 4], vec![0; 4]], &mut rng).unwrap();
    assert_eq!(tree.input_parameters, good);
    assert_eq!(tree.codomain_function, CodomainFunction::Trap);
    assert_eq!(tree.codomain_values, vec![vec![0; 4], vec![0; 4]]);
    // All tables are 0: every assignment is optimal.
    assert_eq!(tree.glob_optima_score, 0);
    assert_eq!(tree.glob_optima_strings.len(), 8);
}

fn arguments(values: &[&str]) -> Vec<String> {
    values.iter().map(|value| value.to_string()).collect()
}

#[test]
fn parameters_from_arguments() {
    assert_eq!(
        InputParameters::new(&arguments(&["program", "5", "3", "1", "2"])),
        Ok(InputParameters::new_from_primitives(5, 3, 1, 2))
    );
    assert_eq!(
        InputParameters::new(&arguments(&["program", "+5", "003", "1", "2", "file.txt"])),
        Ok(InputParameters::new_from_primitives(5, 3, 1, 2))
    );
    assert_eq!(InputParameters::new(&arguments(&["program", "5", "3", "1"])), Err("not enough arguments"));
    assert_eq!(InputParameters::new(&arguments(&[])), Err("not enough arguments"));
    assert_eq!(
        InputParameters::new(&arguments(&["program", "x", "y", "1", "2"])),
        Err("Could not parse M to u32")
    );
    assert_eq!(
        InputParameters::new(&arguments(&["program", "5", "-3", "1", "2"])),
        Err("Could not parse k to u32")
    );
    assert_eq!(
        InputParameters::new(&arguments(&["program", "5", "3", "", "2"])),
        Err("Could not parse o to u32")
    );
    assert_eq!(
        InputParameters::new(&arguments(&["program", "5", "3", "1", "4294967296"])),
        Err("Could not parse b to u32")
    );
    assert_eq!(
        InputParameters::new(&arguments(&["program", "5", "3", "1", "4294967295"])),
        Ok(InputParameters::new_from_primitives(5, 3, 1, u32::MAX))
    );
}

#[test]
fn parameters_from_a_line() {
    assert_eq!(InputParameters::from_line(b"5 3 1 2"), Ok(InputParameters::new_from_primitives(5, 3, 1, 2)));
    assert_eq!(InputParameters::from_line(b"5 3 1"), Err(LineError::WrongNumberOfParameters));
    assert_eq!(InputParameters::from_line(b"5 3 1 2 "), Err(LineError::WrongNumberOfParameters));
    assert_eq!(InputParameters::from_line(b"5  3 1 2"), Err(LineError::WrongNumberOfParameters));
    assert_eq!(InputParameters::from_line(b""), Err(LineError::WrongNumberOfParameters));
    assert_eq!(InputParameters::from_line(b"a 3 1 2"), Err(LineError::Unreadable(ParameterField::M)));
    assert_eq!(InputParameters::from_line(b"5 3.0 1 2"), Err(LineError::Unreadable(ParameterField::K)));
    assert_eq!(InputParameters::from_line(b"5 3 + 2"), Err(LineError::Unreadable(ParameterField::O)));
    assert_eq!(InputParameters::from_line(b"5 3 1 2x"), Err(LineError::Unreadable(ParameterField::B)));
    assert_eq!(InputParameters::from_line(b"   "), Err(LineError::Unreadable(ParameterField::M)));
}

#[test]
fn parameters_from_the_next_line() {
    let mut lines = Lines::new(b"deceptive-trap\r\n5 3 1 2\r\n1 2 3 four\n0.5\n".to_vec());
    assert_eq!(InputParameters::from_line_iterator(&mut lines), Err(LineError::WrongNumberOfParameters));
    assert_eq!(
        InputParameters::from_line_iterator(&mut lines),
        Ok(InputParameters::new_from_primitives(5, 3, 1, 2))
    );
    assert_eq!(
        InputParameters::from_line_iterator(&mut lines),
        Err(LineError::Unreadable(ParameterField::B))
    );
    assert_eq!(InputParameters::from_line_iterator(&mut lines), Err(LineError::WrongNumberOfParameters));
    assert_eq!(InputParameters::from_line_iterator(&mut lines), Err(LineError::MissingLine));
    assert_eq!(InputParameters::from_line_iterator(&mut lines), Err(LineError::MissingLine));
}

#[test]
fn parameters_write_their_line() {
    let mut buffer = b"x".to_vec();
    InputParameters::new_from_primitives(5, 30, 0, 4294967295).push_line(&mut buffer);
    assert_eq!(buffer, b"x5 30 0 4294967295".to_vec());
    assert_eq!(
        InputParameters::from_line(&buffer[1..]),
        Ok(InputParameters::new_from_primitives(5, 30, 0, 4294967295))
    );
}
