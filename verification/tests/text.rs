use problem_generator::problem::clique_tree::InputParameters;
use problem_generator::problem::codomain::{
    get_codomain_from_iterator, read_codomain, write_codomain, CodomainError,
};
use problem_generator::problem::codomain_subclasses::{generate_random, CodomainFunction};
use problem_generator::problem::configuration::get_rng;
use problem_generator::problem::fitness_text::{parse_fitness, push_fitness, push_total};
use problem_generator::problem::problem_generation::{push_bit_characters, push_spaced_numbers};
use problem_generator::problem::text::{
    copy_range, find_from, is_text, parse_i32, parse_u32, push_decimal, push_text, split, trim, Lines,
};

fn fitness_text(value: i64) -> String {
    let mut buffer = Vec::new();
    push_fitness(&mut buffer, value);
    String::from_utf8(buffer).unwrap()
}

fn total_text(value: i128) -> String {
    let mut buffer = Vec::new();
    push_total(&mut buffer, value);
    String::from_utf8(buffer).unwrap()
}

#[test]
fn unsigned_numbers_from_text() {
    assert_eq!(parse_u32(b"0"), Some(0));
    assert_eq!(parse_u32(b"42"), Some(42));
    assert_eq!(parse_u32(b"+42"), Some(42));
    assert_eq!(parse_u32(b"0042"), Some(42));
    assert_eq!(parse_u32(b"4294967295"), Some(u32::MAX));
    assert_eq!(parse_u32(b"4294967296"), None);
    assert_eq!(parse_u32(b"99999999999999999999999999"), None);
    assert_eq!(parse_u32(b""), None);
    assert_eq!(parse_u32(b"+"), None);
    assert_eq!(parse_u32(b"-1"), None);
    assert_eq!(parse_u32(b"++1"), None);
    assert_eq!(parse_u32(b"1+"), None);
    assert_eq!(parse_u32(b" 1"), None);
    assert_eq!(parse_u32(b"1 "), None);
    assert_eq!(parse_u32(b"12a"), None);
    assert_eq!(parse_u32(b"1.0"), None);
}

#[test]
fn unsigned_numbers_agree_with_the_standard_parser() {
    for text in ["0", "7", "+7", "-7", "007", "4294967295", "4294967296", "", "+", "x", "1_000", "١٢"] {
        assert_eq!(parse_u32(text.as_bytes()), text.parse::<u32>().ok());
    }
}

#[test]
fn decimal_digits_of_numbers() {
    for &(number, text) in [(0u128, "0"), (7, "7"), (10, "10"), (4294967295, "4294967295"), (1u128 << 100, "1267650600228229401496703205376")].iter() {
        let mut buffer = b"n=".to_vec();
        push_decimal(&mut buffer, number);
        assert_eq!(String::from_utf8(buffer).unwrap(), format!("n={}", text));
    }
    let mut buffer = Vec::new();
    push_decimal(&mut buffer, u128::MAX);
    assert_eq!(String::from_utf8(buffer).unwrap(), u128::MAX.to_string());
}

#[test]
fn text_is_appended_byte_by_byte() {
    let mut buffer = b"a".to_vec();
    push_text(&mut buffer, "bc-d");
    push_text(&mut buffer, "");
    assert_eq!(buffer, b"abc-d".to_vec());
}

#[test]
fn fitness_values_as_text() {
    assert_eq!(fitness_text(0), "0");
    assert_eq!(fitness_text(1_000_000_000_000_000), "1");
    assert_eq!(fitness_text(900_000_000_000_000), "0.9");
    assert_eq!(fitness_text(300_000_000_000_000), "0.3");
    assert_eq!(fitness_text(4_800_000_000_000_000), "4.8");
    assert_eq!(fitness_text(1), "0.000000000000001");
    assert_eq!(fitness_text(-1), "-0.000000000000001");
    assert_eq!(fitness_text(-2_500_000_000_000_000), "-2.5");
    assert_eq!(fitness_text(123_456_789_012_345_678), "123.456789012345678");
    assert_eq!(fitness_text(100_000_000_000_000_010), "100.00000000000001");
    assert_eq!(fitness_text(i64::MAX), "9223.372036854775807");
    assert_eq!(fitness_text(i64::MIN), "-9223.372036854775808");
    assert_eq!(total_text(4_800_000_000_000_000), "4.8");
    assert_eq!(total_text(i64::MAX as i128 * 4), "36893.488147419103228");
    assert_eq!(total_text(-(1i128 << 100)), "-1267650600228229.401496703205376");
    assert_eq!(total_text(i128::MAX), "170141183460469231731687.303715884105727");
}

#[test]
fn fitness_values_from_text() {
    assert_eq!(parse_fitness(b"0"), Some(0));
    assert_eq!(parse_fitness(b"-0"), Some(0));
    assert_eq!(parse_fitness(b"1"), Some(1_000_000_000_000_000));
    assert_eq!(parse_fitness(b"0.9"), Some(900_000_000_000_000));
    assert_eq!(parse_fitness(b"0.90"), Some(900_000_000_000_000));
    assert_eq!(parse_fitness(b"00.9"), Some(900_000_000_000_000));
    assert_eq!(parse_fitness(b"-2.5"), Some(-2_500_000_000_000_000));
    assert_eq!(parse_fitness(b"0.000000000000001"), Some(1));
    assert_eq!(parse_fitness(b"9223.372036854775807"), Some(i64::MAX));
    assert_eq!(parse_fitness(b"-9223.372036854775808"), Some(i64::MIN));
    assert_eq!(parse_fitness(b"9223.372036854775808"), None);
    assert_eq!(parse_fitness(b"-9223.372036854775809"), None);
    assert_eq!(parse_fitness(b"9224"), None);
    assert_eq!(parse_fitness(b"99999999999999999999"), None);
}

#[test]
fn digits_beyond_the_fifteenth_are_rounded() {
    assert_eq!(parse_fitness(b"0.30000000000000004"), Some(300_000_000_000_000));
    assert_eq!(parse_fitness(b"0.6000000000000001"), Some(600_000_000_000_000));
    assert_eq!(parse_fitness(b"0.0000000000000014"), Some(1));
    assert_eq!(parse_fitness(b"0.0000000000000015"), Some(2));
    assert_eq!(parse_fitness(b"0.00000000000000149999"), Some(1));
    assert_eq!(parse_fitness(b"0.9999999999999999"), Some(1_000_000_000_000_000));
    assert_eq!(parse_fitness(b"-0.9999999999999995"), Some(-1_000_000_000_000_000));
    assert_eq!(parse_fitness(b"9223.3720368547758074"), Some(i64::MAX));
    assert_eq!(parse_fitness(b"9223.3720368547758075"), None);
}

#[test]
fn what_is_no_fitness_value() {
    let texts = [
        "", "-", "+", ".", "-.", "1.2.3", "1,5", " 1", "1 ", "0x10", "inf", "-inf", "infinity", "NaN", "nan",
        "--1", "+-1", "1.-5", "1.5x", "0.1234567890123456x", "e5", ".e5", "1e", "1e+", "1e-", "1ee5",
        "1e5.0", "1e 5", "1e+-5", "1_000", "1e1e1",
    ];
    for text in texts {
        assert_eq!(parse_fitness(text.as_bytes()), None);
    }
}

#[test]
fn fitness_text_reads_back() {
    let mut values = vec![0, 1, -1, 9, 10, 999_999_999_999_999, 1_000_000_000_000_000, 1_000_000_000_000_001, i64::MAX, i64::MIN, i64::MIN + 1];
    let mut v: i64 = 1;
    for _ in 0..60 {
        v = v.wrapping_mul(6364136223846793005).wrapping_add(1442695040888963407);
        values.push(v);
        values.push(v % 2_000_000_000_000_000);
        values.push((v % 1000) * 10_000_000_000_000);
    }
    for value in values {
        assert_eq!(parse_fitness(fitness_text(value).as_bytes()), Some(value));
    }
}

#[test]
fn splitting_keeps_empty_parts() {
    assert_eq!(split(b"5 3 1 2", 32), vec![b"5".to_vec(), b"3".to_vec(), b"1".to_vec(), b"2".to_vec()]);
    assert_eq!(split(b"", 32), vec![Vec::<u8>::new()]);
    assert_eq!(split(b" ", 32), vec![Vec::<u8>::new(), Vec::new()]);
    assert_eq!(split(b"a  b ", 32), vec![b"a".to_vec(), Vec::new(), b"b".to_vec(), Vec::new()]);
    assert_eq!(split(b"a,b c", 44), vec![b"a".to_vec(), b"b c".to_vec()]);
}

#[test]
fn splitting_agrees_with_the_standard_split() {
    for text in ["", " ", "a", "a b", " a b ", "a  b", "nk-q 3", "  "] {
        let expected: Vec<Vec<u8>> = text.split(' ').map(|part| part.as_bytes().to_vec()).collect();
        assert_eq!(split(text.as_bytes(), 32), expected);
    }
}

fn all_lines(text: &str) -> Vec<String> {
    let mut lines = Lines::new(text.as_bytes().to_vec());
    let mut collected = Vec::new();
    while let Some(line) = lines.next() {
        collected.push(String::from_utf8(line).unwrap());
    }
    assert_eq!(lines.next(), None);
    collected
}

#[test]
fn lines_agree_with_the_standard_lines() {
    for text in ["", "\n", "a", "a\n", "a\nb", "a\r\nb\r\n", "a\rb\n", "\r\n\r\n", "a\n\nb\n", "a\r", "a\r\r\n", "\n\n\n", "x\r\n\ny"] {
        let expected: Vec<String> = text.lines().map(|line| line.to_string()).collect();
        assert_eq!(all_lines(text), expected);
    }
}

#[test]
fn value_tables_as_text() {
    let parameters = InputParameters::new_from_primitives(2, 1, 0, 1);
    let text = write_codomain(
        &parameters,
        &CodomainFunction::NKq { q: 3 },
        &[vec![0, 500_000_000_000_000], vec![1_000_000_000_000_000, -1]],
    );
    assert_eq!(String::from_utf8(text).unwrap(), "nk-q 3\n2 1 0 1\n0\n0.5\n1\n-0.000000000000001\n");
}

#[test]
fn value_tables_read_back() {
    for (seed, &(m, k)) in [(1u32, 0u32), (1, 3), (3, 2), (5, 4), (0, 3)].iter().enumerate() {
        let parameters = InputParameters::new_from_primitives(m, k, 0, 1);
        let mut rng = get_rng(Some(seed as u64)).unwrap();
        let mut codomain = generate_random(&parameters, &mut rng);
        if m > 0 {
            codomain[0][0] = i64::MIN;
            let last = codomain[0].len() - 1;
            codomain[0][last] = i64::MAX;
        }
        let text = write_codomain(&parameters, &CodomainFunction::Random, &codomain);
        assert_eq!(read_codomain(&parameters, text.clone(), 2), Ok(codomain.clone()));
        let mut lines = Lines::new(text);
        assert_eq!(lines.next(), Some(b"random".to_vec()));
        assert_eq!(InputParameters::from_line_iterator(&mut lines), Ok(parameters));
        assert_eq!(get_codomain_from_iterator(&mut lines, 0, &parameters), Ok(codomain));
        assert_eq!(lines.next(), None);
    }
}

#[test]
fn value_tables_from_a_file_of_floating_point_text() {
    let parameters = InputParameters::new_from_primitives(2, 1, 0, 1);
    let text = b"deceptive-trap\n2 1 0 1\n0.30000000000000004\n0.6000000000000001\n1\n0.9\nmore\n".to_vec();
    assert_eq!(
        read_codomain(&parameters, text, 2),
        Ok(vec![vec![300_000_000_000_000, 600_000_000_000_000], vec![1_000_000_000_000_000, 900_000_000_000_000]])
    );
}

#[test]
fn what_is_wrong_with_value_tables() {
    let parameters = InputParameters::new_from_primitives(2, 1, 0, 1);
    assert_eq!(read_codomain(&parameters, b"1\n2\n3\n".to_vec(), 0), Err(CodomainError::NotEnoughEntries));
    assert_eq!(read_codomain(&parameters, b"1\n2\n3\n4\n".to_vec(), 1), Err(CodomainError::NotEnoughEntries));
    assert_eq!(read_codomain(&parameters, b"".to_vec(), 7), Err(CodomainError::NotEnoughEntries));
    assert_eq!(
        read_codomain(&parameters, b"1\n2\nthree\n4\n".to_vec(), 0),
        Err(CodomainError::Unreadable { entry: 2 })
    );
    assert_eq!(
        read_codomain(&parameters, b"skipped\n1\n\n".to_vec(), 1),
        Err(CodomainError::Unreadable { entry: 1 })
    );
    // The first thing that is wrong is reported.
    assert_eq!(read_codomain(&parameters, b"x\n2\n".to_vec(), 0), Err(CodomainError::Unreadable { entry: 0 }));
    assert_eq!(read_codomain(&parameters, b"1\n2\n3\n4\n".to_vec(), 0), Ok(vec![vec![
        1_000_000_000_000_000,
        2_000_000_000_000_000
    ], vec![3_000_000_000_000_000, 4_000_000_000_000_000]]));
}

#[test]
fn signed_numbers_from_text() {
    assert_eq!(parse_i32(b"0"), Some(0));
    assert_eq!(parse_i32(b"-0"), Some(0));
    assert_eq!(parse_i32(b"+12"), Some(12));
    assert_eq!(parse_i32(b"-12"), Some(-12));
    assert_eq!(parse_i32(b"2147483647"), Some(i32::MAX));
    assert_eq!(parse_i32(b"2147483648"), None);
    assert_eq!(parse_i32(b"-2147483648"), Some(i32::MIN));
    assert_eq!(parse_i32(b"-2147483649"), None);
    for text in ["", "-", "+", "+-1", "1-", "1.0", " 1", "0x1"] {
        assert_eq!(parse_i32(text.as_bytes()), None);
    }
    for text in ["7", "-7", "+7", "007", "-2147483648", "2147483648", "", "-", "a"] {
        assert_eq!(parse_i32(text.as_bytes()), text.parse::<i32>().ok());
    }
}

#[test]
fn blanks_are_trimmed_at_both_ends() {
    assert_eq!(trim(b"  a b \t\r\n"), b"a b".to_vec());
    assert_eq!(trim(b"a"), b"a".to_vec());
    assert_eq!(trim(b""), Vec::<u8>::new());
    assert_eq!(trim(b" \t "), Vec::<u8>::new());
    assert_eq!(trim(b"\x0b\x0c-1"), b"-1".to_vec());
    for text in ["", " ", "a ", " a", " a b ", "\t1\n", "x"] {
        assert_eq!(trim(text.as_bytes()), text.trim().as_bytes().to_vec());
    }
}

#[test]
fn bytes_are_compared_with_text() {
    assert!(is_text(b"nk-q", "nk-q"));
    assert!(!is_text(b"nk-p", "nk-q"));
    assert!(!is_text(b"nk-", "nk-q"));
    assert!(!is_text(b"nk-qq", "nk-q"));
    assert!(is_text(b"", ""));
}

#[test]
fn finding_and_copying() {
    assert_eq!(find_from(b"a,b,c", 0, 44), 1);
    assert_eq!(find_from(b"a,b,c", 2, 44), 3);
    assert_eq!(find_from(b"a,b,c", 4, 44), 5);
    assert_eq!(find_from(b"a,b,c", 5, 44), 5);
    assert_eq!(copy_range(b"a,b,c", 2, 5), b"b,c".to_vec());
    assert_eq!(copy_range(b"a,b,c", 3, 3), Vec::<u8>::new());
}

#[test]
fn assignments_and_cliques_as_text() {
    let mut buffer = Vec::new();
    push_bit_characters(&mut buffer, &vec![0, 0, 0, 1, 0, 1, 1, 1, 1, 0, 0]);
    assert_eq!(buffer, b"00010111100".to_vec());
    push_bit_characters(&mut buffer, &vec![]);
    assert_eq!(buffer, b"00010111100".to_vec());
    let mut buffer = Vec::new();
    push_spaced_numbers(&mut buffer, &vec![9, 8, 10]);
    assert_eq!(buffer, b"9 8 10".to_vec());
    let mut buffer = Vec::new();
    push_spaced_numbers(&mut buffer, &vec![4294967295]);
    push_spaced_numbers(&mut buffer, &vec![]);
    assert_eq!(buffer, b"4294967295".to_vec());
}

#[test]
fn signs_and_bare_points_are_read() {
    let unit = 1_000_000_000_000_000;
    assert_eq!(parse_fitness(b"+1"), Some(unit));
    assert_eq!(parse_fitness(b"+1.5"), Some(unit + unit / 2));
    assert_eq!(parse_fitness(b"+0"), Some(0));
    assert_eq!(parse_fitness(b".5"), Some(unit / 2));
    assert_eq!(parse_fitness(b"-.5"), Some(-unit / 2));
    assert_eq!(parse_fitness(b"+.25"), Some(unit / 4));
    assert_eq!(parse_fitness(b"5."), Some(5 * unit));
    assert_eq!(parse_fitness(b"-5."), Some(-5 * unit));
    assert_eq!(parse_fitness(b"0."), Some(0));
    assert_eq!(parse_fitness(b".0"), Some(0));
}

#[test]
fn exponents_are_read() {
    let unit = 1_000_000_000_000_000;
    assert_eq!(parse_fitness(b"1e-05"), Some(10_000_000_000));
    assert_eq!(parse_fitness(b"1E-05"), Some(10_000_000_000));
    assert_eq!(parse_fitness(b"1e0"), Some(unit));
    assert_eq!(parse_fitness(b"1e-0"), Some(unit));
    assert_eq!(parse_fitness(b"1e+0"), Some(unit));
    assert_eq!(parse_fitness(b"1E3"), Some(1000 * unit));
    assert_eq!(parse_fitness(b"1.5e+2"), Some(150 * unit));
    assert_eq!(parse_fitness(b"-2.5e-1"), Some(-unit / 4));
    assert_eq!(parse_fitness(b"+.5e1"), Some(5 * unit));
    assert_eq!(parse_fitness(b"5.e-1"), Some(unit / 2));
    assert_eq!(parse_fitness(b"3.0000000000000003e-1"), Some(300_000_000_000_000));
    assert_eq!(parse_fitness(b"1e-15"), Some(1));
    assert_eq!(parse_fitness(b"1e-16"), Some(0));
    assert_eq!(parse_fitness(b"5e-16"), Some(1));
    assert_eq!(parse_fitness(b"4.9e-16"), Some(0));
    assert_eq!(parse_fitness(b"-5e-16"), Some(-1));
    assert_eq!(parse_fitness(b"12345e-20"), Some(0));
    assert_eq!(parse_fitness(b"12345e-19"), Some(1));
    assert_eq!(parse_fitness(b"0.00001e5"), Some(unit));
    assert_eq!(parse_fitness(b"100000e-5"), Some(unit));
}

#[test]
fn exponents_at_the_ends_of_the_range() {
    assert_eq!(parse_fitness(b"1e3"), Some(1_000_000_000_000_000_000));
    assert_eq!(parse_fitness(b"1e4"), None);
    assert_eq!(parse_fitness(b"9.223372036854775807e3"), Some(i64::MAX));
    assert_eq!(parse_fitness(b"9.223372036854775808e3"), None);
    assert_eq!(parse_fitness(b"-9.223372036854775808e3"), Some(i64::MIN));
    assert_eq!(parse_fitness(b"-9.223372036854775809e3"), None);
    assert_eq!(parse_fitness(b"9223372036854775807e-15"), Some(i64::MAX));
    assert_eq!(parse_fitness(b"0.9223372036854775807e4"), Some(i64::MAX));
    assert_eq!(parse_fitness(b"0.00000000000000000009223372036854775807e23"), Some(i64::MAX));
    assert_eq!(parse_fitness(b"92233720368547758070000e-19"), Some(i64::MAX));
    // Exponents of any length: the number is 0 or out of range.
    assert_eq!(parse_fitness(b"0e99999999999999999999999999999999999999999999"), Some(0));
    assert_eq!(parse_fitness(b"0.000e-99999999999999999999999999999999999999999"), Some(0));
    assert_eq!(parse_fitness(b"1e-99999999999999999999999999999999999999999999"), Some(0));
    assert_eq!(parse_fitness(b"-1e-340282366920938463463374607431768211456"), Some(0));
    assert_eq!(parse_fitness(b"1e99999999999999999999999999999999999999999999"), None);
    assert_eq!(parse_fitness(b"0.0000001e340282366920938463463374607431768211456"), None);
    assert_eq!(parse_fitness(b"1e0000000000000000000000000000000000000000000003"), Some(1_000_000_000_000_000_000));
}

#[test]
fn what_is_read_is_what_the_standard_reader_takes() {
    // Texts of numbers within the range: where the standard reader of
    // floating-point numbers takes a text, so does this one, and the values
    // agree to the last unit or so.
    let texts = [
        "0", "1", "-1", "+1", ".5", "5.", "-.5", "0.3", "0.30000000000000004", "1e-5", "1E-05", "2.5e2",
        "+7.25E+1", "1e-20", "123.456e-2", "", ".", "e", "1e", "+", "-", "1.2.3", "1e1.5", "0x1", "1,0",
        " 1", "١",
    ];
    for text in texts {
        let expected = text.parse::<f64>().ok();
        let read = parse_fitness(text.as_bytes());
        assert_eq!(read.is_some(), expected.is_some());
        if let (Some(units), Some(number)) = (read, expected) {
            assert!((units as f64 - number * 1e15).abs() <= 1.0);
        }
    }
}
