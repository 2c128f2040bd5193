use problem_generator::problem::bit_strings::{index_to_substring, power_of_two};
use problem_generator::problem::clique_tree::{
    get_possible_substrings, get_possible_substrings_iter, transform_substring_vector_to_index,
};

#[test]
fn possible_substrings_of_length_three() {
    let substrings = get_possible_substrings(3);
    assert_eq!(
        substrings,
        vec![
            vec![0, 0, 0],
            vec![0, 0, 1],
            vec![0, 1, 0],
            vec![0, 1, 1],
            vec![1, 0, 0],
            vec![1, 0, 1],
            vec![1, 1, 0],
            vec![1, 1, 1],
        ]
    );
}

#[test]
fn possible_substrings_of_length_zero() {
    let substrings = get_possible_substrings(0);
    assert_eq!(substrings, vec![Vec::<u32>::new()]);
}

#[test]
fn possible_substrings_iter_matches_vector() {
    let mut cursor = get_possible_substrings_iter(4);
    let all = get_possible_substrings(4);
    for expected in all.iter() {
        assert_eq!(cursor.next().as_ref(), Some(expected));
    }
    assert_eq!(cursor.next(), None);
    assert_eq!(cursor.next(), None);
}

#[test]
fn transform_reads_first_element_as_most_significant() {
    assert_eq!(transform_substring_vector_to_index(&[1, 0, 0]), 4);
    assert_eq!(transform_substring_vector_to_index(&[0, 0, 1]), 1);
    assert_eq!(transform_substring_vector_to_index(&[1, 0, 1, 1]), 11);
    assert_eq!(transform_substring_vector_to_index(&[]), 0);
    assert_eq!(transform_substring_vector_to_index(&[1; 32]), u32::MAX);
}

#[test]
fn transform_inverts_possible_substrings() {
    for length in 0..8u32 {
        let substrings = get_possible_substrings(length);
        assert_eq!(substrings.len(), 1usize << length);
        for (index, substring) in substrings.iter().enumerate() {
            assert_eq!(substring.len(), length as usize);
            assert_eq!(transform_substring_vector_to_index(substring), index as u32);
            assert_eq!(&index_to_substring(index as u32, length), substring);
        }
    }
}

#[test]
fn index_to_substring_keeps_lowest_digits() {
    assert_eq!(index_to_substring(0b1101, 2), vec![0, 1]);
    assert_eq!(index_to_substring(5, 5), vec![0, 0, 1, 0, 1]);
    assert_eq!(index_to_substring(u32::MAX, 32), vec![1; 32]);
}

#[test]
fn powers_of_two() {
    assert_eq!(power_of_two(0), 1);
    assert_eq!(power_of_two(10), 1024);
    assert_eq!(power_of_two(31), 1 << 31);
    assert_eq!(power_of_two(63), 1 << 63);
}
