use problem_generator::problem::clique_tree::{CliqueTree, InputParameters};
use problem_generator::problem::configuration::get_rng;
use problem_generator::problem::construction::{child_clique, take_prefix};

fn check_tree(parameters: &InputParameters, cliques: &Vec<Vec<u32>>, separators: &Vec<Vec<u32>>) {
    let m = parameters.m as usize;
    let k = parameters.k as usize;
    let o = parameters.o as usize;
    let branches = if o == 0 { 1 } else { parameters.b as usize };
    let size = (m - 1) * (k - o) + k;
    assert_eq!(cliques.len(), m);
    assert_eq!(separators.len(), m);
    assert!(separators[0].is_empty());
    let mut owners = vec![0usize; size];
    for (i, clique) in cliques.iter().enumerate() {
        assert_eq!(clique.len(), k);
        for (j, &variable) in clique.iter().enumerate() {
            assert!((variable as usize) < size);
            assert_eq!(clique.iter().filter(|&&other| other == variable).count(), 1);
            if i == 0 || j >= o {
                owners[variable as usize] += 1;
            }
        }
        if i > 0 {
            assert_eq!(separators[i].len(), o);
            assert_eq!(&clique[..o], &separators[i][..]);
            let parent = (i - 1) / branches;
            for variable in separators[i].iter() {
                assert!(cliques[parent].contains(variable));
            }
        }
    }
    assert!(owners.iter().all(|&count| count == 1));
}

#[test]
fn constructed_trees_are_tree_decompositions() {
    let cases = [
        (1u32, 1u32, 0u32, 1u32),
        (1, 4, 3, 2),
        (5, 3, 1, 2),
        (7, 4, 2, 3),
        (10, 2, 1, 1),
        (6, 3, 0, 4),
        (9, 5, 4, 2),
        (12, 3, 2, 100),
    ];
    for (seed, &(m, k, o, b)) in cases.iter().enumerate() {
        let parameters = InputParameters::new_from_primitives(m, k, o, b);
        let mut rng = get_rng(Some(seed as u64)).unwrap();
        let (cliques, separators) = CliqueTree::construct(&parameters, &mut rng);
        check_tree(&parameters, &cliques, &separators);
    }
}

#[test]
fn construction_repeats_for_a_seed() {
    let parameters = InputParameters::new_from_primitives(8, 4, 2, 2);
    let first = CliqueTree::construct(&parameters, &mut get_rng(Some(77)).unwrap());
    let second = CliqueTree::construct(&parameters, &mut get_rng(Some(77)).unwrap());
    let other = CliqueTree::construct(&parameters, &mut get_rng(Some(78)).unwrap());
    assert_eq!(first, second);
    assert_ne!(first, other);
}

#[test]
fn construction_shuffles_the_variables() {
    let parameters = InputParameters::new_from_primitives(20, 5, 2, 2);
    let (cliques, _) = CliqueTree::construct(&parameters, &mut get_rng(Some(5)).unwrap());
    let in_order: Vec<u32> = (0..5).collect();
    assert_ne!(cliques[0], in_order);
}

#[test]
fn separable_trees_have_disjoint_cliques() {
    let parameters = InputParameters::new_from_primitives(5, 3, 0, 7);
    let (cliques, separators) = CliqueTree::construct(&parameters, &mut get_rng(Some(11)).unwrap());
    let mut seen = vec![false; 15];
    for clique in cliques.iter() {
        for &variable in clique.iter() {
            assert!(!seen[variable as usize]);
            seen[variable as usize] = true;
        }
    }
    assert!(seen.iter().all(|&s| s));
    assert!(separators.iter().all(|separator| separator.is_empty()));
}

#[test]
fn prefix_and_child_clique() {
    assert_eq!(take_prefix(&vec![5, 6, 7], 2), vec![5, 6]);
    assert_eq!(take_prefix(&vec![5, 6, 7], 0), Vec::<u32>::new());
    let (clique, separator) = child_clique(&vec![8, 3, 1], &vec![10, 11, 12, 13, 14], 2, 3, 1);
    assert_eq!(separator, vec![8]);
    assert_eq!(clique, vec![8, 12, 13]);
    let (clique, separator) = child_clique(&vec![8, 3, 1], &vec![10, 11, 12, 13, 14], 3, 2, 0);
    assert_eq!(separator, Vec::<u32>::new());
    assert_eq!(clique, vec![13, 14]);
}
