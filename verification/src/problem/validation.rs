//! Checks of what the solver and the evaluation ask of their inputs.

use vstd::prelude::*;
use vstd::arithmetic::power2::{pow2, lemma_pow2_strictly_increases, lemma2_to64};
use crate::problem::bit_strings::power_of_two;
use crate::problem::clique_tree::{check_table_sizes, CliqueTree, InputParameters};
use crate::problem::elimination::solvable;
use crate::problem::evaluation::find_variable;
use crate::problem::fitness::FITNESS_EPSILON;
use crate::problem::landscape::{
    cliques_distinct, cliques_shaped, has_owner, is_child, is_private, landscape_of,
    lemma_parent_unique, privates_cover, privates_injective, rows, separators_in_parents,
    separators_match, shared_count, tree_formed,
};

verus! {

/// Whether the vector holds no value twice.
pub fn has_no_duplicates(values: &Vec<u32>) -> (distinct: bool)
    ensures
        distinct == values@.no_duplicates(),
{
    let mut a: usize = 0;
    while a < values.len()
        invariant
            a <= values@.len(),
            forall|x: int, y: int| 0 <= x < a && 0 <= y < values@.len() && x != y ==> values@[x] != values@[y],
        decreases values@.len() - a,
    {
        let mut b: usize = a + 1;
        while b < values.len()
            invariant
                a < b <= values@.len(),
                forall|y: int| a < y < b ==> values@[a as int] != values@[y],
            decreases values@.len() - b,
        {
            if values[a] == values[b] {
                return false;
            }
            b = b + 1;
        }
        a = a + 1;
    }
    true
}

/// Whether there are `m` cliques of `k` distinct variables each, all below
/// the number of variables.
pub fn check_cliques_shape(input_parameters: &InputParameters, cliques: &[Vec<u32>]) -> (shaped: bool)
    requires
        input_parameters.valid(),
    ensures
        shaped == (cliques_shaped(*input_parameters, rows(cliques@)) && cliques_distinct(rows(cliques@))),
{
    let ghost p = *input_parameters;
    let ghost cs = rows(cliques@);
    if cliques.len() != input_parameters.m as usize {
        return false;
    }
    let size: u32 = input_parameters.number_of_variables();
    let k: usize = input_parameters.k as usize;
    let mut i: usize = 0;
    while i < cliques.len()
        invariant
            p == *input_parameters,
            cs == rows(cliques@),
            cliques@.len() == p.m,
            size == p.problem_size(),
            k == p.k,
            i <= cliques@.len(),
            forall|e: int| 0 <= e < i ==> (#[trigger] cs[e]).len() == p.k,
            forall|e: int, j: int| 0 <= e < i && 0 <= j < p.k ==> (#[trigger] cs[e][j]) < p.problem_size(),
            forall|e: int| 0 <= e < i ==> (#[trigger] cs[e]).no_duplicates(),
        decreases cliques@.len() - i,
    {
        let clique = &cliques[i];
        proof {
            assert(cs[i as int] == clique@);
        }
        if clique.len() != k {
            return false;
        }
        let mut j: usize = 0;
        while j < k
            invariant
                j <= k == clique@.len(),
                p == *input_parameters,
                cs == rows(cliques@),
                cs[i as int] == clique@,
                i < cliques@.len() == p.m,
                k == p.k,
                size == p.problem_size(),
                forall|e: int| 0 <= e < j ==> clique@[e] < size,
            decreases k - j,
        {
            if clique[j] >= size {
                proof {
                    assert(cs[i as int][j as int] >= p.problem_size());
                }
                return false;
            }
            j = j + 1;
        }
        if !has_no_duplicates(clique) {
            return false;
        }
        i = i + 1;
    }
    true
}

impl CliqueTree {
    /// Whether the tree has what the evaluation of solutions asks for:
    /// valid parameters, and cliques and tables of the shape that they
    /// prescribe, with no variable twice in a clique.
    pub fn check_shape(&self) -> (shaped: bool)
        ensures
            shaped == (self.landscape().shaped() && self.landscape().cliques_distinct()),
    {
        if self.input_parameters.validate().is_err() {
            return false;
        }
        if !check_cliques_shape(&self.input_parameters, self.cliques.as_slice()) {
            return false;
        }
        if self.codomain_values.len() != self.input_parameters.m as usize {
            return false;
        }
        let table_size: usize = power_of_two(self.input_parameters.k) as usize;
        proof {
            lemma2_to64();
            lemma_pow2_strictly_increases(self.input_parameters.k as nat, 32);
        }
        let sized = check_table_sizes(&self.codomain_values, table_size);
        proof {
            let ls = self.landscape();
            if sized {
                assert forall|i: int| 0 <= i < ls.m() implies (#[trigger] ls.tables[i]).len() == pow2(
                    ls.k() as nat,
                ) by {
                    assert(self.codomain_values@[i]@.len() == table_size);
                }
            } else {
                let i = choose|i: int|
                    0 <= i < self.codomain_values@.len() && (#[trigger] self.codomain_values@[i])@.len()
                        != table_size;
                assert(ls.tables[i].len() != pow2(ls.k() as nat));
            }
        }
        sized
    }
}

/// Every private position before the position `(i, j)`, in the order of
/// the cliques and of their positions, has its variable marked, and no two of
/// them hold the same variable.
pub open spec fn marked_before(
    p: InputParameters,
    cliques: Seq<Seq<u32>>,
    seen: Seq<bool>,
    i: int,
    j: int,
) -> bool {
    &&& forall|a: int, b: int|
        #![trigger cliques[a][b]]
        is_private(p, a, b) && (a < i || (a == i && b < j)) ==> seen[cliques[a][b] as int]
    &&& forall|v: int|
        0 <= v < seen.len() && seen[v] ==> exists|a: int, b: int|
            is_private(p, a, b) && (a < i || (a == i && b < j)) && #[trigger] cliques[a][b] == v
    &&& forall|a1: int, b1: int, a2: int, b2: int|
        #![trigger cliques[a1][b1], cliques[a2][b2]]
        is_private(p, a1, b1) && (a1 < i || (a1 == i && b1 < j)) && is_private(p, a2, b2) && (a2 < i || (a2
            == i && b2 < j)) && cliques[a1][b1] == cliques[a2][b2] ==> a1 == a2 && b1 == b2
}

/// Whether the cliques form a tree decomposition for the parameters: each
/// clique holds `k` distinct variables, the first `o` of a clique other than
/// the root occur in its parent, and every variable is private to exactly one
/// clique.
pub fn check_tree(input_parameters: &InputParameters, cliques: &[Vec<u32>]) -> (formed: bool)
    ensures
        formed == tree_formed(*input_parameters, rows(cliques@)),
{
    let ghost p = *input_parameters;
    let ghost cs = rows(cliques@);
    if input_parameters.validate().is_err() {
        return false;
    }
    if !check_cliques_shape(input_parameters, cliques) {
        return false;
    }
    let m: usize = input_parameters.m as usize;
    let k: usize = input_parameters.k as usize;
    let o: usize = input_parameters.o as usize;
    let b: usize = if input_parameters.o == 0 {
        1
    } else {
        input_parameters.b as usize
    };
    let size: u32 = input_parameters.number_of_variables();

    // The shared variables of every clique occur in its parent.
    let mut c: usize = 1;
    while c < m
        invariant
            p == *input_parameters,
            cs == rows(cliques@),
            p.valid(),
            cliques_shaped(p, cs),
            m == p.m,
            k == p.k,
            o == p.o,
            b == p.branching(),
            cliques@.len() == m,
            1 <= c,
            forall|i: int, e: int, j: int|
                #![trigger is_child(p, i, e), cs[e][j]]
                is_child(p, i, e) && e < c && 0 <= j < p.o ==> cs[i].contains(cs[e][j]),
        decreases m - c,
    {
        let parent: usize = (c - 1) / b;
        proof {
            vstd::arithmetic::div_mod::lemma_fundamental_div_mod(c - 1, b as int);
            vstd::arithmetic::div_mod::lemma_mod_bound(c - 1, b as int);
            assert(b * parent == parent * b) by (nonlinear_arith);
            assert(is_child(p, parent as int, c as int));
            assert(parent < c) by (nonlinear_arith)
                requires
                    b >= 1,
                    b * parent + 1 <= c,
            ;
            assert(cs[parent as int] == cliques@[parent as int]@);
            assert(cs[c as int] == cliques@[c as int]@);
            assert(cs[c as int].len() == p.k);
        }
        let mut j: usize = 0;
        while j < o
            invariant
                j <= o,
                o == p.o,
                p == *input_parameters,
                p.valid(),
                o < cliques@[c as int]@.len(),
                c < cliques@.len() == p.m,
                parent < cliques@.len(),
                is_child(p, parent as int, c as int),
                cs == rows(cliques@),
                forall|e: int| 0 <= e < j ==> cliques@[parent as int]@.contains(cliques@[c as int]@[e]),
            decreases o - j,
        {
            match find_variable(&cliques[parent], cliques[c][j]) {
                Some(_) => {},
                None => {
                    proof {
                        assert(cs[parent as int] == cliques@[parent as int]@);
                        assert(cs[c as int][j as int] == cliques@[c as int]@[j as int]);
                        assert(!cs[parent as int].contains(cs[c as int][j as int]));
                        assert(!separators_in_parents(p, cs));
                    }
                    return false;
                },
            }
            j = j + 1;
        }
        proof {
            assert forall|i: int, e: int, j: int|
                #![trigger is_child(p, i, e), cs[e][j]]
                is_child(p, i, e) && e < c + 1 && 0 <= j < p.o implies cs[i].contains(cs[e][j]) by {
                if e == c {
                    lemma_parent_unique(p, i, parent as int, e);
                    assert(cliques@[parent as int]@.contains(cliques@[c as int]@[j]));
                }
            }
        }
        c = c + 1;
    }
    proof {
        assert(separators_in_parents(p, cs));
    }

    // Every variable is private to exactly one clique.
    let mut seen: Vec<bool> = Vec::new();
    let mut v: u32 = 0;
    while v < size
        invariant
            v <= size,
            seen@.len() == v,
            forall|e: int| 0 <= e < v ==> !seen@[e],
        decreases size - v,
    {
        seen.push(false);
        v = v + 1;
    }
    let mut i: usize = 0;
    while i < m
        invariant
            p == *input_parameters,
            cs == rows(cliques@),
            p.valid(),
            cliques_shaped(p, cs),
            m == p.m,
            k == p.k,
            o == p.o,
            size == p.problem_size(),
            seen@.len() == size,
            cliques@.len() == m,
            cliques_distinct(cs),
            separators_in_parents(p, cs),
            i <= m,
            marked_before(p, cs, seen@, i as int, 0),
        decreases m - i,
    {
        let shared: usize = if i == 0 {
            0
        } else {
            o
        };
        let mut j: usize = shared;
        proof {
            assert(cs[i as int] == cliques@[i as int]@);
            assert(cs[i as int].len() == p.k);
            assert(marked_before(p, cs, seen@, i as int, j as int)) by {
                assert forall|a: int, b: int|
                    #![trigger cs[a][b]]
                    is_private(p, a, b) && (a < i || (a == i && b < j)) implies seen@[cs[a][b] as int] by {
                    assert(a < i);
                }
                assert forall|v: int| 0 <= v < seen@.len() && seen@[v] implies exists|a: int, b: int|
                    is_private(p, a, b) && (a < i || (a == i && b < j)) && #[trigger] cs[a][b] == v by {
                    let (a, b) = choose|a: int, b: int|
                        is_private(p, a, b) && (a < i || (a == i && b < 0)) && #[trigger] cs[a][b] == v;
                    assert(is_private(p, a, b) && (a < i || (a == i && b < j)) && cs[a][b] == v);
                }
            }
        }
        while j < k
            invariant
                p == *input_parameters,
                cs == rows(cliques@),
                p.valid(),
                cliques_shaped(p, cs),
                m == p.m,
                k == p.k,
                size == p.problem_size(),
                seen@.len() == size,
                cliques@.len() == m,
                cliques@[i as int]@.len() == k,
                i < m,
                shared == shared_count(p, i as int),
                shared <= j <= k,
                marked_before(p, cs, seen@, i as int, j as int),
            decreases k - j,
        {
            let variable: usize = cliques[i][j] as usize;
            proof {
                assert(cs[i as int][j as int] == variable);
                assert(cs[i as int][j as int] < p.problem_size());
                assert(is_private(p, i as int, j as int));
            }
            if seen[variable] {
                proof {
                    let (a, b) = choose|a: int, b: int|
                        is_private(p, a, b) && (a < i || (a == i && b < j)) && #[trigger] cs[a][b] == variable;
                    assert(cs[a][b] == cs[i as int][j as int]);
                    assert(!privates_injective(p, cs));
                }
                return false;
            }
            let ghost before = seen@;
            seen[variable] = true;
            proof {
                assert forall|a: int, b: int|
                    #![trigger cs[a][b]]
                    is_private(p, a, b) && (a < i || (a == i && b < j + 1)) implies seen@[cs[a][b] as int] by {
                    assert(cs[a][b] < p.problem_size());
                    if !(a == i && b == j) {
                        assert(before[cs[a][b] as int]);
                    }
                }
                assert forall|v: int| 0 <= v < seen@.len() && seen@[v] implies exists|a: int, b: int|
                    is_private(p, a, b) && (a < i || (a == i && b < j + 1)) && #[trigger] cs[a][b] == v by {
                    if v == variable {
                        assert(is_private(p, i as int, j as int) && cs[i as int][j as int] == v);
                    } else {
                        assert(before[v]);
                        let (a, b) = choose|a: int, b: int|
                            is_private(p, a, b) && (a < i || (a == i && b < j)) && #[trigger] cs[a][b] == v;
                        assert(is_private(p, a, b) && (a < i || (a == i && b < j + 1)) && cs[a][b] == v);
                    }
                }
                assert forall|a1: int, b1: int, a2: int, b2: int|
                    #![trigger cs[a1][b1], cs[a2][b2]]
                    is_private(p, a1, b1) && (a1 < i || (a1 == i && b1 < j + 1)) && is_private(p, a2, b2) && (a2
                        < i || (a2 == i && b2 < j + 1)) && cs[a1][b1] == cs[a2][b2] implies a1 == a2 && b1
                    == b2 by {
                    let first_new = a1 == i && b1 == j;
                    let second_new = a2 == i && b2 == j;
                    if first_new && !second_new {
                        assert(before[cs[a2][b2] as int]);
                    } else if second_new && !first_new {
                        assert(before[cs[a1][b1] as int]);
                    }
                }
            }
            j = j + 1;
        }
        proof {
            assert(marked_before(p, cs, seen@, i + 1, 0)) by {
                assert forall|a: int, b: int|
                    #![trigger cs[a][b]]
                    is_private(p, a, b) && (a < i + 1 || (a == i + 1 && b < 0)) implies seen@[cs[a][b] as int] by {
                    assert(a < i || (a == i && b < k));
                }
                assert forall|v: int| 0 <= v < seen@.len() && seen@[v] implies exists|a: int, b: int|
                    is_private(p, a, b) && (a < i + 1 || (a == i + 1 && b < 0)) && #[trigger] cs[a][b] == v by {
                    let (a, b) = choose|a: int, b: int|
                        is_private(p, a, b) && (a < i || (a == i && b < k)) && #[trigger] cs[a][b] == v;
                    assert(is_private(p, a, b) && (a < i + 1 || (a == i + 1 && b < 0)) && cs[a][b] == v);
                }
                assert forall|a1: int, b1: int, a2: int, b2: int|
                    #![trigger cs[a1][b1], cs[a2][b2]]
                    is_private(p, a1, b1) && (a1 < i + 1 || (a1 == i + 1 && b1 < 0)) && is_private(p, a2, b2)
                        && (a2 < i + 1 || (a2 == i + 1 && b2 < 0)) && cs[a1][b1] == cs[a2][b2] implies a1 == a2
                    && b1 == b2 by {
                    assert(a1 < i || (a1 == i && b1 < k));
                    assert(a2 < i || (a2 == i && b2 < k));
                }
            }
        }
        i = i + 1;
    }
    proof {
        assert(privates_injective(p, cs)) by {
            assert forall|a1: int, b1: int, a2: int, b2: int|
                #![trigger cs[a1][b1], cs[a2][b2]]
                is_private(p, a1, b1) && is_private(p, a2, b2) && cs[a1][b1] == cs[a2][b2] implies a1 == a2
                && b1 == b2 by {
                assert(a1 < m || (a1 == m && b1 < 0));
                assert(a2 < m || (a2 == m && b2 < 0));
            }
        }
    }
    let mut v: usize = 0;
    while v < seen.len()
        invariant
            p == *input_parameters,
            cs == rows(cliques@),
            p.valid(),
            cliques_shaped(p, cs),
            cliques_distinct(cs),
            separators_in_parents(p, cs),
            privates_injective(p, cs),
            m == p.m,
            size == p.problem_size(),
            marked_before(p, cs, seen@, m as int, 0),
            v <= seen@.len(),
            seen@.len() == size,
            forall|e: int| 0 <= e < v ==> seen@[e],
        decreases seen@.len() - v,
    {
        if !seen[v] {
            proof {
                if has_owner(p, cs, v as int) {
                    let (a, b) = choose|a: int, b: int| is_private(p, a, b) && #[trigger] cs[a][b] == v;
                    assert(a < m);
                    assert(seen@[cs[a][b] as int]);
                }
                assert(!has_owner(p, cs, v as int));
                assert(!privates_cover(p, cs));
            }
            return false;
        }
        v = v + 1;
    }
    proof {
        assert forall|w: int| 0 <= w < p.problem_size() implies #[trigger] has_owner(p, cs, w) by {
            assert(seen@[w]);
            let (a, b) = choose|a: int, b: int|
                is_private(p, a, b) && (a < m || (a == m && b < 0)) && #[trigger] cs[a][b] == w;
            assert(is_private(p, a, b) && cs[a][b] == w);
        }
    }
    true
}

/// Whether the separators are those of the cliques.
pub fn check_separators(input_parameters: &InputParameters, cliques: &[Vec<u32>], separators: &[Vec<u32>]) -> (matching:
    bool)
    requires
        cliques_shaped(*input_parameters, rows(cliques@)),
        input_parameters.o < input_parameters.k,
    ensures
        matching == separators_match(*input_parameters, rows(cliques@), rows(separators@)),
{
    let ghost p = *input_parameters;
    let ghost cs = rows(cliques@);
    let ghost ss = rows(separators@);
    if separators.len() != input_parameters.m as usize {
        return false;
    }
    let mut i: usize = 0;
    while i < separators.len()
        invariant
            p == *input_parameters,
            cs == rows(cliques@),
            ss == rows(separators@),
            cliques_shaped(p, cs),
            p.o < p.k,
            separators@.len() == p.m,
            cliques@.len() == p.m,
            i <= separators@.len(),
            forall|e: int| 0 <= e < i ==> #[trigger] ss[e] == cs[e].subrange(0, shared_count(p, e)),
        decreases separators@.len() - i,
    {
        let shared: usize = if i == 0 {
            0
        } else {
            input_parameters.o as usize
        };
        proof {
            assert(cs[i as int] == cliques@[i as int]@);
            assert(ss[i as int] == separators@[i as int]@);
            assert(cs[i as int].len() == p.k);
        }
        if separators[i].len() != shared {
            proof {
                assert(cs[i as int].subrange(0, shared as int).len() == shared);
            }
            return false;
        }
        let mut j: usize = 0;
        while j < shared
            invariant
                j <= shared,
                p == *input_parameters,
                cs == rows(cliques@),
                ss == rows(separators@),
                shared == shared_count(p, i as int),
                shared <= cliques@[i as int]@.len(),
                separators@[i as int]@.len() == shared,
                i < separators@.len() == cliques@.len(),
                separators@.len() == p.m,
                cs[i as int] == cliques@[i as int]@,
                ss[i as int] == separators@[i as int]@,
                forall|e: int| 0 <= e < j ==> separators@[i as int]@[e] == cliques@[i as int]@[e],
            decreases shared - j,
        {
            if separators[i][j] != cliques[i][j] {
                proof {
                    assert(cs[i as int].subrange(0, shared as int)[j as int] == cliques@[i as int]@[j as int]);
                    assert(ss[i as int] != cs[i as int].subrange(0, shared_count(p, i as int)));
                }
                return false;
            }
            j = j + 1;
        }
        proof {
            assert(ss[i as int] =~= cs[i as int].subrange(0, shared as int));
        }
        i = i + 1;
    }
    true
}

/// Whether the solver can take the inputs: the cliques form a tree
/// decomposition for the parameters, the separators are those of the cliques,
/// and there is one table of `2^k` values per clique.
pub fn check_solvable(
    input_parameters: &InputParameters,
    codomain_values: &Vec<Vec<i64>>,
    cliques: &[Vec<u32>],
    separators: &[Vec<u32>],
) -> (accepted: bool)
    ensures
        accepted == solvable(*input_parameters, codomain_values@, cliques@, separators@),
{
    if !check_tree(input_parameters, cliques) {
        return false;
    }
    if !check_separators(input_parameters, cliques, separators) {
        return false;
    }
    if codomain_values.len() != input_parameters.m as usize {
        return false;
    }
    let table_size: usize = power_of_two(input_parameters.k) as usize;
    proof {
        lemma2_to64();
        lemma_pow2_strictly_increases(input_parameters.k as nat, 32);
    }
    let sized = check_table_sizes(codomain_values, table_size);
    proof {
        let ls = landscape_of(*input_parameters, cliques@, codomain_values@);
        if sized {
            assert forall|i: int| 0 <= i < ls.m() implies (#[trigger] ls.tables[i]).len() == pow2(ls.k() as nat) by {
                assert(codomain_values@[i]@.len() == table_size);
            }
        } else {
            let i = choose|i: int|
                0 <= i < codomain_values@.len() && (#[trigger] codomain_values@[i])@.len() != table_size;
            assert(ls.tables[i].len() != pow2(ls.k() as nat));
        }
    }
    sized
}

impl CliqueTree {
    /// Whether every table value is a multiple of the tolerance, so that
    /// the tolerance cannot blur the comparison of scores.
    pub fn check_quantized(&self) -> (quantized: bool)
        requires
            self.landscape().shaped(),
        ensures
            quantized == self.landscape().quantized(),
    {
        let ghost ls = self.landscape();
        let mut i: usize = 0;
        while i < self.codomain_values.len()
            invariant
                ls == self.landscape(),
                ls.shaped(),
                i <= self.codomain_values@.len() == ls.m(),
                forall|e: int, x: int|
                    0 <= e < i && 0 <= x < pow2(ls.k() as nat) ==> (#[trigger] ls.tables[e][x]) as int % (
                    FITNESS_EPSILON as int) == 0,
            decreases self.codomain_values@.len() - i,
        {
            let table = &self.codomain_values[i];
            proof {
                assert(ls.tables[i as int] == table@);
                assert(ls.tables[i as int].len() == pow2(ls.k() as nat));
            }
            let mut x: usize = 0;
            while x < table.len()
                invariant
                    ls == self.landscape(),
                    i < self.codomain_values@.len() == ls.m(),
                    ls.tables[i as int] == table@,
                    table@.len() == pow2(ls.k() as nat),
                    x <= table@.len(),
                    forall|e: int| 0 <= e < x ==> (#[trigger] table@[e]) as int % (FITNESS_EPSILON as int) == 0,
                decreases table@.len() - x,
            {
                let value: i64 = table[x];
                let magnitude: u64 = if value < 0 {
                    (-(value as i128)) as u64
                } else {
                    value as u64
                };
                if magnitude % (FITNESS_EPSILON as u64) != 0 {
                    proof {
                        assert(ls.tables[i as int][x as int] == value);
                        assert(value as int % (FITNESS_EPSILON as int) != 0);
                    }
                    return false;
                }
                x = x + 1;
            }
            i = i + 1;
        }
        true
    }
}

} // verus!
