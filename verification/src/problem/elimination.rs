//! The global optima of a landscape by variable elimination over the clique
//! tree: scores are passed from the leaves to the root, and the optimal
//! assignments are assembled from the root to the leaves.

use vstd::prelude::*;
use vstd::pervasive::unreached;
use vstd::arithmetic::power2::{pow2, lemma_pow2_pos, lemma_pow2_strictly_increases, lemma2_to64};
use crate::problem::bit_strings::{
    bits_of, gather, get_possible_substrings, index_to_substring, lemma_bits_of_is_bits,
    lemma_bits_value_bound, power_of_two, transform_substring_vector_to_index,
};
use crate::problem::clique_tree::{CliqueTree, InputParameters};
use crate::problem::construction::take_prefix;
use crate::problem::evaluation::{find_variable, lemma_gather_is_bits, positions_within};
use crate::problem::expansion::{
    accepted, all_grown_from, all_zero, extended, grown_from, lemma_grown_list_exact,
    lemma_push_origin, lists_exactly, origins_before, selection_ranged, staged, Selection,
};
use crate::problem::fitness::{is_better_fitness, is_better_or_equal_fitness};
use crate::problem::landscape::{
    is_child, landscape_of, rows, separators_match, shared_count, Landscape,
};
use crate::problem::optimum::{
    as_positions, child_separator_substring, increasing_below, lemma_first_position,
    lemma_increasing_distinct, lemma_retained_shape, retained, solutions,
};
use crate::problem::separable::extend_string;

verus! {

/// The values that the variables of `separator` have in `glob_string`.
pub fn get_separator_substring_from_string(separator: &Vec<u32>, glob_string: &Vec<u32>) -> (substring: Vec<u32>)
    requires
        positions_within(separator@, glob_string@.len() as int),
    ensures
        substring@ == gather(glob_string@, separator@),
{
    let mut separator_substring: Vec<u32> = Vec::new();
    let mut j: usize = 0;
    while j < separator.len()
        invariant
            j <= separator@.len(),
            positions_within(separator@, glob_string@.len() as int),
            separator_substring@ == gather(glob_string@, separator@).subrange(0, j as int),
        decreases separator@.len() - j,
    {
        separator_substring.push(glob_string[separator[j] as usize]);
        proof {
            assert(separator_substring@ =~= gather(glob_string@, separator@).subrange(0, j + 1));
        }
        j = j + 1;
    }
    proof {
        assert(separator_substring@ =~= gather(glob_string@, separator@));
    }
    separator_substring
}

/// The values that the variables of `separator` have when the variables of
/// `clique` have the values in `clique_substring`. Each separator variable is
/// looked up in the clique by its name.
pub fn get_child_separator_substring(
    clique: &Vec<u32>,
    separator: &Vec<u32>,
    clique_substring: &Vec<u32>,
) -> (substring: Vec<u32>)
    requires
        clique@.len() <= clique_substring@.len(),
        forall|j: int| 0 <= j < separator@.len() ==> clique@.contains(#[trigger] separator@[j]),
    ensures
        substring@ == child_separator_substring(clique@, separator@, clique_substring@),
{
    let ghost target = child_separator_substring(clique@, separator@, clique_substring@);
    let mut separator_substring: Vec<u32> = Vec::new();
    let mut j: usize = 0;
    while j < separator.len()
        invariant
            j <= separator@.len(),
            clique@.len() <= clique_substring@.len(),
            forall|e: int| 0 <= e < separator@.len() ==> clique@.contains(#[trigger] separator@[e]),
            target == child_separator_substring(clique@, separator@, clique_substring@),
            separator_substring@ == target.subrange(0, j as int),
        decreases separator@.len() - j,
    {
        let index: u32 = separator[j];
        proof {
            assert(clique@.contains(separator@[j as int]));
        }
        let found_index: usize = match find_variable(clique, index) {
            Some(position) => position,
            None => {
                proof {
                    let w = choose|w: int| 0 <= w < clique@.len() && clique@[w] == index;
                    assert(clique@[w] != index);
                }
                unreached()
            },
        };
        proof {
            lemma_first_position(clique@, index, found_index as int);
        }
        separator_substring.push(clique_substring[found_index]);
        proof {
            assert(separator_substring@ =~= target.subrange(0, j + 1));
        }
        j = j + 1;
    }
    proof {
        assert(separator_substring@ =~= target);
    }
    separator_substring
}

/// The inputs describe a landscape over a clique tree, with the separators
/// of its cliques.
pub open spec fn solvable(
    p: InputParameters,
    tables: Seq<Vec<i64>>,
    cliques: Seq<Vec<u32>>,
    separators: Seq<Vec<u32>>,
) -> bool {
    &&& landscape_of(p, cliques, tables).well_formed()
    &&& separators_match(p, rows(cliques), rows(separators))
}

/// From clique `from` on, the rows hold the score recorded for every value
/// of the clique's separator.
pub open spec fn scores_filled(ls: Landscape, best_scores: Seq<Vec<i128>>, from: int) -> bool {
    &&& best_scores.len() == ls.m()
    &&& forall|c: int| from <= c < ls.m() ==> (#[trigger] best_scores[c])@.len() == ls.separator_count(c)
    &&& forall|c: int, s: int|
        from <= c < ls.m() && 0 <= s < ls.separator_count(c) ==> #[trigger] best_scores[c]@[s] == ls.best(c, s)
}

/// From clique `from` on, the rows hold the values of the private variables
/// that are kept for every value of the clique's separator.
pub open spec fn ties_filled(ls: Landscape, best_ties: Seq<Vec<Vec<u32>>>, from: int) -> bool {
    &&& best_ties.len() == ls.m()
    &&& forall|c: int| from <= c < ls.m() ==> (#[trigger] best_ties[c])@.len() == ls.separator_count(c)
    &&& forall|c: int, s: int|
        from <= c < ls.m() && 0 <= s < ls.separator_count(c) ==> as_positions((#[trigger] best_ties[c]@[s])@)
            == ls.ties(c, s)
}

/// The selection of variable elimination.
pub open spec fn elimination_selection(ls: Landscape) -> Selection {
    |i: int, s: int| ls.ties(i, s)
}

impl Landscape {
    pub proof fn lemma_elimination_selection_ranged(&self)
        requires
            self.parameters.valid(),
        ensures
            selection_ranged(*self, elimination_selection(*self)),
    {
        let sel = elimination_selection(*self);
        assert forall|i: int, s: int| 0 <= i < self.m() implies (#[trigger] sel(i, s)).no_duplicates()
            && forall|a: int| 0 <= a < sel(i, s).len() ==> 0 <= #[trigger] sel(i, s)[a] < self.free_count(i) by {
            lemma_pow2_pos(self.free_bits(i));
            lemma_retained_shape(self.candidates(i, s), self.free_count(i));
            lemma_increasing_distinct(self.ties(i, s), self.free_count(i));
        }
    }

    /// The assignments staged after the last clique are those that variable
    /// elimination reports.
    pub proof fn lemma_elimination_final_stage(&self, x: Seq<u32>)
        ensures
            staged(*self, elimination_selection(*self), self.m(), x) <==> self.eliminated_optimum(x),
    {
        let sel = elimination_selection(*self);
        if staged(*self, sel, self.m(), x) {
            assert forall|i: int| 0 <= i < self.m() implies self.ties(i, self.separator_value(i, x)).contains(
                #[trigger] self.private_value(i, x),
            ) by {
                assert(accepted(*self, sel, i, x));
            }
        }
        if self.eliminated_optimum(x) {
            assert forall|c: int| 0 <= c < self.m() implies #[trigger] accepted(*self, sel, c, x) by {
                assert(self.ties(c, self.separator_value(c, x)).contains(self.private_value(c, x)));
            }
        }
    }
}

/// The score of clique `i` at the table index `x`: its table value plus the
/// recorded scores of its children under the separator values that `x`
/// induces.
pub fn candidate_score(
    input_parameters: &InputParameters,
    codomain_values: &[Vec<i64>],
    cliques: &[Vec<u32>],
    separators: &[Vec<u32>],
    best_scores: &Vec<Vec<i128>>,
    i: usize,
    x: usize,
    clique_substring: &Vec<u32>,
) -> (score: i128)
    requires
        solvable(*input_parameters, codomain_values@, cliques@, separators@),
        i < input_parameters.m,
        x < pow2(input_parameters.k as nat),
        clique_substring@ == bits_of(x as nat, input_parameters.k as nat),
        scores_filled(landscape_of(*input_parameters, cliques@, codomain_values@), best_scores@, i + 1),
    ensures
        score == landscape_of(*input_parameters, cliques@, codomain_values@).candidate(i as int, x as int),
{
    let ghost p = *input_parameters;
    let ghost ls = landscape_of(*input_parameters, cliques@, codomain_values@);
    let m: u64 = input_parameters.m as u64;
    let b: u64 = if input_parameters.o == 0 {
        1
    } else {
        input_parameters.b as u64
    };
    proof {
        assert(b * i <= 0xffff_ffff * 0xffff_ffff) by (nonlinear_arith)
            requires
                0 <= b <= 0xffff_ffff,
                0 <= i <= 0xffff_ffff,
        ;
        assert(ls.tables[i as int] == codomain_values@[i as int]@);
        assert(ls.tables[i as int].len() == pow2(ls.k() as nat));
        ls.lemma_subtree_size_split(i as int, b * i + 1);
        assert(ls.range_size(b * i + 1, b * i + 1) == 0);
        assert(Landscape::fitness_bound(ls.m()) <= 0x1_0000_0000 * 0x8000_0000_0000_0000) by (nonlinear_arith)
            requires
                ls.m() <= 0x1_0000_0000,
        ;
    }
    let first: u64 = b * (i as u64) + 1;
    let end: u64 = first + b;
    let mut score: i128 = codomain_values[i][x] as i128;
    let mut child_index: u64 = first;
    while child_index < end && child_index < m
        invariant
            p == *input_parameters,
            ls == landscape_of(*input_parameters, cliques@, codomain_values@),
            solvable(p, codomain_values@, cliques@, separators@),
            i < p.m,
            m == p.m,
            b == p.branching(),
            x < pow2(p.k as nat),
            clique_substring@ == bits_of(x as nat, p.k as nat),
            scores_filled(ls, best_scores@, i + 1),
            first == b * i + 1,
            end == first + b,
            first <= child_index <= end,
            score + ls.children_best(i as int, x as int, child_index as int, end as int) == ls.candidate(
                i as int,
                x as int,
            ),
            -Landscape::fitness_bound(1 + ls.range_size(first as int, child_index as int)) <= score
                <= Landscape::fitness_bound(1 + ls.range_size(first as int, child_index as int)),
            Landscape::fitness_bound(ls.m()) <= 0x1_0000_0000 * 0x8000_0000_0000_0000,
        decreases end - child_index,
    {
        let ghost s = ls.induced_separator_value(i as int, child_index as int, x as int);
        proof {
            assert(is_child(p, i as int, child_index as int));
            ls.lemma_induced_in_range(i as int, child_index as int, x as int);
            assert(ls.cliques[i as int] == cliques@[i as int]@);
            assert(ls.separator(child_index as int) == rows(separators@)[child_index as int]);
            assert(rows(separators@)[child_index as int] == separators@[child_index as int]@);
            lemma_bits_of_is_bits(x as nat, p.k as nat);
            ls.lemma_best_bound(child_index as int, s);
            ls.lemma_subtree_size_split(i as int, child_index as int);
            ls.lemma_subtree_size_split(i as int, child_index + 1);
            assert(ls.range_size(child_index as int, end as int) == ls.subtree_size(child_index as int)
                + ls.range_size(child_index + 1, end as int));
        }
        let separator_substring = get_child_separator_substring(
            &cliques[i],
            &separators[child_index as usize],
            clique_substring,
        );
        let separator_substring_index_version = transform_substring_vector_to_index(
            separator_substring.as_slice(),
        );
        score = score + best_scores[child_index as usize][separator_substring_index_version as usize];
        child_index = child_index + 1;
    }
    score
}

/// The values of the private variables of clique `i` that are kept for the
/// separator value `s`, and the score recorded for it: that of the first
/// value kept.
pub fn best_for_separator_value(
    input_parameters: &InputParameters,
    codomain_values: &[Vec<i64>],
    cliques: &[Vec<u32>],
    separators: &[Vec<u32>],
    best_scores: &Vec<Vec<i128>>,
    possible_clique_substrings: &Vec<Vec<u32>>,
    i: usize,
    s: usize,
) -> (kept: (Vec<u32>, i128))
    requires
        solvable(*input_parameters, codomain_values@, cliques@, separators@),
        i < input_parameters.m,
        s < landscape_of(*input_parameters, cliques@, codomain_values@).separator_count(i as int),
        scores_filled(landscape_of(*input_parameters, cliques@, codomain_values@), best_scores@, i + 1),
        possible_clique_substrings@.len() == pow2(input_parameters.k as nat),
        forall|x: int|
            0 <= x < possible_clique_substrings@.len() ==> (#[trigger] possible_clique_substrings@[x])@
                == bits_of(x as nat, input_parameters.k as nat),
    ensures
        as_positions(kept.0@) == landscape_of(*input_parameters, cliques@, codomain_values@).ties(
            i as int,
            s as int,
        ),
        kept.1 == landscape_of(*input_parameters, cliques@, codomain_values@).best(i as int, s as int),
{
    let ghost p = *input_parameters;
    let ghost ls = landscape_of(*input_parameters, cliques@, codomain_values@);
    let ghost candidates = ls.candidates(i as int, s as int);
    let free_bits: u32 = if i == 0 {
        input_parameters.k
    } else {
        input_parameters.k - input_parameters.o
    };
    let free_count: usize = power_of_two(free_bits) as usize;
    proof {
        lemma2_to64();
        lemma_pow2_strictly_increases(free_bits as nat, 32);
        lemma_pow2_strictly_increases(p.k as nat, 32);
        lemma_pow2_pos(free_bits as nat);
        assert(retained(candidates, 0) =~= Seq::<int>::empty());
    }
    let mut scores: Vec<u32> = Vec::new();
    let mut highest_score: i128 = 0;
    let mut first_score: i128 = 0;
    let mut f: usize = 0;
    while f < free_count
        invariant
            p == *input_parameters,
            ls == landscape_of(*input_parameters, cliques@, codomain_values@),
            candidates == ls.candidates(i as int, s as int),
            solvable(p, codomain_values@, cliques@, separators@),
            i < p.m,
            s < ls.separator_count(i as int),
            scores_filled(ls, best_scores@, i + 1),
            possible_clique_substrings@.len() == pow2(p.k as nat),
            forall|x: int|
                0 <= x < possible_clique_substrings@.len() ==> (#[trigger] possible_clique_substrings@[x])@
                    == bits_of(x as nat, p.k as nat),
            free_count == ls.free_count(i as int),
            free_count < 0x1_0000_0000,
            pow2(p.k as nat) < 0x1_0000_0000,
            f <= free_count,
            as_positions(scores@) == retained(candidates, f as int),
            scores@.len() > 0 ==> highest_score == candidates[scores@[scores@.len() - 1] as int]
                && first_score == candidates[scores@[0] as int],
            increasing_below(as_positions(scores@), f as int),
        decreases free_count - f,
    {
        proof {
            ls.lemma_index_in_range(i as int, s as int, f as int);
            assert(s * free_count + f < 0x1_0000_0000) by (nonlinear_arith)
                requires
                    0 <= s * free_count + f < pow2(p.k as nat),
                    pow2(p.k as nat) < 0x1_0000_0000,
            ;
            assert(s * free_count >= 0) by (nonlinear_arith)
                requires
                    s >= 0,
                    free_count >= 0,
            ;
        }
        let x: usize = s * free_count + f;
        let score = candidate_score(
            input_parameters,
            codomain_values,
            cliques,
            separators,
            best_scores,
            i,
            x,
            &possible_clique_substrings[x],
        );
        let ghost before = as_positions(scores@);
        proof {
            assert(score == candidates[f as int]);
            if scores@.len() > 0 {
                assert(before.last() == scores@[scores@.len() - 1]);
                assert(before[0] == scores@[0]);
            }
        }
        if scores.len() > 0 && is_better_fitness(score, highest_score) {
            scores.clear();
        }
        if scores.len() == 0 || is_better_or_equal_fitness(score, highest_score) {
            if scores.len() == 0 {
                first_score = score;
            }
            let ghost kept_before = as_positions(scores@);
            scores.push(f as u32);
            highest_score = score;
            proof {
                assert(as_positions(scores@) =~= kept_before.push(f as int));
                if kept_before.len() == 0 {
                    assert(as_positions(scores@) =~= seq![f as int]);
                }
            }
        }
        f = f + 1;
    }
    (scores, first_score)
}

impl CliqueTree {
    /// Passes scores from the leaves to the root: for every clique and every
    /// value of its separator, the values of its private variables that are
    /// kept, and the score recorded. Returns the scores and the kept values,
    /// each indexed by clique and separator value.
    pub fn eliminate(
        input_parameters: &InputParameters,
        codomain_values: &[Vec<i64>],
        cliques: &[Vec<u32>],
        separators: &[Vec<u32>],
    ) -> (recorded: (Vec<Vec<i128>>, Vec<Vec<Vec<u32>>>))
        requires
            solvable(*input_parameters, codomain_values@, cliques@, separators@),
        ensures
            scores_filled(landscape_of(*input_parameters, cliques@, codomain_values@), recorded.0@, 0),
            ties_filled(landscape_of(*input_parameters, cliques@, codomain_values@), recorded.1@, 0),
    {
        let ghost p = *input_parameters;
        let ghost ls = landscape_of(*input_parameters, cliques@, codomain_values@);
        let m: usize = input_parameters.m as usize;
        let possible_clique_substrings = get_possible_substrings(input_parameters.k);

        let mut best_scores: Vec<Vec<i128>> = Vec::new();
        let mut best_ties: Vec<Vec<Vec<u32>>> = Vec::new();
        let mut filler: usize = 0;
        while filler < m
            invariant
                filler <= m,
                best_scores@.len() == filler,
                best_ties@.len() == filler,
            decreases m - filler,
        {
            best_scores.push(Vec::new());
            best_ties.push(Vec::new());
            filler = filler + 1;
        }

        // Go over all cliques from the last to the root.
        let mut i: usize = m;
        while i > 0
            invariant
                p == *input_parameters,
                ls == landscape_of(*input_parameters, cliques@, codomain_values@),
                solvable(p, codomain_values@, cliques@, separators@),
                m == p.m,
                i <= m,
                possible_clique_substrings@.len() == pow2(p.k as nat),
                forall|x: int|
                    0 <= x < possible_clique_substrings@.len() ==> (#[trigger] possible_clique_substrings@[x])@
                        == bits_of(x as nat, p.k as nat),
                scores_filled(ls, best_scores@, i as int),
                ties_filled(ls, best_ties@, i as int),
            decreases i,
        {
            i = i - 1;
            let separator_bits: u32 = if i == 0 {
                0
            } else {
                input_parameters.o
            };
            let separator_count: usize = power_of_two(separator_bits) as usize;
            proof {
                lemma2_to64();
                lemma_pow2_strictly_increases(separator_bits as nat, 32);
            }
            let mut row_scores: Vec<i128> = Vec::new();
            let mut row_ties: Vec<Vec<u32>> = Vec::new();
            let mut s: usize = 0;
            while s < separator_count
                invariant
                    p == *input_parameters,
                    ls == landscape_of(*input_parameters, cliques@, codomain_values@),
                    solvable(p, codomain_values@, cliques@, separators@),
                    i < m == p.m,
                    possible_clique_substrings@.len() == pow2(p.k as nat),
                    forall|x: int|
                        0 <= x < possible_clique_substrings@.len() ==> (#[trigger] possible_clique_substrings@[x])@
                            == bits_of(x as nat, p.k as nat),
                    scores_filled(ls, best_scores@, i + 1),
                    separator_count == ls.separator_count(i as int),
                    s <= separator_count,
                    row_scores@.len() == s,
                    row_ties@.len() == s,
                    forall|e: int| 0 <= e < s ==> #[trigger] row_scores@[e] == ls.best(i as int, e),
                    forall|e: int| 0 <= e < s ==> as_positions((#[trigger] row_ties@[e])@) == ls.ties(i as int, e),
                decreases separator_count - s,
            {
                let (kept, score) = best_for_separator_value(
                    input_parameters,
                    codomain_values,
                    cliques,
                    separators,
                    &best_scores,
                    &possible_clique_substrings,
                    i,
                    s,
                );
                row_scores.push(score);
                row_ties.push(kept);
                s = s + 1;
            }
            best_scores[i] = row_scores;
            best_ties[i] = row_ties;
        }
        (best_scores, best_ties)
    }

    /// Assembles the optimal assignments from the root to the leaves: every
    /// assignment so far is extended, clique by clique, by each of the
    /// values kept for the clique under the value that the assignment gives
    /// the clique's separator.
    pub fn assemble_optima(
        input_parameters: &InputParameters,
        codomain_values: &[Vec<i64>],
        cliques: &[Vec<u32>],
        separators: &[Vec<u32>],
        best_ties: &Vec<Vec<Vec<u32>>>,
    ) -> (glob_opt_strings: Vec<Vec<u32>>)
        requires
            solvable(*input_parameters, codomain_values@, cliques@, separators@),
            ties_filled(landscape_of(*input_parameters, cliques@, codomain_values@), best_ties@, 0),
        ensures
            glob_opt_strings@.len() >= 1,
            rows(glob_opt_strings@) == landscape_of(
                *input_parameters,
                cliques@,
                codomain_values@,
            ).eliminated_strings(input_parameters.m as int),
            rows(glob_opt_strings@).no_duplicates(),
            forall|x: Seq<u32>|
                rows(glob_opt_strings@).contains(x) <==> landscape_of(
                    *input_parameters,
                    cliques@,
                    codomain_values@,
                ).eliminated_optimum(x),
    {
        let ghost p = *input_parameters;
        let ghost ls = landscape_of(*input_parameters, cliques@, codomain_values@);
        let ghost sel = elimination_selection(ls);
        let m: usize = input_parameters.m as usize;
        let size: u32 = input_parameters.number_of_variables();

        let mut zero: Vec<u32> = Vec::new();
        let mut v: u32 = 0;
        while v < size
            invariant
                v <= size,
                zero@ =~= all_zero(v as int),
            decreases size - v,
        {
            zero.push(0);
            v = v + 1;
        }
        let mut glob_opt_strings: Vec<Vec<u32>> = Vec::new();
        glob_opt_strings.push(zero);
        proof {
            ls.lemma_initial_stage(sel);
            ls.lemma_elimination_selection_ranged();
            assert(rows(glob_opt_strings@) =~= seq![all_zero(ls.size())]);
        }

        let mut c: usize = 0;
        while c < m
            invariant
                p == *input_parameters,
                ls == landscape_of(*input_parameters, cliques@, codomain_values@),
                sel == elimination_selection(ls),
                solvable(p, codomain_values@, cliques@, separators@),
                ties_filled(ls, best_ties@, 0),
                selection_ranged(ls, sel),
                m == p.m,
                c <= m,
                glob_opt_strings@.len() >= 1,
                rows(glob_opt_strings@) == ls.eliminated_strings(c as int),
                lists_exactly(rows(glob_opt_strings@), ls, sel, c as int),
            decreases m - c,
        {
            let shared: usize = if c == 0 {
                0
            } else {
                input_parameters.o as usize
            };
            let width: u32 = input_parameters.k - shared as u32;
            let ghost before = rows(glob_opt_strings@);
            let mut kept: Vec<Vec<u32>> = Vec::new();
            let mut expanded: Vec<Vec<u32>> = Vec::new();
            let ghost mut kept_origins: Seq<(int, int)> = Seq::empty();
            let ghost mut expanded_origins: Seq<(int, int)> = Seq::empty();
            let glob_opt_strings_length: usize = glob_opt_strings.len();
            proof {
                ls.lemma_private_part(c as int);
                assert(ls.cliques[c as int] == cliques@[c as int]@);
                assert(ls.cliques[c as int].no_duplicates());
                assert(ls.separator(c as int) == rows(separators@)[c as int]);
                assert(ls.private_part(c as int) =~= cliques@[c as int]@.subrange(
                    shared as int,
                    cliques@[c as int]@.len() as int,
                ));
            }
            let mut a: usize = 0;
            while a < glob_opt_strings_length
                invariant
                    p == *input_parameters,
                    ls == landscape_of(*input_parameters, cliques@, codomain_values@),
                    sel == elimination_selection(ls),
                    solvable(p, codomain_values@, cliques@, separators@),
                    ties_filled(ls, best_ties@, 0),
                    c < m == p.m,
                    shared == shared_count(p, c as int),
                    width == ls.free_bits(c as int),
                    before == rows(glob_opt_strings@),
                    glob_opt_strings_length == before.len(),
                    lists_exactly(before, ls, sel, c as int),
                    ls.separator(c as int) == separators@[c as int]@,
                    ls.private_part(c as int) == cliques@[c as int]@.subrange(
                        shared as int,
                        cliques@[c as int]@.len() as int,
                    ),
                    cliques@[c as int]@.no_duplicates(),
                    cliques@[c as int]@.len() == p.k,
                    positions_within(cliques@[c as int]@, ls.size()),
                    positions_within(separators@[c as int]@, ls.size()),
                    separators@[c as int]@.len() == shared,
                    a <= glob_opt_strings_length,
                    all_grown_from(ls, sel, c as int, before, kept_origins, rows(kept@)),
                    all_grown_from(ls, sel, c as int, before, expanded_origins, rows(expanded@)),
                    kept_origins.no_duplicates(),
                    expanded_origins.no_duplicates(),
                    rows(kept@) == ls.extended_in_place(c as int, before, a as int),
                    rows(expanded@) == ls.extended_by_copies(c as int, before, a as int),
                    origins_before(kept_origins, a as int, 0),
                    origins_before(expanded_origins, a as int, 0),
                    forall|r: int|
                        0 <= r < kept_origins.len() ==> sel(
                            c as int,
                            ls.separator_value(c as int, before[(#[trigger] kept_origins[r]).0]),
                        ).len() == 1,
                    forall|r: int|
                        0 <= r < expanded_origins.len() ==> sel(
                            c as int,
                            ls.separator_value(c as int, before[(#[trigger] expanded_origins[r]).0]),
                        ).len() != 1,
                    forall|e: int, t: int|
                        0 <= e < a && 0 <= t < sel(c as int, ls.separator_value(c as int, before[e])).len()
                            ==> kept_origins.contains((e, t)) || expanded_origins.contains((e, t)),
                decreases glob_opt_strings_length - a,
            {
                let glob_opt_string = &glob_opt_strings[a];
                let ghost x = before[a as int];
                proof {
                    assert(x == glob_opt_string@);
                    assert(before.contains(x));
                    assert(staged(ls, sel, c as int, x));
                    lemma_gather_is_bits(x, separators@[c as int]@);
                    lemma_bits_value_bound(gather(x, separators@[c as int]@));
                    lemma2_to64();
                    lemma_pow2_strictly_increases(shared as nat, 32);
                }
                let separator_substring = get_separator_substring_from_string(&separators[c], glob_opt_string);
                let separator_substring_index_version = transform_substring_vector_to_index(
                    separator_substring.as_slice(),
                );
                let maximizing = &best_ties[c][separator_substring_index_version as usize];
                let ghost choices = sel(c as int, ls.separator_value(c as int, x));
                proof {
                    assert(separator_substring_index_version == ls.separator_value(c as int, x));
                    assert(choices == as_positions(maximizing@));
                    lemma_pow2_pos(ls.free_bits(c as int));
                    lemma_retained_shape(
                        ls.candidates(c as int, ls.separator_value(c as int, x)),
                        ls.free_count(c as int),
                    );
                }
                let number_maximizing_instances: usize = maximizing.len();
                if number_maximizing_instances == 1 {
                    proof {
                        assert(choices[0] == maximizing@[0]);
                    }
                    let substring = index_to_substring(maximizing[0], width);
                    let string = extend_string(glob_opt_string, &cliques[c], shared, &substring);
                    proof {
                        assert(grown_from(ls, sel, c as int, before, (a as int, 0int), string@));
                        lemma_push_origin(ls, sel, c as int, before, kept_origins, rows(kept@), a as int, 0, string@);
                        assert(rows(kept@.push(string)) =~= rows(kept@).push(string@));
                        kept_origins = kept_origins.push((a as int, 0int));
                        assert(choices == ls.kept_for(c as int, x));
                        assert(ls.extended_in_place(c as int, before, a + 1) == ls.extended_in_place(
                            c as int,
                            before,
                            a as int,
                        ).push(extended(ls, c as int, x, choices[0])));
                        assert(ls.extended_by_copies(c as int, before, a + 1) == ls.extended_by_copies(
                            c as int,
                            before,
                            a as int,
                        ));
                    }
                    kept.push(string);
                } else {
                    let mut t: usize = 0;
                    proof {
                        assert(ls.copies(c as int, x, 0) =~= Seq::<Seq<u32>>::empty());
                        assert(rows(expanded@) + ls.copies(c as int, x, 0) =~= rows(expanded@));
                    }
                    while t < number_maximizing_instances
                        invariant
                            rows(expanded@) == ls.extended_by_copies(c as int, before, a as int) + ls.copies(
                                c as int,
                                x,
                                t as int,
                            ),
                            p == *input_parameters,
                            ls == landscape_of(*input_parameters, cliques@, codomain_values@),
                            sel == elimination_selection(ls),
                            c < m == p.m,
                            shared == shared_count(p, c as int),
                            width == ls.free_bits(c as int),
                            width <= 32,
                            before == rows(glob_opt_strings@),
                            a < glob_opt_strings_length == before.len(),
                            x == before[a as int],
                            x == glob_opt_string@,
                            x.len() == ls.size(),
                            cliques@.len() == p.m,
                            shared <= p.k,
                            ls.private_part(c as int) == cliques@[c as int]@.subrange(
                                shared as int,
                                cliques@[c as int]@.len() as int,
                            ),
                            cliques@[c as int]@.no_duplicates(),
                            cliques@[c as int]@.len() == p.k,
                            positions_within(cliques@[c as int]@, ls.size()),
                            choices == sel(c as int, ls.separator_value(c as int, x)),
                            choices == as_positions(maximizing@),
                            number_maximizing_instances == maximizing@.len(),
                            number_maximizing_instances != 1,
                            t <= number_maximizing_instances,
                            all_grown_from(ls, sel, c as int, before, expanded_origins, rows(expanded@)),
                            expanded_origins.no_duplicates(),
                            origins_before(expanded_origins, a as int, t as int),
                            forall|r: int|
                                0 <= r < expanded_origins.len() ==> sel(
                                    c as int,
                                    ls.separator_value(c as int, before[(#[trigger] expanded_origins[r]).0]),
                                ).len() != 1,
                            forall|e: int, u: int|
                                0 <= e < a && 0 <= u < sel(c as int, ls.separator_value(c as int, before[e])).len()
                                    ==> kept_origins.contains((e, u)) || expanded_origins.contains((e, u)),
                            forall|u: int| 0 <= u < t ==> expanded_origins.contains((a as int, u)),
                        decreases number_maximizing_instances - t,
                    {
                        proof {
                            assert(choices[t as int] == maximizing@[t as int]);
                        }
                        let substring = index_to_substring(maximizing[t], width);
                        let string = extend_string(glob_opt_string, &cliques[c], shared, &substring);
                        proof {
                            assert(grown_from(ls, sel, c as int, before, (a as int, t as int), string@));
                            lemma_push_origin(
                                ls,
                                sel,
                                c as int,
                                before,
                                expanded_origins,
                                rows(expanded@),
                                a as int,
                                t as int,
                                string@,
                            );
                            assert(rows(expanded@.push(string)) =~= rows(expanded@).push(string@));
                            assert(choices == ls.kept_for(c as int, x));
                            assert(ls.copies(c as int, x, t + 1) =~= ls.copies(c as int, x, t as int).push(string@));
                            assert((ls.extended_by_copies(c as int, before, a as int) + ls.copies(
                                c as int,
                                x,
                                t as int,
                            )).push(string@) =~= ls.extended_by_copies(c as int, before, a as int) + ls.copies(
                                c as int,
                                x,
                                t + 1,
                            ));
                            let grown = expanded_origins.push((a as int, t as int));
                            assert forall|u: int| 0 <= u < t + 1 implies grown.contains((a as int, u)) by {
                                if u < t {
                                    assert(expanded_origins.contains((a as int, u)));
                                }
                            }
                            assert forall|e: int, u: int|
                                0 <= e < a && 0 <= u < sel(c as int, ls.separator_value(c as int, before[e])).len()
                                implies kept_origins.contains((e, u)) || grown.contains((e, u)) by {
                                if !kept_origins.contains((e, u)) {
                                    assert(expanded_origins.contains((e, u)));
                                }
                            }
                            assert forall|r: int| 0 <= r < grown.len() implies sel(
                                c as int,
                                ls.separator_value(c as int, before[(#[trigger] grown[r]).0]),
                            ).len() != 1 by {
                                if r < expanded_origins.len() {
                                    assert(grown[r] == expanded_origins[r]);
                                }
                            }
                            expanded_origins = grown;
                        }
                        expanded.push(string);
                        t = t + 1;
                    }
                    proof {
                        assert(choices == ls.kept_for(c as int, x));
                        assert(ls.extended_by_copies(c as int, before, a + 1) == ls.extended_by_copies(
                            c as int,
                            before,
                            a as int,
                        ) + ls.copies(c as int, x, choices.len() as int));
                        assert(ls.extended_in_place(c as int, before, a + 1) == ls.extended_in_place(
                            c as int,
                            before,
                            a as int,
                        ));
                    }
                }
                proof {
                    assert(origins_before(kept_origins, a + 1, 0));
                    assert(origins_before(expanded_origins, a + 1, 0));
                }
                a = a + 1;
            }
            proof {
                let origins = kept_origins + expanded_origins;
                let after = rows(kept@) + rows(expanded@);
                assert(all_grown_from(ls, sel, c as int, before, origins, after)) by {
                    assert forall|r: int| 0 <= r < after.len() implies grown_from(
                        ls,
                        sel,
                        c as int,
                        before,
                        #[trigger] origins[r],
                        after[r],
                    ) by {
                        if r < kept_origins.len() {
                            assert(origins[r] == kept_origins[r]);
                        } else {
                            assert(origins[r] == expanded_origins[r - kept_origins.len()]);
                        }
                    }
                }
                assert(origins.no_duplicates()) by {
                    assert forall|r1: int, r2: int|
                        0 <= r1 < origins.len() && 0 <= r2 < origins.len() && r1 != r2 implies origins[r1]
                        != origins[r2] by {
                        let n1 = kept_origins.len() as int;
                        if r1 < n1 && r2 < n1 {
                            assert(origins[r1] == kept_origins[r1] && origins[r2] == kept_origins[r2]);
                        } else if r1 >= n1 && r2 >= n1 {
                            assert(origins[r1] == expanded_origins[r1 - n1]);
                            assert(origins[r2] == expanded_origins[r2 - n1]);
                        } else if r1 < n1 {
                            assert(origins[r1] == kept_origins[r1] && origins[r2] == expanded_origins[r2 - n1]);
                        } else {
                            assert(origins[r2] == kept_origins[r2] && origins[r1] == expanded_origins[r1 - n1]);
                        }
                    }
                }
                assert forall|e: int, t: int|
                    0 <= e < before.len() && 0 <= t < sel(c as int, ls.separator_value(c as int, before[e])).len()
                    implies origins.contains((e, t)) by {
                    if kept_origins.contains((e, t)) {
                        let r = choose|r: int| 0 <= r < kept_origins.len() && kept_origins[r] == (e, t);
                        assert(origins[r] == (e, t));
                    } else {
                        assert(expanded_origins.contains((e, t)));
                        let r = choose|r: int| 0 <= r < expanded_origins.len() && expanded_origins[r] == (e, t);
                        assert(origins[kept_origins.len() + r] == (e, t));
                    }
                }
                lemma_grown_list_exact(ls, sel, c as int, before, after, origins);
                lemma_pow2_pos(ls.free_bits(c as int));
                lemma_retained_shape(
                    ls.candidates(c as int, ls.separator_value(c as int, before[0])),
                    ls.free_count(c as int),
                );
                assert(origins.contains((0, 0)));
            }
            let ghost kept_rows = rows(kept@);
            let ghost expanded_rows = rows(expanded@);
            kept.append(&mut expanded);
            proof {
                assert(rows(kept@) =~= kept_rows + expanded_rows);
                assert(rows(kept@) == ls.eliminated_strings(c + 1));
            }
            glob_opt_strings = kept;
            c = c + 1;
        }
        proof {
            assert forall|x: Seq<u32>| rows(glob_opt_strings@).contains(x) <==> ls.eliminated_optimum(x) by {
                ls.lemma_elimination_final_stage(x);
            }
        }
        glob_opt_strings
    }

    /// The global optima of a landscape by variable elimination over the
    /// clique tree. Each optimum comes with the score, which is the score
    /// recorded for the root.
    pub fn calculate_global_optima_by_elimination(
        input_parameters: &InputParameters,
        codomain_values: &[Vec<i64>],
        cliques: &[Vec<u32>],
        separators: &[Vec<u32>],
    ) -> (optima: Vec<(Vec<u32>, i128)>)
        requires
            solvable(*input_parameters, codomain_values@, cliques@, separators@),
        ensures
            optima@.len() >= 1,
            forall|r: int|
                0 <= r < optima@.len() ==> (#[trigger] optima@[r]).1 == landscape_of(
                    *input_parameters,
                    cliques@,
                    codomain_values@,
                ).eliminated_score(),
            solutions(optima@) == landscape_of(
                *input_parameters,
                cliques@,
                codomain_values@,
            ).eliminated_strings(input_parameters.m as int),
            solutions(optima@).no_duplicates(),
            forall|x: Seq<u32>|
                solutions(optima@).contains(x) <==> landscape_of(
                    *input_parameters,
                    cliques@,
                    codomain_values@,
                ).eliminated_optimum(x),
    {
        let ghost ls = landscape_of(*input_parameters, cliques@, codomain_values@);
        let (best_scores, best_ties) = CliqueTree::eliminate(
            input_parameters,
            codomain_values,
            cliques,
            separators,
        );
        let glob_opt_strings = CliqueTree::assemble_optima(
            input_parameters,
            codomain_values,
            cliques,
            separators,
            &best_ties,
        );
        proof {
            lemma2_to64();
            assert(ls.separator_count(0) == 1);
        }
        let glob_opt_score: i128 = best_scores[0][0];
        let mut optima: Vec<(Vec<u32>, i128)> = Vec::new();
        let ghost strings = rows(glob_opt_strings@);
        let count: usize = glob_opt_strings.len();
        let mut r: usize = 0;
        while r < count
            invariant
                r <= count == glob_opt_strings@.len(),
                strings == rows(glob_opt_strings@),
                optima@.len() == r,
                forall|e: int| 0 <= e < r ==> (#[trigger] optima@[e]).1 == glob_opt_score,
                forall|e: int| 0 <= e < r ==> (#[trigger] optima@[e]).0@ == strings[e],
            decreases count - r,
        {
            let copy = take_prefix(&glob_opt_strings[r], glob_opt_strings[r].len());
            proof {
                assert(copy@ =~= strings[r as int]);
            }
            optima.push((copy, glob_opt_score));
            r = r + 1;
        }
        proof {
            assert(solutions(optima@) =~= strings);
        }
        optima
    }
}

} // verus!
