//! The global optima of a landscape whose cliques share no variables.

use vstd::prelude::*;
use vstd::arithmetic::power2::{pow2, lemma_pow2_pos, lemma_pow2_strictly_increases, lemma2_to64};
use crate::problem::bit_strings::{bits_of, index_to_substring};
use crate::problem::clique_tree::{CliqueTree, InputParameters};
use crate::problem::construction::take_prefix;
use crate::problem::evaluation::positions_within;
use crate::problem::expansion::{
    accepted, all_grown_from, all_zero, grown_from, lemma_grown_list_exact, lists_exactly,
    overwritten, selection_ranged, staged, Selection,
};
use crate::problem::fitness::{is_better_fitness, is_equal_fitness};
use crate::problem::landscape::{landscape_of, rows, Landscape};
use crate::problem::optimum::{
    as_positions, increasing_below, lemma_increasing_distinct, lemma_retained_from_first_shape,
    retained_from_first, scores_of, solutions,
};

verus! {

/// A copy of `base` in which the variables that `positions` holds from
/// `from` on have the values in `bits`.
pub fn extend_string(base: &Vec<u32>, positions: &Vec<u32>, from: usize, bits: &Vec<u32>) -> (string: Vec<u32>)
    requires
        from <= positions@.len(),
        bits@.len() == positions@.len() - from,
        positions_within(positions@, base@.len() as int),
        positions@.no_duplicates(),
    ensures
        string@ == overwritten(base@, positions@.subrange(from as int, positions@.len() as int), bits@),
{
    let ghost part = positions@.subrange(from as int, positions@.len() as int);
    let mut string: Vec<u32> = Vec::new();
    let mut v: usize = 0;
    while v < base.len()
        invariant
            v <= base@.len(),
            string@ == base@.subrange(0, v as int),
        decreases base@.len() - v,
    {
        string.push(base[v]);
        proof {
            assert(string@ =~= base@.subrange(0, v + 1));
        }
        v = v + 1;
    }
    proof {
        assert(string@ =~= base@);
        assert(overwritten(base@, part.subrange(0, 0), bits@.subrange(0, 0)) =~= base@);
    }
    let total: usize = positions.len();
    let mut t: usize = 0;
    while t < bits.len()
        invariant
            t <= bits@.len(),
            total == positions@.len(),
            from <= positions@.len(),
            bits@.len() == positions@.len() - from,
            positions_within(positions@, base@.len() as int),
            positions@.no_duplicates(),
            part == positions@.subrange(from as int, positions@.len() as int),
            string@.len() == base@.len(),
            string@ == overwritten(base@, part.subrange(0, t as int), bits@.subrange(0, t as int)),
        decreases bits@.len() - t,
    {
        let ghost before = string@;
        let position: usize = positions[from + t] as usize;
        string[position] = bits[t];
        proof {
            let part_before = part.subrange(0, t as int);
            let part_after = part.subrange(0, t + 1);
            let bits_before = bits@.subrange(0, t as int);
            let bits_after = bits@.subrange(0, t + 1);
            let target = overwritten(base@, part_after, bits_after);
            assert(part[t as int] == positions@[from + t]);
            assert(part_after[t as int] == position);
            assert forall|w: int| 0 <= w < base@.len() implies string@[w] == target[w] by {
                if w == position {
                    assert(part_after[t as int] == w);
                    assert forall|e: int| 0 <= e < t implies part_after[e] != w as u32 by {
                        assert(part_after[e] == positions@[from + e]);
                    }
                    crate::problem::optimum::lemma_first_position(part_after, w as u32, t as int);
                } else if w <= u32::MAX {
                    if part_after.contains(w as u32) {
                        let e = choose|e: int| 0 <= e < part_after.len() && part_after[e] == w as u32;
                        assert(e < t);
                        assert(part_before[e] == w as u32);
                        crate::problem::expansion::lemma_first_position_exists(part_before, w as u32, e);
                        let first_before = crate::problem::optimum::first_position(part_before, w as u32);
                        assert(part_after[first_before] == w as u32);
                        assert forall|g: int| 0 <= g < first_before implies part_after[g] != w as u32 by {
                            if part_after[g] == w as u32 {
                                assert(part_before[g] == w as u32);
                                crate::problem::expansion::lemma_first_position_exists(part_before, w as u32, g);
                            }
                        }
                        crate::problem::optimum::lemma_first_position(part_after, w as u32, first_before);
                        assert(bits_after[first_before] == bits_before[first_before]);
                    } else {
                        if part_before.contains(w as u32) {
                            let e = choose|e: int| 0 <= e < part_before.len() && part_before[e] == w as u32;
                            assert(part_after[e] == w as u32);
                        }
                    }
                }
            }
            assert(string@ =~= target);
        }
        t = t + 1;
    }
    proof {
        assert(part.subrange(0, t as int) =~= part);
        assert(bits@.subrange(0, t as int) =~= bits@);
    }
    string
}

/// The table indices that the scan of a separable clique keeps.
pub fn separable_clique_optima(table: &Vec<i64>) -> (kept: Vec<u32>)
    requires
        1 <= table@.len() <= 0x8000_0000,
    ensures
        as_positions(kept@) == retained_from_first(scores_of(table@), table@.len() as int),
{
    let ghost scores = scores_of(table@);
    let mut highest_score: i128 = table[0] as i128;
    let mut kept: Vec<u32> = Vec::new();
    kept.push(0);
    let mut j: usize = 1;
    proof {
        assert(as_positions(kept@) =~= retained_from_first(scores, 1));
    }
    while j < table.len()
        invariant
            1 <= j <= table@.len() <= 0x8000_0000,
            scores == scores_of(table@),
            kept@.len() >= 1,
            as_positions(kept@) == retained_from_first(scores, j as int),
            0 <= kept@[0] < j,
            highest_score == scores[kept@[0] as int],
        decreases table@.len() - j,
    {
        let score: i128 = table[j] as i128;
        let ghost before = as_positions(kept@);
        proof {
            assert(before[0] == kept@[0]);
        }
        if is_equal_fitness(score, highest_score) {
            kept.push(j as u32);
            proof {
                assert(as_positions(kept@) =~= before.push(j as int));
            }
        } else if is_better_fitness(score, highest_score) {
            highest_score = score;
            kept.clear();
            kept.push(j as u32);
            proof {
                assert(as_positions(kept@) =~= seq![j as int]);
            }
        }
        j = j + 1;
    }
    kept
}

/// The selection of the separable solver: for every separator value the
/// table indices that the scan of the clique keeps.
pub open spec fn separable_selection(ls: Landscape) -> Selection {
    |i: int, s: int| ls.separable_ties(i)
}

impl Landscape {
    pub proof fn lemma_separable_selection_ranged(&self)
        requires
            self.well_formed(),
            self.o() == 0,
        ensures
            selection_ranged(*self, separable_selection(*self)),
    {
        let sel = separable_selection(*self);
        assert forall|i: int, s: int| 0 <= i < self.m() implies (#[trigger] sel(i, s)).no_duplicates()
            && forall|a: int| 0 <= a < sel(i, s).len() ==> 0 <= #[trigger] sel(i, s)[a] < self.free_count(i) by {
            lemma_pow2_pos(self.k() as nat);
            lemma_retained_from_first_shape(self.table_scores(i), pow2(self.k() as nat) as int);
            lemma_increasing_distinct(self.separable_ties(i), pow2(self.k() as nat) as int);
        }
    }

    /// Without shared variables, the assignments staged after the last
    /// clique are those that the separable solver reports.
    pub proof fn lemma_separable_final_stage(&self, x: Seq<u32>)
        requires
            self.well_formed(),
            self.o() == 0,
        ensures
            staged(*self, separable_selection(*self), self.m(), x) <==> self.separable_optimum(x),
    {
        let sel = separable_selection(*self);
        assert forall|i: int| 0 <= i < self.m() implies self.private_value(i, x) == self.clique_index(i, x) by {
            assert(self.private_part(i) =~= self.cliques[i]);
        }
        if staged(*self, sel, self.m(), x) {
            assert forall|i: int| 0 <= i < self.m() implies self.separable_ties(i).contains(
                #[trigger] self.clique_index(i, x) as int,
            ) by {
                assert(accepted(*self, sel, i, x));
            }
        }
        if self.separable_optimum(x) {
            assert forall|c: int| 0 <= c < self.m() implies #[trigger] accepted(*self, sel, c, x) by {
                assert(self.separable_ties(c).contains(self.clique_index(c, x) as int));
            }
        }
    }
}

/// Every list holds the table indices that the scan of its clique keeps.
pub open spec fn optima_recorded(ls: Landscape, clique_optimas: Seq<Vec<u32>>, count: int) -> bool {
    &&& clique_optimas.len() == count
    &&& forall|i: int| 0 <= i < count ==> as_positions((#[trigger] clique_optimas[i])@) == ls.separable_ties(i)
}

impl CliqueTree {
    /// Builds the global optima from the best table indices of the cliques:
    /// for every clique from `current_index` on, every string so far is
    /// copied once for each of the best indices of the clique, and gets the
    /// bits of that index at the variables of the clique.
    fn set_optimal_clique_substrings(
        input_parameters: &InputParameters,
        cliques: &[Vec<u32>],
        result_optima_strings: &mut Vec<Vec<u32>>,
        clique_optimas: &Vec<Vec<u32>>,
        current_index: usize,
        Ghost(tables): Ghost<Seq<Vec<i64>>>,
    )
        requires
            landscape_of(*input_parameters, cliques@, tables).well_formed(),
            input_parameters.o == 0,
            current_index <= input_parameters.m,
            optima_recorded(
                landscape_of(*input_parameters, cliques@, tables),
                clique_optimas@,
                input_parameters.m as int,
            ),
            old(result_optima_strings)@.len() >= 1,
            rows(old(result_optima_strings)@) == landscape_of(
                *input_parameters,
                cliques@,
                tables,
            ).separable_strings(current_index as int),
            lists_exactly(
                rows(old(result_optima_strings)@),
                landscape_of(*input_parameters, cliques@, tables),
                separable_selection(landscape_of(*input_parameters, cliques@, tables)),
                current_index as int,
            ),
        ensures
            final(result_optima_strings)@.len() >= 1,
            rows(final(result_optima_strings)@) == landscape_of(
                *input_parameters,
                cliques@,
                tables,
            ).separable_strings(input_parameters.m as int),
            lists_exactly(
                rows(final(result_optima_strings)@),
                landscape_of(*input_parameters, cliques@, tables),
                separable_selection(landscape_of(*input_parameters, cliques@, tables)),
                input_parameters.m as int,
            ),
    {
        let ghost ls = landscape_of(*input_parameters, cliques@, tables);
        let ghost sel = separable_selection(ls);
        let m: usize = input_parameters.m as usize;
        proof {
            ls.lemma_separable_selection_ranged();
            lemma2_to64();
            lemma_pow2_strictly_increases(ls.k() as nat, 32);
        }
        let mut i: usize = current_index;
        while i < m
            invariant
                ls == landscape_of(*input_parameters, cliques@, tables),
                sel == separable_selection(ls),
                ls.well_formed(),
                ls.o() == 0,
                selection_ranged(ls, sel),
                optima_recorded(ls, clique_optimas@, m as int),
                m == ls.m(),
                i <= m,
                pow2(ls.k() as nat) < 0x1_0000_0000,
                result_optima_strings@.len() >= 1,
                rows(result_optima_strings@) == ls.separable_strings(i as int),
                lists_exactly(rows(result_optima_strings@), ls, sel, i as int),
            decreases m - i,
        {
            proof {
                assert(ls.cliques[i as int] == cliques@[i as int]@);
                assert(ls.cliques[i as int].no_duplicates());
                lemma_pow2_pos(ls.k() as nat);
                lemma_retained_from_first_shape(ls.table_scores(i as int), pow2(ls.k() as nat) as int);
            }
            let highest_score_indices = &clique_optimas[i];

            // One copy of every string so far for each of the best indices.
            let ghost before = rows(result_optima_strings@);
            let ghost choices = ls.separable_ties(i as int);
            let length_before: usize = result_optima_strings.len();
            let mut grown: Vec<Vec<u32>> = Vec::new();
            let ghost mut origins: Seq<(int, int)> = Seq::empty();
            let mut num: usize = 0;
            while num < highest_score_indices.len()
                invariant
                    ls == landscape_of(*input_parameters, cliques@, tables),
                    sel == separable_selection(ls),
                    ls.well_formed(),
                    ls.o() == 0,
                    i < m == ls.m(),
                    before == rows(result_optima_strings@),
                    length_before == before.len(),
                    length_before >= 1,
                    lists_exactly(before, ls, sel, i as int),
                    choices == ls.separable_ties(i as int),
                    choices == as_positions(highest_score_indices@),
                    increasing_below(choices, pow2(ls.k() as nat) as int),
                    pow2(ls.k() as nat) < 0x1_0000_0000,
                    num <= highest_score_indices@.len(),
                    all_grown_from(ls, sel, i as int, before, origins, rows(grown@)),
                    origins.no_duplicates(),
                    origins.len() == num * length_before,
                    forall|r: int|
                        0 <= r < origins.len() ==> #[trigger] origins[r] == (
                            r % (length_before as int),
                            r / (length_before as int),
                        ),
                    forall|r: int| 0 <= r < origins.len() ==> (#[trigger] origins[r]).1 < num,
                    forall|a: int, b: int|
                        0 <= a < length_before && 0 <= b < num ==> origins.contains((a, b)),
                decreases highest_score_indices@.len() - num,
            {
                proof {
                    assert(choices[num as int] == highest_score_indices@[num as int]);
                }
                let substring = index_to_substring(highest_score_indices[num], input_parameters.k);
                let mut idx: usize = 0;
                while idx < length_before
                    invariant
                        ls == landscape_of(*input_parameters, cliques@, tables),
                        sel == separable_selection(ls),
                        ls.well_formed(),
                        ls.o() == 0,
                        i < m == ls.m(),
                        before == rows(result_optima_strings@),
                        length_before == before.len(),
                        lists_exactly(before, ls, sel, i as int),
                        choices == ls.separable_ties(i as int),
                        choices == as_positions(highest_score_indices@),
                        num < highest_score_indices@.len(),
                        substring@ == bits_of(choices[num as int] as nat, ls.k() as nat),
                        idx <= length_before,
                        all_grown_from(ls, sel, i as int, before, origins, rows(grown@)),
                        origins.no_duplicates(),
                        length_before >= 1,
                        origins.len() == num * length_before + idx,
                        forall|r: int|
                            0 <= r < origins.len() ==> #[trigger] origins[r] == (
                                r % (length_before as int),
                                r / (length_before as int),
                            ),
                        forall|r: int|
                            0 <= r < origins.len() ==> (#[trigger] origins[r]).1 < num || (origins[r].1 == num
                                && origins[r].0 < idx),
                        forall|a: int, b: int|
                            0 <= a < length_before && 0 <= b < num ==> origins.contains((a, b)),
                        forall|a: int| 0 <= a < idx ==> origins.contains((a, num as int)),
                    decreases length_before - idx,
                {
                    proof {
                        assert(before.contains(before[idx as int]));
                        assert(staged(ls, sel, i as int, before[idx as int]));
                        assert(before[idx as int] == result_optima_strings@[idx as int]@);
                        assert(ls.cliques[i as int] == cliques@[i as int]@);
                        assert(ls.cliques[i as int].no_duplicates());
                        assert forall|j: int| 0 <= j < cliques@[i as int]@.len() implies (#[trigger] cliques@[i as int]@[j])
                            < before[idx as int].len() by {
                            assert(ls.cliques[i as int][j] < ls.size());
                        }
                    }
                    let string = extend_string(&result_optima_strings[idx], &cliques[i], 0, &substring);
                    let ghost old_origins = origins;
                    let ghost old_grown = rows(grown@);
                    grown.push(string);
                    proof {
                        let place = num * length_before + idx;
                        assert(length_before * num == num * length_before) by (nonlinear_arith);
                        vstd::arithmetic::div_mod::lemma_fundamental_div_mod_converse(
                            place,
                            length_before as int,
                            num as int,
                            idx as int,
                        );
                        origins = origins.push((idx as int, num as int));
                        assert forall|r: int| 0 <= r < origins.len() implies #[trigger] origins[r] == (
                            r % (length_before as int),
                            r / (length_before as int),
                        ) by {
                            if r < old_origins.len() {
                                assert(origins[r] == old_origins[r]);
                            }
                        }
                        assert(ls.private_part(i as int) =~= cliques@[i as int]@.subrange(
                            0,
                            cliques@[i as int]@.len() as int,
                        ));
                        assert(sel(i as int, ls.separator_value(i as int, before[idx as int])) == choices);
                        assert forall|r: int| 0 <= r < grown@.len() implies grown_from(
                            ls,
                            sel,
                            i as int,
                            before,
                            #[trigger] origins[r],
                            rows(grown@)[r],
                        ) by {
                            if r < old_origins.len() {
                                assert(origins[r] == old_origins[r]);
                                assert(rows(grown@)[r] == old_grown[r]);
                            }
                        }
                        assert forall|a: int, b: int|
                            0 <= a < length_before && 0 <= b < num implies origins.contains((a, b)) by {
                            assert(old_origins.contains((a, b)));
                            let r = choose|r: int| 0 <= r < old_origins.len() && old_origins[r] == (a, b);
                            assert(origins[r] == (a, b));
                        }
                        assert forall|a: int| 0 <= a < idx + 1 implies origins.contains((a, num as int)) by {
                            if a < idx {
                                assert(old_origins.contains((a, num as int)));
                                let r = choose|r: int| 0 <= r < old_origins.len() && old_origins[r] == (a, num as int);
                                assert(origins[r] == (a, num as int));
                            } else {
                                assert(origins[old_origins.len() as int] == (a, num as int));
                            }
                        }
                    }
                    idx = idx + 1;
                }
                proof {
                    assert((num + 1) * length_before == num * length_before + length_before) by (nonlinear_arith);
                }
                num = num + 1;
            }
            proof {
                assert forall|a: int, b: int|
                    0 <= a < before.len() && 0 <= b < sel(i as int, ls.separator_value(i as int, before[a])).len()
                    implies origins.contains((a, b)) by {}
                lemma_grown_list_exact(ls, sel, i as int, before, rows(grown@), origins);
                assert(origins.contains((0, 0)));
                let after = ls.separable_strings(i + 1);
                assert(before.len() * choices.len() == num * length_before) by (nonlinear_arith)
                    requires
                        before.len() == length_before,
                        choices.len() == num,
                ;
                assert forall|r: int| 0 <= r < after.len() implies rows(grown@)[r] == after[r] by {
                    assert(grown_from(ls, sel, i as int, before, origins[r], rows(grown@)[r]));
                }
                assert(rows(grown@) =~= after);
            }
            *result_optima_strings = grown;
            i = i + 1;
        }
    }

    /// The global optima of a landscape whose cliques share no variables:
    /// every clique is scanned for the table indices of its best values, the
    /// score is the sum of the best values, and the optima are all
    /// combinations of the best indices of the cliques. Each optimum comes
    /// with the score.
    ///
    /// The number of optima is the product of the numbers of best indices of
    /// the cliques, and all of them are built.
    pub fn calculate_global_optimum_separable(
        input_parameters: &InputParameters,
        codomain_values: &[Vec<i64>],
        cliques: &[Vec<u32>],
    ) -> (optima: Vec<(Vec<u32>, i128)>)
        requires
            landscape_of(*input_parameters, cliques@, codomain_values@).well_formed(),
            input_parameters.o == 0,
        ensures
            optima@.len() >= 1,
            forall|r: int|
                0 <= r < optima@.len() ==> (#[trigger] optima@[r]).1 == landscape_of(
                    *input_parameters,
                    cliques@,
                    codomain_values@,
                ).separable_score(),
            solutions(optima@) == landscape_of(
                *input_parameters,
                cliques@,
                codomain_values@,
            ).separable_strings(input_parameters.m as int),
            solutions(optima@).no_duplicates(),
            forall|x: Seq<u32>|
                solutions(optima@).contains(x) <==> landscape_of(
                    *input_parameters,
                    cliques@,
                    codomain_values@,
                ).separable_optimum(x),
    {
        let ghost ls = landscape_of(*input_parameters, cliques@, codomain_values@);
        let ghost sel = separable_selection(ls);
        let m: usize = input_parameters.m as usize;
        let size: u32 = input_parameters.number_of_variables();

        // The best table indices of every clique, and the sum of the best
        // values.
        let mut glob_opt_score: i128 = 0;
        let mut clique_optimas: Vec<Vec<u32>> = Vec::new();
        let mut i: usize = 0;
        while i < m
            invariant
                ls == landscape_of(*input_parameters, cliques@, codomain_values@),
                ls.well_formed(),
                m == ls.m(),
                i <= m,
                optima_recorded(ls, clique_optimas@, i as int),
                glob_opt_score == ls.separable_partial_score(i as int),
                -Landscape::fitness_bound(i as int) <= glob_opt_score <= Landscape::fitness_bound(i as int),
            decreases m - i,
        {
            proof {
                assert(ls.tables[i as int] == codomain_values@[i as int]@);
                lemma_pow2_pos(ls.k() as nat);
                lemma_retained_from_first_shape(ls.table_scores(i as int), pow2(ls.k() as nat) as int);
                if ls.k() < 31 {
                    lemma_pow2_strictly_increases(ls.k() as nat, 31);
                }
                lemma2_to64();
                assert(ls.tables[i as int].len() == pow2(ls.k() as nat));
                assert(Landscape::fitness_bound(i as int) <= 0x1_0000_0000 * 0x8000_0000_0000_0000) by (nonlinear_arith)
                    requires
                        i <= 0x1_0000_0000,
                ;
            }
            let highest_score_indices = separable_clique_optima(&codomain_values[i]);
            proof {
                assert(as_positions(highest_score_indices@)[0] == highest_score_indices@[0]);
            }
            glob_opt_score = glob_opt_score + codomain_values[i][highest_score_indices[0] as usize] as i128;
            clique_optimas.push(highest_score_indices);
            i = i + 1;
        }

        // The global optima, starting from the string of zeros.
        let mut zero: Vec<u32> = Vec::new();
        let mut v: u32 = 0;
        while v < size
            invariant
                v <= size,
                zero@ =~= all_zero(v as int),
            decreases size - v,
        {
            zero.push(0);
            v = v + 1;
        }
        let mut result_optima_strings: Vec<Vec<u32>> = Vec::new();
        result_optima_strings.push(zero);
        proof {
            ls.lemma_initial_stage(sel);
            assert(rows(result_optima_strings@) =~= seq![all_zero(ls.size())]);
            assert(rows(result_optima_strings@) == ls.separable_strings(0));
        }
        CliqueTree::set_optimal_clique_substrings(
            input_parameters,
            cliques,
            &mut result_optima_strings,
            &clique_optimas,
            0,
            Ghost(codomain_values@),
        );

        let mut optima: Vec<(Vec<u32>, i128)> = Vec::new();
        let ghost strings = rows(result_optima_strings@);
        let mut r: usize = 0;
        let count: usize = result_optima_strings.len();
        while r < count
            invariant
                r <= count == result_optima_strings@.len(),
                strings == rows(result_optima_strings@),
                optima@.len() == r,
                forall|e: int| 0 <= e < r ==> (#[trigger] optima@[e]).1 == glob_opt_score,
                forall|e: int| 0 <= e < r ==> (#[trigger] optima@[e]).0@ == strings[e],
            decreases count - r,
        {
            let copy = take_prefix(&result_optima_strings[r], result_optima_strings[r].len());
            proof {
                assert(copy@ =~= strings[r as int]);
            }
            optima.push((copy, glob_opt_score));
            r = r + 1;
        }
        proof {
            assert(solutions(optima@) =~= strings);
            assert forall|x: Seq<u32>| solutions(optima@).contains(x) <==> ls.separable_optimum(x) by {
                ls.lemma_separable_final_stage(x);
            }
        }
        optima
    }
}

} // verus!
