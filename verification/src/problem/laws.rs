//! What holds of every clique tree: its stored optima are optimal, and a
//! table with two maxima gives two optima.

use vstd::prelude::*;
use vstd::arithmetic::power2::pow2;
use crate::problem::bit_strings::{bit_at, bits_of, gather, lemma_bits_value_injective};
use crate::problem::clique_tree::CliqueTree;
use crate::problem::evaluation::{lemma_gather_is_bits, positions_within};
use crate::problem::expansion::{all_zero, extended};
use crate::problem::fitness::{better_fitness, SolutionFit};
use crate::problem::landscape::{has_owner, is_assignment, is_private, rows, Landscape};
use crate::problem::optimum::{retained_from_first, scores_of, solutions};
use crate::problem::separable::separable_selection;

verus! {

/// In a clique tree on which every scan of the solver keeps exactly the
/// maxima of what it scans, no assignment has a fitness above the stored
/// score, and the stored optima are exactly the assignments whose fitness is
/// the stored score.
pub proof fn lemma_stored_optima_are_optimal(tree: CliqueTree, x: Seq<u32>)
    requires
        tree.well_formed(),
        tree.landscape().exact(),
        is_assignment(x, tree.landscape().size()),
    ensures
        tree.landscape().fitness(x) <= tree.glob_optima_score,
        rows(tree.glob_optima_strings@).contains(x) <==> tree.landscape().fitness(x) == tree.glob_optima_score,
{
    tree.landscape().lemma_reported_optimal(x);
}

/// In a clique tree on which every scan of the solver keeps exactly the
/// maxima of what it scans, a solution that comes with its fitness counts as a
/// global optimum if and only if no assignment has a higher fitness.
pub proof fn lemma_optimum_is_recognised(tree: CliqueTree, solution_fit: SolutionFit)
    requires
        tree.well_formed(),
        tree.landscape().exact(),
        is_assignment(solution_fit.solution@, tree.landscape().size()),
        solution_fit.fitness == tree.landscape().fitness(solution_fit.solution@),
    ensures
        tree.counts_as_optimum(solution_fit) <==> forall|y: Seq<u32>|
            is_assignment(y, tree.landscape().size()) ==> #[trigger] tree.landscape().fitness(y)
                <= solution_fit.fitness,
{
    let ls = tree.landscape();
    let x = solution_fit.solution@;
    ls.lemma_reported_optimal(x);
    if tree.counts_as_optimum(solution_fit) {
        assert(ls.fitness(x) == ls.reported_score());
        assert forall|y: Seq<u32>| is_assignment(y, ls.size()) implies #[trigger] ls.fitness(y)
            <= solution_fit.fitness by {
            ls.lemma_reported_optimal(y);
        }
    }
    if forall|y: Seq<u32>| is_assignment(y, ls.size()) ==> #[trigger] ls.fitness(y) <= solution_fit.fitness {
        let best = if ls.o() == 0 {
            ls.lemma_separable_optimum_exists()
        } else {
            ls.lemma_eliminated_optimum_exists()
        };
        assert(ls.reported_optimum(best));
        ls.lemma_reported_optimal(best);
        assert(ls.fitness(best) <= solution_fit.fitness);
    }
}

/// Where the scan of a separable clique resets at the position `p` and
/// meets, after `p`, one more score within the tolerance of the score at `p`,
/// at `q`, and none that beats it, it keeps `p` and `q` and nothing else.
pub proof fn lemma_scan_keeps_two(scores: Seq<int>, p: int, q: int, upto: int)
    requires
        0 <= p < q,
        p < upto,
        scores[p] == scores[q],
        p == 0 || better_fitness(scores[p], scores[retained_from_first(scores, p)[0]]),
        forall|e: int| p < e < upto && e != q ==> better_fitness(scores[p], #[trigger] scores[e]),
    ensures
        retained_from_first(scores, upto) == if upto <= q {
            seq![p]
        } else {
            seq![p, q]
        },
    decreases upto,
{
    if upto == p + 1 {
        if p == 0 {
            assert(retained_from_first(scores, 1) =~= seq![0int]);
        } else {
            let kept = retained_from_first(scores, p);
            assert(retained_from_first(scores, p + 1) =~= seq![p]);
        }
    } else {
        lemma_scan_keeps_two(scores, p, q, upto - 1);
        let kept = retained_from_first(scores, upto - 1);
        let candidate = upto - 1;
        assert(kept[0] == p);
        if candidate == q {
            assert(kept =~= seq![p]);
            assert(kept.push(q) =~= seq![p, q]);
        } else {
            assert(better_fitness(scores[p], scores[candidate]));
        }
    }
}

impl Landscape {
    /// An assignment that gives the root the table index `index` has the
    /// digits of the index at the variables of the root, the first variable
    /// having the most significant digit.
    pub proof fn lemma_index_gives_bits(&self, x: Seq<u32>, index: int)
        requires
            self.well_formed(),
            is_assignment(x, self.size()),
            self.clique_index(0, x) == index,
        ensures
            forall|j: int|
                0 <= j < self.k() ==> x[(#[trigger] self.cliques[0][j]) as int] == bit_at(
                    index as nat,
                    self.k() as nat,
                    j,
                ),
    {
        self.lemma_clique_index_split(0, x);
        let bits = bits_of(index as nat, self.k() as nat);
        assert forall|j: int| 0 <= j < self.k() implies x[(#[trigger] self.cliques[0][j]) as int] == bit_at(
            index as nat,
            self.k() as nat,
            j,
        ) by {
            assert(gather(x, self.cliques[0])[j] == x[self.cliques[0][j] as int]);
            assert(bits[j] == bit_at(index as nat, self.k() as nat, j));
        }
    }

    /// In a landscape of one clique, two assignments with the same table
    /// index are the same.
    pub proof fn lemma_single_clique_injective(&self, x: Seq<u32>, y: Seq<u32>)
        requires
            self.well_formed(),
            self.m() == 1,
            is_assignment(x, self.size()),
            is_assignment(y, self.size()),
            self.clique_index(0, x) == self.clique_index(0, y),
        ensures
            x == y,
    {
        let clique = self.cliques[0];
        assert(positions_within(clique, self.size())) by {
            assert forall|j: int| 0 <= j < clique.len() implies (#[trigger] clique[j]) < self.size() by {
                assert(self.cliques[0][j] < self.size());
            }
        }
        lemma_gather_is_bits(x, clique);
        lemma_gather_is_bits(y, clique);
        lemma_bits_value_injective(gather(x, clique), gather(y, clique));
        assert forall|v: int| 0 <= v < x.len() implies x[v] == y[v] by {
            assert(has_owner(self.parameters, self.cliques, v));
            let (i, j) = choose|i: int, j: int|
                is_private(self.parameters, i, j) && #[trigger] self.cliques[i][j] == v;
            assert(gather(x, clique)[j] == x[v]);
            assert(gather(y, clique)[j] == y[v]);
        }
        assert(x =~= y);
    }

    /// In a landscape of one clique without shared variables, the fitness
    /// of an assignment is the table value at its index.
    pub proof fn lemma_single_clique_fitness(&self, x: Seq<u32>)
        requires
            self.m() == 1,
        ensures
            self.fitness(x) == self.tables[0][self.clique_index(0, x) as int],
            self.separable_score() == self.tables[0][self.separable_ties(0)[0]],
    {
        assert(self.partial_fitness(x, 1) == self.partial_fitness(x, 0) + self.contribution(0, x));
        assert(self.separable_partial_score(1) == self.separable_partial_score(0) + self.tables[0][self.separable_ties(
            0,
        )[0]]);
    }
}

/// For a landscape of one clique without shared variables, whose table has
/// its maximum at exactly two indices `p` and `q`, the solver returns exactly
/// two optima, first the one that gives the clique the index `p` and then the
/// one that gives it the index `q`, and both have the maximum as their score
/// and as their fitness. This holds where the scan keeps nothing beside the
/// two: the maximum beats what the scan kept before `p`, and beats every other
/// value after `p`, by the tolerance or more.
pub proof fn lemma_two_maxima_two_optima(ls: Landscape, optima: Seq<(Vec<u32>, i128)>, p: int, q: int)
    requires
        ls.well_formed(),
        ls.m() == 1,
        ls.o() == 0,
        0 <= p < q < pow2(ls.k() as nat),
        ls.tables[0][p] == ls.tables[0][q],
        forall|e: int|
            0 <= e < pow2(ls.k() as nat) && e != p && e != q ==> (#[trigger] ls.tables[0][e]) < ls.tables[0][p],
        p == 0 || better_fitness(
            ls.tables[0][p] as int,
            ls.tables[0][retained_from_first(scores_of(ls.tables[0]), p)[0]] as int,
        ),
        forall|e: int|
            p < e < pow2(ls.k() as nat) && e != q ==> better_fitness(
                ls.tables[0][p] as int,
                (#[trigger] ls.tables[0][e]) as int,
            ),
        solutions(optima) == ls.reported_strings(),
        solutions(optima).no_duplicates(),
        forall|x: Seq<u32>| solutions(optima).contains(x) <==> ls.reported_optimum(x),
        forall|r: int| 0 <= r < optima.len() ==> (#[trigger] optima[r]).1 == ls.reported_score(),
    ensures
        optima.len() == 2,
        ls.clique_index(0, optima[0].0@) == p,
        ls.clique_index(0, optima[1].0@) == q,
        forall|j: int|
            0 <= j < ls.k() ==> optima[0].0@[(#[trigger] ls.cliques[0][j]) as int] == bit_at(
                p as nat,
                ls.k() as nat,
                j,
            ),
        forall|j: int|
            0 <= j < ls.k() ==> optima[1].0@[(#[trigger] ls.cliques[0][j]) as int] == bit_at(
                q as nat,
                ls.k() as nat,
                j,
            ),
        forall|r: int|
            0 <= r < optima.len() ==> (#[trigger] optima[r]).1 == ls.tables[0][p] && ls.fitness(optima[r].0@)
                == ls.tables[0][p],
{
    let scores = scores_of(ls.tables[0]);
    let count = pow2(ls.k() as nat) as int;
    let sols = solutions(optima);
    assert(ls.tables[0].len() == count);
    if p > 0 {
        crate::problem::optimum::lemma_retained_from_first_shape(scores, p);
        let h = retained_from_first(scores, p)[0];
        assert(scores[h] == ls.tables[0][h]);
    }
    assert forall|e: int| p < e < count && e != q implies better_fitness(scores[p], #[trigger] scores[e]) by {
        assert(scores[e] == ls.tables[0][e]);
    }
    lemma_scan_keeps_two(scores, p, q, count);
    let kept = ls.separable_ties(0);
    assert(kept == seq![p, q]);
    assert(kept[0] == p && kept[1] == q);

    // Both maxima are reached by an assignment that the solver reports.
    let sel = separable_selection(ls);
    ls.lemma_initial_stage(sel);
    let zero = all_zero(ls.size());
    assert(seq![zero][0] == zero);
    assert(seq![zero].contains(zero));
    assert(ls.free_count(0) == count);
    assert(sel(0, ls.separator_value(0, zero)) == kept);
    assert(kept.contains(p)) by {
        assert(kept[0] == p);
    }
    assert(kept.contains(q)) by {
        assert(kept[1] == q);
    }
    ls.lemma_extension_sound(sel, 0, zero, p);
    ls.lemma_extension_sound(sel, 0, zero, q);
    let xp = extended(ls, 0, zero, p);
    let xq = extended(ls, 0, zero, q);
    ls.lemma_separable_final_stage(xp);
    ls.lemma_separable_final_stage(xq);
    assert(ls.reported_optimum(xp));
    assert(ls.reported_optimum(xq));
    assert(sols.contains(xp));
    assert(sols.contains(xq));
    let rp = choose|r: int| 0 <= r < sols.len() && sols[r] == xp;
    let rq = choose|r: int| 0 <= r < sols.len() && sols[r] == xq;
    assert(rp != rq);

    assert forall|r: int| 0 <= r < optima.len() implies (#[trigger] optima[r]).1 == ls.tables[0][p] && ls.fitness(
        optima[r].0@,
    ) == ls.tables[0][p] && (sols[r] == xp || sols[r] == xq) by {
        let x = sols[r];
        assert(x == optima[r].0@);
        assert(sols.contains(x));
        assert(ls.reported_optimum(x));
        assert(ls.separable_optimum(x));
        ls.lemma_single_clique_fitness(x);
        let idx = ls.clique_index(0, x) as int;
        assert(kept.contains(idx));
        let w = choose|w: int| 0 <= w < kept.len() && kept[w] == idx;
        assert(idx == p || idx == q);
        assert(ls.private_part(0) =~= ls.cliques[0]);
        if idx == p {
            ls.lemma_single_clique_injective(x, xp);
        } else {
            ls.lemma_single_clique_injective(x, xq);
        }
    }
    // The order: one round of the string of zeros for each kept index.
    let first = ls.separable_strings(0);
    let listed = ls.separable_strings(1);
    assert(first =~= seq![zero]);
    assert(listed.len() == 2) by {
        assert(first.len() * kept.len() == 2) by (nonlinear_arith)
            requires
                first.len() == 1,
                kept.len() == 2,
        ;
    }
    assert(listed[0] == extended(ls, 0, first[0int % (first.len() as int)], kept[0int / (first.len() as int)]));
    assert(listed[1] == extended(ls, 0, first[1int % (first.len() as int)], kept[1int / (first.len() as int)]));
    assert(sols[0] == xp);
    assert(sols[1] == xq);
    assert(ls.private_part(0) =~= ls.cliques[0]);
    assert(optima[0].0@ == sols[0]);
    assert(optima[1].0@ == sols[1]);
    ls.lemma_index_gives_bits(xp, p);
    ls.lemma_index_gives_bits(xq, q);
    if optima.len() > 2 {
        let r = if rp != 0 && rq != 0 {
            0int
        } else if rp != 1 && rq != 1 {
            1int
        } else {
            2int
        };
        assert(sols[r] == xp || sols[r] == xq);
        assert(sols[r] == sols[rp] || sols[r] == sols[rq]);
    }
}

} // verus!
