//! Why the reported optima are the optima: on landscapes whose candidate
//! scores are either equal or apart by the tolerance or more, the solvers
//! report exactly the assignments of maximal fitness, with their fitness.

use vstd::prelude::*;
use vstd::arithmetic::power2::{pow2, lemma_pow2_pos};
use crate::problem::bit_strings::{
    bits_of, gather, lemma_bits_of_bits_value, lemma_bits_value_bound, lemma_bits_value_concat,
};
use crate::problem::evaluation::{lemma_gather_is_bits, positions_within};
use crate::problem::elimination::elimination_selection;
use crate::problem::expansion::{
    lemma_first_position_exists, lemma_staged_exists, selection_inhabited,
};
use crate::problem::separable::separable_selection;
use crate::problem::fitness::{
    better_fitness, better_or_equal_fitness, equal_fitness, FITNESS_EPSILON,
};
use crate::problem::landscape::{is_assignment, is_child, Landscape};
use crate::problem::optimum::{
    child_separator_substring, lemma_retained_from_first_shape, lemma_retained_shape, retained,
    retained_from_first,
};
use crate::problem::subtree::{lemma_root_covers, range_sum, span_sum, subtree_sum};

verus! {

/// Any two of the first `upto` scores are equal or apart by the tolerance
/// or more.
pub open spec fn crisp(scores: Seq<int>, upto: int) -> bool {
    forall|a: int, b: int|
        #![trigger scores[a], scores[b]]
        0 <= a < upto && 0 <= b < upto ==> scores[a] == scores[b] || better_fitness(scores[a], scores[b])
            || better_fitness(scores[b], scores[a])
}

/// None of the first `upto` scores is higher than the score at `j`.
pub open spec fn is_maximal(scores: Seq<int>, upto: int, j: int) -> bool {
    &&& 0 <= j < upto
    &&& forall|e: int| 0 <= e < upto ==> scores[e] <= scores[j]
}

/// The positions kept are exactly those of the maximal score.
pub open spec fn keeps_maxima(kept: Seq<int>, scores: Seq<int>, upto: int) -> bool {
    forall|j: int| kept.contains(j) <==> is_maximal(scores, upto, j)
}

/// On crisp scores the scan of variable elimination keeps exactly the
/// positions of the maximal score.
pub proof fn lemma_retained_crisp(scores: Seq<int>, upto: int)
    requires
        upto >= 1,
        crisp(scores, upto),
    ensures
        keeps_maxima(retained(scores, upto), scores, upto),
    decreases upto,
{
    let kept = retained(scores, upto - 1);
    let candidate = upto - 1;
    let after = retained(scores, upto);
    if upto == 1 {
        assert(kept.len() == 0);
        assert(after =~= seq![0int]);
        assert forall|j: int| after.contains(j) <==> is_maximal(scores, upto, j) by {
            if is_maximal(scores, upto, j) {
                assert(after[0] == j);
            }
        }
    } else {
        lemma_retained_crisp(scores, upto - 1);
        lemma_retained_shape(scores, upto - 1);
        let last = kept.last();
        assert(0 <= kept[kept.len() - 1] < upto - 1);
        assert(kept.contains(last)) by {
            assert(kept[kept.len() - 1] == last);
        }
        assert(is_maximal(scores, upto - 1, last));
        if better_fitness(scores[candidate], scores[last]) {
            assert(after =~= seq![candidate]);
            assert forall|j: int| after.contains(j) <==> is_maximal(scores, upto, j) by {
                if is_maximal(scores, upto, j) {
                    assert(scores[last] <= scores[j]);
                    if j != candidate {
                        assert(scores[candidate] <= scores[j]);
                        assert(scores[j] <= scores[last]);
                    }
                    assert(after[0] == j);
                }
                if after.contains(j) {
                    assert(j == candidate);
                    assert forall|e: int| 0 <= e < upto implies scores[e] <= scores[j] by {
                        if e < upto - 1 {
                            assert(scores[e] <= scores[last]);
                        }
                    }
                }
            }
        } else if better_or_equal_fitness(scores[candidate], scores[last]) {
            assert(scores[candidate] == scores[last]);
            assert(after =~= kept.push(candidate));
            assert forall|j: int| after.contains(j) <==> is_maximal(scores, upto, j) by {
                if is_maximal(scores, upto, j) {
                    if j == candidate {
                        assert(after[kept.len() as int] == j);
                    } else {
                        assert(is_maximal(scores, upto - 1, j));
                        assert(kept.contains(j));
                        let r = choose|r: int| 0 <= r < kept.len() && kept[r] == j;
                        assert(after[r] == j);
                    }
                }
                if after.contains(j) {
                    let r = choose|r: int| 0 <= r < after.len() && after[r] == j;
                    if r < kept.len() {
                        assert(kept[r] == j);
                        assert(kept.contains(j));
                        assert(is_maximal(scores, upto - 1, j));
                        assert(scores[last] <= scores[j]);
                    }
                    assert forall|e: int| 0 <= e < upto implies scores[e] <= scores[j] by {
                        if e < upto - 1 {
                            assert(scores[e] <= scores[last]);
                        }
                    }
                }
            }
        } else {
            assert(after =~= kept);
            assert forall|j: int| after.contains(j) <==> is_maximal(scores, upto, j) by {
                if is_maximal(scores, upto, j) {
                    assert(scores[last] <= scores[j]);
                    assert(j != candidate);
                    assert(is_maximal(scores, upto - 1, j));
                }
                if after.contains(j) {
                    assert(is_maximal(scores, upto - 1, j));
                    assert(scores[last] <= scores[j]);
                }
            }
        }
    }
}

/// On crisp scores the scan of a separable clique keeps exactly the
/// positions of the maximal score.
pub proof fn lemma_retained_from_first_crisp(scores: Seq<int>, upto: int)
    requires
        upto >= 1,
        crisp(scores, upto),
    ensures
        keeps_maxima(retained_from_first(scores, upto), scores, upto),
    decreases upto,
{
    let after = retained_from_first(scores, upto);
    if upto == 1 {
        assert(after =~= seq![0int]);
        assert forall|j: int| after.contains(j) <==> is_maximal(scores, upto, j) by {
            if is_maximal(scores, upto, j) {
                assert(after[0] == j);
            }
        }
    } else {
        let kept = retained_from_first(scores, upto - 1);
        let candidate = upto - 1;
        lemma_retained_from_first_crisp(scores, upto - 1);
        lemma_retained_from_first_shape(scores, upto - 1);
        let first = kept[0];
        assert(0 <= first < upto - 1);
        assert(kept.contains(first));
        assert(is_maximal(scores, upto - 1, first));
        if equal_fitness(scores[candidate], scores[first]) {
            assert(scores[candidate] == scores[first]);
            assert(after =~= kept.push(candidate));
            assert forall|j: int| after.contains(j) <==> is_maximal(scores, upto, j) by {
                if is_maximal(scores, upto, j) {
                    if j == candidate {
                        assert(after[kept.len() as int] == j);
                    } else {
                        assert(is_maximal(scores, upto - 1, j));
                        assert(kept.contains(j));
                        let r = choose|r: int| 0 <= r < kept.len() && kept[r] == j;
                        assert(after[r] == j);
                    }
                }
                if after.contains(j) {
                    let r = choose|r: int| 0 <= r < after.len() && after[r] == j;
                    if r < kept.len() {
                        assert(kept[r] == j);
                        assert(kept.contains(j));
                        assert(is_maximal(scores, upto - 1, j));
                        assert(scores[first] <= scores[j]);
                    }
                    assert forall|e: int| 0 <= e < upto implies scores[e] <= scores[j] by {
                        if e < upto - 1 {
                            assert(scores[e] <= scores[first]);
                        }
                    }
                }
            }
        } else if better_fitness(scores[candidate], scores[first]) {
            assert(after =~= seq![candidate]);
            assert forall|j: int| after.contains(j) <==> is_maximal(scores, upto, j) by {
                if is_maximal(scores, upto, j) {
                    assert(scores[first] <= scores[j]);
                    if j != candidate {
                        assert(scores[candidate] <= scores[j]);
                        assert(scores[j] <= scores[first]);
                    }
                    assert(after[0] == j);
                }
                if after.contains(j) {
                    assert(j == candidate);
                    assert forall|e: int| 0 <= e < upto implies scores[e] <= scores[j] by {
                        if e < upto - 1 {
                            assert(scores[e] <= scores[first]);
                        }
                    }
                }
            }
        } else {
            assert(after =~= kept);
            assert forall|j: int| after.contains(j) <==> is_maximal(scores, upto, j) by {
                if is_maximal(scores, upto, j) {
                    assert(scores[first] <= scores[j]);
                    assert(j != candidate);
                    assert(is_maximal(scores, upto - 1, j));
                }
                if after.contains(j) {
                    assert(is_maximal(scores, upto - 1, j));
                    assert(scores[first] <= scores[j]);
                }
            }
        }
    }
}

impl Landscape {
    /// The contribution of each clique under the assignment `x`.
    pub open spec fn contributions(&self, x: Seq<u32>) -> spec_fn(int) -> int {
        |i: int| self.contribution(i, x)
    }

    /// The table index of a clique is made of the value of its separator
    /// and the value of its private variables.
    pub proof fn lemma_clique_index_split(&self, i: int, x: Seq<u32>)
        requires
            self.well_formed(),
            0 <= i < self.m(),
            is_assignment(x, self.size()),
        ensures
            self.clique_index(i, x) == self.separator_value(i, x) * self.free_count(i) + self.private_value(i, x),
            0 <= self.separator_value(i, x) < self.separator_count(i),
            0 <= self.private_value(i, x) < self.free_count(i),
            0 <= self.clique_index(i, x) < pow2(self.k() as nat),
            bits_of(self.clique_index(i, x), self.k() as nat) == gather(x, self.cliques[i]),
    {
        self.lemma_private_part(i);
        let sep = self.separator(i);
        let part = self.private_part(i);
        assert(self.cliques[i] =~= sep + part);
        assert(gather(x, self.cliques[i]) =~= gather(x, sep) + gather(x, part));
        lemma_bits_value_concat(gather(x, sep), gather(x, part));
        lemma_gather_is_bits(x, sep);
        lemma_gather_is_bits(x, part);
        lemma_bits_value_bound(gather(x, sep));
        lemma_bits_value_bound(gather(x, part));
        assert(positions_within(self.cliques[i], self.size())) by {
            assert forall|j: int| 0 <= j < self.cliques[i].len() implies (#[trigger] self.cliques[i][j])
                < self.size() by {}
        }
        lemma_gather_is_bits(x, self.cliques[i]);
        lemma_bits_value_bound(gather(x, self.cliques[i]));
        lemma_bits_of_bits_value(gather(x, self.cliques[i]));
    }

    /// The separator value that the table index of the parent induces for a
    /// child is the value that the assignment gives the child's separator.
    pub proof fn lemma_induced_matches(&self, parent: int, child: int, x: Seq<u32>)
        requires
            self.well_formed(),
            is_child(self.parameters, parent, child),
            child < self.m(),
            is_assignment(x, self.size()),
        ensures
            self.induced_separator_value(parent, child, self.clique_index(parent, x) as int)
                == self.separator_value(child, x),
    {
        self.lemma_induced_in_range(parent, child, self.clique_index(parent, x) as int);
        self.lemma_clique_index_split(parent, x);
        let clique = self.cliques[parent];
        let sep = self.separator(child);
        let bits = bits_of(self.clique_index(parent, x), self.k() as nat);
        let induced = child_separator_substring(clique, sep, bits);
        assert(induced =~= gather(x, sep)) by {
            assert forall|j: int| 0 <= j < sep.len() implies induced[j] == gather(x, sep)[j] by {
                assert(clique.contains(sep[j]));
                let w = choose|w: int| 0 <= w < clique.len() && clique[w] == sep[j];
                lemma_first_position_exists(clique, sep[j], w);
            }
        }
    }

    /// The candidate scores of variable elimination are crisp: for every
    /// clique and every value of its separator, any two of them are equal or
    /// apart by the tolerance or more.
    pub open spec fn elimination_crisp(&self) -> bool {
        forall|i: int, s: int|
            0 <= i < self.m() && 0 <= s < self.separator_count(i) ==> crisp(
                #[trigger] self.candidates(i, s),
                self.free_count(i),
            )
    }

    /// The table values of every clique are crisp.
    pub open spec fn separable_crisp(&self) -> bool {
        forall|i: int| 0 <= i < self.m() ==> crisp(#[trigger] self.table_scores(i), pow2(self.k() as nat) as int)
    }

    /// The scores that the solver compares are crisp.
    pub open spec fn crisp(&self) -> bool {
        if self.o() == 0 {
            self.separable_crisp()
        } else {
            self.elimination_crisp()
        }
    }

    /// Every scan of variable elimination keeps exactly the values of the
    /// private variables that reach the highest candidate score.
    pub open spec fn elimination_exact(&self) -> bool {
        forall|i: int, s: int|
            0 <= i < self.m() && 0 <= s < self.separator_count(i) ==> keeps_maxima(
                #[trigger] self.ties(i, s),
                self.candidates(i, s),
                self.free_count(i),
            )
    }

    /// Every scan of a separable clique keeps exactly the table indices of
    /// the highest value.
    pub open spec fn separable_exact(&self) -> bool {
        forall|i: int|
            0 <= i < self.m() ==> keeps_maxima(
                #[trigger] self.separable_ties(i),
                self.table_scores(i),
                pow2(self.k() as nat) as int,
            )
    }

    /// Every scan of the solver keeps exactly the maxima of what it scans:
    /// the tolerance makes it keep nothing less, and drop nothing.
    pub open spec fn exact(&self) -> bool {
        if self.o() == 0 {
            self.separable_exact()
        } else {
            self.elimination_exact()
        }
    }

    /// On crisp scores every scan keeps exactly the maxima.
    pub proof fn lemma_crisp_is_exact(&self)
        ensures
            self.separable_crisp() ==> self.separable_exact(),
            self.elimination_crisp() ==> self.elimination_exact(),
            self.crisp() ==> self.exact(),
    {
        if self.separable_crisp() {
            assert forall|i: int| 0 <= i < self.m() implies keeps_maxima(
                #[trigger] self.separable_ties(i),
                self.table_scores(i),
                pow2(self.k() as nat) as int,
            ) by {
                lemma_pow2_pos(self.k() as nat);
                lemma_retained_from_first_crisp(self.table_scores(i), pow2(self.k() as nat) as int);
            }
        }
        if self.elimination_crisp() {
            assert forall|i: int, s: int| 0 <= i < self.m() && 0 <= s < self.separator_count(i) implies keeps_maxima(
                #[trigger] self.ties(i, s),
                self.candidates(i, s),
                self.free_count(i),
            ) by {
                lemma_pow2_pos(self.free_bits(i));
                lemma_retained_crisp(self.candidates(i, s), self.free_count(i));
            }
        }
    }

    /// The fitness is the sum of the contributions, taken from the first
    /// clique on.
    pub proof fn lemma_fitness_is_span(&self, x: Seq<u32>, count: int)
        requires
            0 <= count,
        ensures
            self.partial_fitness(x, count) == span_sum(self.contributions(x), 0, count),
        decreases count,
    {
        if count > 0 {
            self.lemma_fitness_is_span(x, count - 1);
            lemma_span_extends(self.contributions(x), 0, count);
        }
    }

    /// Where the scans are exact, the score recorded for a clique and a
    /// separator value is the highest candidate score, and the values kept
    /// are those that reach it.
    pub proof fn lemma_best_is_highest(&self, i: int, s: int, f: int)
        requires
            self.well_formed(),
            self.elimination_exact(),
            0 <= i < self.m(),
            0 <= s < self.separator_count(i),
            0 <= f < self.free_count(i),
        ensures
            self.candidate(i, s * self.free_count(i) + f) <= self.best(i, s),
            self.ties(i, s).contains(f) <==> self.candidate(i, s * self.free_count(i) + f) == self.best(i, s),
    {
        let scores = self.candidates(i, s);
        let count = self.free_count(i);
        lemma_pow2_pos(self.free_bits(i));
        lemma_retained_shape(scores, count);
        let kept = self.ties(i, s);
        assert(keeps_maxima(kept, scores, count));
        assert(kept.contains(kept[0]));
        assert(is_maximal(scores, count, kept[0]));
        assert(scores[f] == self.candidate(i, s * count + f));
        assert(scores[f] <= scores[kept[0]]);
        if scores[f] == scores[kept[0]] {
            assert(is_maximal(scores, count, f)) by {
                assert forall|e: int| 0 <= e < count implies scores[e] <= scores[f] by {
                    assert(scores[e] <= scores[kept[0]]);
                }
            }
        }
        if kept.contains(f) {
            assert(is_maximal(scores, count, f));
            assert(scores[kept[0]] <= scores[f]);
        }
    }

    /// The contributions of a subtree add up to no more than the score of
    /// its clique at the index that the assignment gives it, and that to no
    /// more than the score recorded for the value of its separator.
    pub proof fn lemma_subtree_below_best(&self, x: Seq<u32>, i: int)
        requires
            self.well_formed(),
            self.elimination_exact(),
            is_assignment(x, self.size()),
            0 <= i < self.m(),
        ensures
            subtree_sum(self.branching(), self.m(), self.contributions(x), i) <= self.candidate(
                i,
                self.clique_index(i, x) as int,
            ),
            self.candidate(i, self.clique_index(i, x) as int) <= self.best(i, self.separator_value(i, x)),
            subtree_sum(self.branching(), self.m(), self.contributions(x), i) == self.contribution(i, x)
                + range_sum(
                self.branching(),
                self.m(),
                self.contributions(x),
                self.branching() * i + 1,
                self.branching() * i + self.branching() + 1,
            ),
            self.candidate(i, self.clique_index(i, x) as int) == self.contribution(i, x) + self.children_best(
                i,
                self.clique_index(i, x) as int,
                self.branching() * i + 1,
                self.branching() * i + self.branching() + 1,
            ),
        decreases self.m() - i, 1int, 0int,
    {
        let b = self.branching();
        let g = self.contributions(x);
        let idx = self.clique_index(i, x) as int;
        self.lemma_clique_index_split(i, x);
        assert(b * i + 1 > i) by (nonlinear_arith)
            requires
                b >= 1,
                i >= 0,
        ;
        self.lemma_range_below_children(x, i, b * i + 1, b * i + b + 1);
        assert(g(i) == self.contribution(i, x));
        if b * i + 1 >= self.m() {
            assert(range_sum(b, self.m(), g, b * i + 1, b * i + b + 1) == 0);
            assert(self.children_best(i, idx, b * i + 1, b * i + b + 1) == 0);
        }
        self.lemma_best_is_highest(i, self.separator_value(i, x), self.private_value(i, x));
    }

    /// The contributions of the subtrees of some children of a clique add
    /// up to no more than the scores recorded for these children.
    pub proof fn lemma_range_below_children(&self, x: Seq<u32>, i: int, lo: int, hi: int)
        requires
            self.well_formed(),
            self.elimination_exact(),
            is_assignment(x, self.size()),
            0 <= i < self.m(),
            self.branching() * i + 1 <= lo <= hi <= self.branching() * i + self.branching() + 1,
        ensures
            range_sum(self.branching(), self.m(), self.contributions(x), lo, hi) <= self.children_best(
                i,
                self.clique_index(i, x) as int,
                lo,
                hi,
            ),
        decreases self.m() - i, 0int, hi - lo,
    {
        let b = self.branching();
        let g = self.contributions(x);
        let idx = self.clique_index(i, x) as int;
        assert(b * i + 1 > i) by (nonlinear_arith)
            requires
                b >= 1,
                i >= 0,
        ;
        if lo >= hi || lo >= self.m() {
            assert(range_sum(b, self.m(), g, lo, hi) == 0);
            assert(self.children_best(i, idx, lo, hi) == 0);
        } else {
            assert(is_child(self.parameters, i, lo));
            self.lemma_induced_matches(i, lo, x);
            self.lemma_subtree_below_best(x, lo);
            self.lemma_range_below_children(x, i, lo + 1, hi);
            assert(range_sum(b, self.m(), g, lo, hi) == subtree_sum(b, self.m(), g, lo) + range_sum(
                b,
                self.m(),
                g,
                lo + 1,
                hi,
            ));
            assert(self.children_best(i, idx, lo, hi) == self.best(lo, self.induced_separator_value(i, lo, idx))
                + self.children_best(i, idx, lo + 1, hi));
        }
    }

    /// The subtree of clique `i` reaches the score recorded for the value
    /// that the assignment gives the separator of `i`.
    pub open spec fn tight(&self, x: Seq<u32>, i: int) -> bool {
        subtree_sum(self.branching(), self.m(), self.contributions(x), i) == self.best(
            i,
            self.separator_value(i, x),
        )
    }

    /// Where the contributions of the subtrees of some children add up to
    /// the scores recorded for them, each of these subtrees reaches the score
    /// recorded for it.
    pub proof fn lemma_range_tight(&self, x: Seq<u32>, i: int, lo: int, hi: int, c: int)
        requires
            self.well_formed(),
            self.elimination_exact(),
            is_assignment(x, self.size()),
            0 <= i < self.m(),
            self.branching() * i + 1 <= lo <= hi <= self.branching() * i + self.branching() + 1,
            range_sum(self.branching(), self.m(), self.contributions(x), lo, hi) >= self.children_best(
                i,
                self.clique_index(i, x) as int,
                lo,
                hi,
            ),
            lo <= c < hi,
            c < self.m(),
        ensures
            self.tight(x, c),
        decreases hi - lo,
    {
        let b = self.branching();
        let g = self.contributions(x);
        let idx = self.clique_index(i, x) as int;
        assert(b * i + 1 > i) by (nonlinear_arith)
            requires
                b >= 1,
                i >= 0,
        ;
        assert(is_child(self.parameters, i, lo));
        self.lemma_induced_matches(i, lo, x);
        self.lemma_subtree_below_best(x, lo);
        self.lemma_range_below_children(x, i, lo + 1, hi);
        assert(range_sum(b, self.m(), g, lo, hi) == subtree_sum(b, self.m(), g, lo) + range_sum(
            b,
            self.m(),
            g,
            lo + 1,
            hi,
        ));
        assert(self.children_best(i, idx, lo, hi) == self.best(lo, self.induced_separator_value(i, lo, idx))
            + self.children_best(i, idx, lo + 1, hi));
        if c > lo {
            self.lemma_range_tight(x, i, lo + 1, hi, c);
        }
    }

    /// Where every clique has one of the values kept for it, every subtree
    /// reaches the score recorded for it.
    pub proof fn lemma_optimum_tight(&self, x: Seq<u32>, i: int)
        requires
            self.well_formed(),
            self.elimination_exact(),
            self.eliminated_optimum(x),
            0 <= i < self.m(),
        ensures
            self.tight(x, i),
        decreases self.m() - i, 1int, 0int,
    {
        let b = self.branching();
        self.lemma_subtree_below_best(x, i);
        self.lemma_clique_index_split(i, x);
        assert(b * i + 1 > i) by (nonlinear_arith)
            requires
                b >= 1,
                i >= 0,
        ;
        self.lemma_optimum_range(x, i, b * i + 1, b * i + b + 1);
        assert(self.ties(i, self.separator_value(i, x)).contains(self.private_value(i, x)));
        self.lemma_best_is_highest(i, self.separator_value(i, x), self.private_value(i, x));
    }

    pub proof fn lemma_optimum_range(&self, x: Seq<u32>, i: int, lo: int, hi: int)
        requires
            self.well_formed(),
            self.elimination_exact(),
            self.eliminated_optimum(x),
            0 <= i < self.m(),
            self.branching() * i + 1 <= lo <= hi <= self.branching() * i + self.branching() + 1,
        ensures
            range_sum(self.branching(), self.m(), self.contributions(x), lo, hi) == self.children_best(
                i,
                self.clique_index(i, x) as int,
                lo,
                hi,
            ),
        decreases self.m() - i, 0int, hi - lo,
    {
        let b = self.branching();
        let g = self.contributions(x);
        let idx = self.clique_index(i, x) as int;
        assert(b * i + 1 > i) by (nonlinear_arith)
            requires
                b >= 1,
                i >= 0,
        ;
        if lo >= hi || lo >= self.m() {
            assert(range_sum(b, self.m(), g, lo, hi) == 0);
            assert(self.children_best(i, idx, lo, hi) == 0);
        } else {
            assert(is_child(self.parameters, i, lo));
            self.lemma_induced_matches(i, lo, x);
            self.lemma_optimum_tight(x, lo);
            self.lemma_optimum_range(x, i, lo + 1, hi);
            assert(range_sum(b, self.m(), g, lo, hi) == subtree_sum(b, self.m(), g, lo) + range_sum(
                b,
                self.m(),
                g,
                lo + 1,
                hi,
            ));
            assert(self.children_best(i, idx, lo, hi) == self.best(lo, self.induced_separator_value(i, lo, idx))
                + self.children_best(i, idx, lo + 1, hi));
        }
    }

    /// The fitness of an assignment is the sum of the contributions of the
    /// subtree of the root, and the separator of the root has the value 0.
    pub proof fn lemma_root_sum(&self, x: Seq<u32>)
        requires
            self.well_formed(),
        ensures
            self.fitness(x) == subtree_sum(self.branching(), self.m(), self.contributions(x), 0),
            self.separator_value(0, x) == 0,
    {
        self.lemma_fitness_is_span(x, self.m());
        lemma_root_covers(self.branching(), self.m(), self.contributions(x));
        assert(gather(x, self.separator(0)).len() == 0);
    }

    /// Where the fitness of an assignment is the score recorded for the
    /// root, every subtree reaches the score recorded for it.
    pub proof fn lemma_tight_everywhere(&self, x: Seq<u32>, i: int)
        requires
            self.well_formed(),
            self.elimination_exact(),
            is_assignment(x, self.size()),
            self.fitness(x) == self.eliminated_score(),
            0 <= i < self.m(),
        ensures
            self.tight(x, i),
        decreases i,
    {
        let b = self.branching();
        if i == 0 {
            self.lemma_root_sum(x);
        } else {
            let parent = crate::problem::expansion::lemma_parent_exists(self.parameters, i);
            self.lemma_tight_everywhere(x, parent);
            self.lemma_subtree_below_best(x, parent);
            self.lemma_range_tight(x, parent, b * parent + 1, b * parent + b + 1, i);
        }
    }

    /// Where the scans are exact, no assignment has a fitness above the
    /// score that variable elimination reports, and the assignments that it
    /// reports as optimal are exactly those whose fitness is that score.
    pub proof fn lemma_elimination_optimal(&self, x: Seq<u32>)
        requires
            self.well_formed(),
            self.elimination_exact(),
            is_assignment(x, self.size()),
        ensures
            self.fitness(x) <= self.eliminated_score(),
            self.eliminated_optimum(x) <==> self.fitness(x) == self.eliminated_score(),
    {
        self.lemma_root_sum(x);
        self.lemma_subtree_below_best(x, 0);
        if self.eliminated_optimum(x) {
            self.lemma_optimum_tight(x, 0);
        }
        if self.fitness(x) == self.eliminated_score() {
            assert forall|i: int| 0 <= i < self.m() implies self.ties(i, self.separator_value(i, x)).contains(
                #[trigger] self.private_value(i, x),
            ) by {
                self.lemma_tight_everywhere(x, i);
                self.lemma_subtree_below_best(x, i);
                self.lemma_clique_index_split(i, x);
                self.lemma_best_is_highest(i, self.separator_value(i, x), self.private_value(i, x));
            }
        }
    }
}

impl Landscape {
    /// Where the scans are exact, the contribution of a clique is no more
    /// than the table value at the first index that the separable scan
    /// keeps, and it is that value exactly where the scan keeps the index of
    /// the clique.
    pub proof fn lemma_separable_clique(&self, x: Seq<u32>, i: int)
        requires
            self.well_formed(),
            self.separable_exact(),
            is_assignment(x, self.size()),
            0 <= i < self.m(),
        ensures
            self.contribution(i, x) <= self.tables[i][self.separable_ties(i)[0]],
            self.separable_ties(i).contains(self.clique_index(i, x) as int) <==> self.contribution(i, x)
                == self.tables[i][self.separable_ties(i)[0]],
    {
        let scores = self.table_scores(i);
        let count = pow2(self.k() as nat) as int;
        let idx = self.clique_index(i, x) as int;
        self.lemma_clique_index_split(i, x);
        lemma_pow2_pos(self.k() as nat);
        lemma_retained_from_first_shape(scores, count);
        let kept = self.separable_ties(i);
        assert(keeps_maxima(kept, scores, count));
        assert(kept.contains(kept[0]));
        assert(is_maximal(scores, count, kept[0]));
        assert(scores[idx] == self.tables[i][idx]);
        assert(scores[kept[0]] == self.tables[i][kept[0]]);
        assert(scores[idx] <= scores[kept[0]]);
        if scores[idx] == scores[kept[0]] {
            assert(is_maximal(scores, count, idx)) by {
                assert forall|e: int| 0 <= e < count implies scores[e] <= scores[idx] by {
                    assert(scores[e] <= scores[kept[0]]);
                }
            }
        }
        if kept.contains(idx) {
            assert(is_maximal(scores, count, idx));
            assert(scores[kept[0]] <= scores[idx]);
        }
    }

    pub proof fn lemma_separable_partial(&self, x: Seq<u32>, count: int)
        requires
            self.well_formed(),
            self.separable_exact(),
            is_assignment(x, self.size()),
            0 <= count <= self.m(),
        ensures
            self.partial_fitness(x, count) <= self.separable_partial_score(count),
            self.partial_fitness(x, count) == self.separable_partial_score(count) <==> forall|i: int|
                0 <= i < count ==> self.separable_ties(i).contains(#[trigger] self.clique_index(i, x) as int),
        decreases count,
    {
        if count > 0 {
            self.lemma_separable_partial(x, count - 1);
            self.lemma_separable_clique(x, count - 1);
            if self.partial_fitness(x, count) == self.separable_partial_score(count) {
                assert forall|i: int| 0 <= i < count implies self.separable_ties(i).contains(
                    #[trigger] self.clique_index(i, x) as int,
                ) by {}
            }
            if forall|i: int|
                0 <= i < count ==> self.separable_ties(i).contains(#[trigger] self.clique_index(i, x) as int) {
                assert(self.separable_ties(count - 1).contains(self.clique_index(count - 1, x) as int));
            }
        }
    }

    /// Where the scans are exact, no assignment has a fitness above the
    /// score that the separable solver reports, and the assignments that it
    /// reports as optimal are exactly those whose fitness is that score.
    pub proof fn lemma_separable_optimal(&self, x: Seq<u32>)
        requires
            self.well_formed(),
            self.separable_exact(),
            is_assignment(x, self.size()),
        ensures
            self.fitness(x) <= self.separable_score(),
            self.separable_optimum(x) <==> self.fitness(x) == self.separable_score(),
    {
        self.lemma_separable_partial(x, self.m());
    }

    /// The solver's optima are the optima. On a landscape on which every
    /// scan keeps exactly the maxima of what it scans, no assignment has a
    /// fitness above the reported score, and the assignments reported as
    /// optimal are exactly those whose fitness is the reported score.
    pub proof fn lemma_reported_optimal(&self, x: Seq<u32>)
        requires
            self.well_formed(),
            self.exact(),
            is_assignment(x, self.size()),
        ensures
            self.fitness(x) <= self.reported_score(),
            self.reported_optimum(x) <==> self.fitness(x) == self.reported_score(),
    {
        if self.o() == 0 {
            self.lemma_separable_optimal(x);
        } else {
            self.lemma_elimination_optimal(x);
        }
    }

    /// Variable elimination reports some assignment as optimal.
    pub proof fn lemma_eliminated_optimum_exists(&self) -> (x: Seq<u32>)
        requires
            self.well_formed(),
        ensures
            self.eliminated_optimum(x),
    {
        let sel = elimination_selection(*self);
        self.lemma_elimination_selection_ranged();
        assert(selection_inhabited(*self, sel)) by {
            assert forall|i: int, s: int| 0 <= i < self.m() implies (#[trigger] sel(i, s)).len() >= 1 by {
                lemma_pow2_pos(self.free_bits(i));
                lemma_retained_shape(self.candidates(i, s), self.free_count(i));
            }
        }
        let x = lemma_staged_exists(*self, sel, self.m());
        self.lemma_elimination_final_stage(x);
        x
    }

    /// The separable solver reports some assignment as optimal.
    pub proof fn lemma_separable_optimum_exists(&self) -> (x: Seq<u32>)
        requires
            self.well_formed(),
            self.o() == 0,
        ensures
            self.separable_optimum(x),
    {
        let sel = separable_selection(*self);
        self.lemma_separable_selection_ranged();
        assert(selection_inhabited(*self, sel)) by {
            assert forall|i: int, s: int| 0 <= i < self.m() implies (#[trigger] sel(i, s)).len() >= 1 by {
                lemma_pow2_pos(self.k() as nat);
                lemma_retained_from_first_shape(self.table_scores(i), pow2(self.k() as nat) as int);
            }
        }
        let x = lemma_staged_exists(*self, sel, self.m());
        self.lemma_separable_final_stage(x);
        x
    }

    /// Without shared variables, variable elimination and the separable
    /// solver report the same score, where each of them keeps exactly the
    /// maxima of what it scans.
    pub proof fn lemma_separable_scores_agree(&self)
        requires
            self.well_formed(),
            self.o() == 0,
            self.separable_exact(),
            self.elimination_exact(),
        ensures
            self.eliminated_score() == self.separable_score(),
    {
        let x = self.lemma_eliminated_optimum_exists();
        self.lemma_elimination_optimal(x);
        self.lemma_separable_optimal(x);
        let y = self.lemma_separable_optimum_exists();
        self.lemma_separable_optimal(y);
        self.lemma_elimination_optimal(y);
    }

    /// Every table value is a multiple of the tolerance.
    pub open spec fn quantized(&self) -> bool {
        forall|i: int, x: int|
            0 <= i < self.m() && 0 <= x < pow2(self.k() as nat) ==> (#[trigger] self.tables[i][x]) as int
                % (FITNESS_EPSILON as int) == 0
    }

    pub proof fn lemma_candidate_quantized(&self, i: int, x: int)
        requires
            self.well_formed(),
            self.quantized(),
            0 <= i < self.m(),
            0 <= x < pow2(self.k() as nat),
        ensures
            self.candidate(i, x) % (FITNESS_EPSILON as int) == 0,
        decreases self.m() - i, 2int, 0int,
    {
        let b = self.branching();
        assert(b * i + 1 > i) by (nonlinear_arith)
            requires
                b >= 1,
                i >= 0,
        ;
        self.lemma_children_quantized(i, x, b * i + 1, b * i + b + 1);
        assert(self.tables[i][x] as int % (FITNESS_EPSILON as int) == 0);
    }

    pub proof fn lemma_children_quantized(&self, i: int, x: int, lo: int, hi: int)
        requires
            self.well_formed(),
            self.quantized(),
            0 <= i < self.m(),
            0 <= x < pow2(self.k() as nat),
            self.branching() * i + 1 <= lo <= hi <= self.branching() * i + self.branching() + 1,
        ensures
            self.children_best(i, x, lo, hi) % (FITNESS_EPSILON as int) == 0,
        decreases self.m() - i, 1int, hi - lo,
    {
        let b = self.branching();
        assert(b * i + 1 > i) by (nonlinear_arith)
            requires
                b >= 1,
                i >= 0,
        ;
        if lo >= hi || lo >= self.m() {
            assert(self.children_best(i, x, lo, hi) == 0);
        } else {
            assert(is_child(self.parameters, i, lo));
            self.lemma_induced_in_range(i, lo, x);
            let s = self.induced_separator_value(i, lo, x);
            self.lemma_best_bound(lo, s);
            let f = self.ties(lo, s)[0];
            self.lemma_index_in_range(lo, s, f);
            self.lemma_candidate_quantized(lo, s * self.free_count(lo) + f);
            self.lemma_children_quantized(i, x, lo + 1, hi);
            assert(self.children_best(i, x, lo, hi) == self.best(lo, s) + self.children_best(i, x, lo + 1, hi));
        }
    }

    /// Where every table value is a multiple of the tolerance, the scores
    /// that the solvers compare are crisp, and every scan keeps exactly the
    /// maxima of what it scans.
    pub proof fn lemma_quantized_is_crisp(&self)
        requires
            self.well_formed(),
            self.quantized(),
        ensures
            self.separable_crisp(),
            self.elimination_crisp(),
            self.crisp(),
            self.separable_exact(),
            self.elimination_exact(),
            self.exact(),
    {
        self.lemma_crisp_is_exact();
        assert forall|i: int| 0 <= i < self.m() implies crisp(
            #[trigger] self.table_scores(i),
            pow2(self.k() as nat) as int,
        ) by {
            let scores = self.table_scores(i);
            assert forall|a: int, b: int|
                #![trigger scores[a], scores[b]]
                0 <= a < pow2(self.k() as nat) && 0 <= b < pow2(self.k() as nat) implies scores[a] == scores[b]
                || better_fitness(scores[a], scores[b]) || better_fitness(scores[b], scores[a]) by {
                assert(self.tables[i][a] as int % (FITNESS_EPSILON as int) == 0);
                assert(self.tables[i][b] as int % (FITNESS_EPSILON as int) == 0);
                lemma_multiples_apart(scores[a], scores[b]);
            }
        }
        assert forall|i: int, s: int| 0 <= i < self.m() && 0 <= s < self.separator_count(i) implies crisp(
            #[trigger] self.candidates(i, s),
            self.free_count(i),
        ) by {
            let scores = self.candidates(i, s);
            assert forall|a: int, b: int|
                #![trigger scores[a], scores[b]]
                0 <= a < self.free_count(i) && 0 <= b < self.free_count(i) implies scores[a] == scores[b]
                || better_fitness(scores[a], scores[b]) || better_fitness(scores[b], scores[a]) by {
                self.lemma_index_in_range(i, s, a);
                self.lemma_index_in_range(i, s, b);
                self.lemma_candidate_quantized(i, s * self.free_count(i) + a);
                self.lemma_candidate_quantized(i, s * self.free_count(i) + b);
                lemma_multiples_apart(scores[a], scores[b]);
            }
        }
    }
}

/// Two multiples of the tolerance are equal or apart by the tolerance or
/// more.
pub proof fn lemma_multiples_apart(a: int, b: int)
    requires
        a % (FITNESS_EPSILON as int) == 0,
        b % (FITNESS_EPSILON as int) == 0,
    ensures
        a == b || better_fitness(a, b) || better_fitness(b, a),
{
}

/// A sum over a span of cliques is the sum over the span without its last
/// clique, plus the term of the last clique.
pub proof fn lemma_span_extends(g: spec_fn(int) -> int, lo: int, hi: int)
    requires
        lo < hi,
    ensures
        span_sum(g, lo, hi) == span_sum(g, lo, hi - 1) + g(hi - 1),
    decreases hi - lo,
{
    if lo + 1 < hi {
        lemma_span_extends(g, lo + 1, hi);
    } else {
        assert(span_sum(g, lo + 1, hi) == 0);
        assert(span_sum(g, lo, hi - 1) == 0);
    }
}

} // verus!
