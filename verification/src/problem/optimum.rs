//! What the solver computes: the scans that keep the best candidates up to
//! the tolerance, the scores that variable elimination passes up the tree, and
//! the set of assignments that it reports as optimal.

use vstd::prelude::*;
use vstd::arithmetic::power2::pow2;
use crate::problem::bit_strings::{bits_of, bits_value, gathered_value};
use crate::problem::expansion::{all_zero, extended};
use crate::problem::fitness::{better_fitness, better_or_equal_fitness, equal_fitness};
use crate::problem::landscape::{is_assignment, shared_count, Landscape};

verus! {

/// The candidates kept by the scan that variable elimination makes over the
/// first `upto` scores: a candidate that beats the last one kept by the
/// tolerance or more replaces all that were kept; one that is not worse than
/// the last one kept by the tolerance or more is kept too.
pub open spec fn retained(scores: Seq<int>, upto: int) -> Seq<int>
    decreases upto,
{
    if upto <= 0 {
        Seq::empty()
    } else {
        let kept = retained(scores, upto - 1);
        let candidate = upto - 1;
        if kept.len() == 0 || better_fitness(scores[candidate], scores[kept.last()]) {
            seq![candidate]
        } else if better_or_equal_fitness(scores[candidate], scores[kept.last()]) {
            kept.push(candidate)
        } else {
            kept
        }
    }
}

/// The candidates kept by the scan of a separable clique over the first
/// `upto` scores: it starts with the first candidate; a candidate within the
/// tolerance of the first one kept is kept too; one that beats the first one
/// kept by the tolerance or more replaces all that were kept.
pub open spec fn retained_from_first(scores: Seq<int>, upto: int) -> Seq<int>
    decreases upto,
{
    if upto <= 1 {
        seq![0int]
    } else {
        let kept = retained_from_first(scores, upto - 1);
        let candidate = upto - 1;
        if equal_fitness(scores[candidate], scores[kept[0]]) {
            kept.push(candidate)
        } else if better_fitness(scores[candidate], scores[kept[0]]) {
            seq![candidate]
        } else {
            kept
        }
    }
}

/// The positions in `kept` are increasing and lie below `upto`.
pub open spec fn increasing_below(kept: Seq<int>, upto: int) -> bool {
    &&& forall|a: int| 0 <= a < kept.len() ==> 0 <= #[trigger] kept[a] < upto
    &&& forall|a: int, b: int| 0 <= a < b < kept.len() ==> kept[a] < kept[b]
}

pub proof fn lemma_retained_shape(scores: Seq<int>, upto: int)
    requires
        upto >= 1,
    ensures
        retained(scores, upto).len() >= 1,
        increasing_below(retained(scores, upto), upto),
    decreases upto,
{
    if upto > 1 {
        lemma_retained_shape(scores, upto - 1);
    } else {
        assert(retained(scores, 0).len() == 0);
    }
    let kept = retained(scores, upto - 1);
    assert(increasing_below(kept, upto - 1));
    assert(increasing_below(kept.push(upto - 1), upto));
}

pub proof fn lemma_retained_from_first_shape(scores: Seq<int>, upto: int)
    requires
        upto >= 1,
    ensures
        retained_from_first(scores, upto).len() >= 1,
        increasing_below(retained_from_first(scores, upto), upto),
    decreases upto,
{
    if upto > 1 {
        lemma_retained_from_first_shape(scores, upto - 1);
    }
}

/// Positions that increase hold no position twice.
pub proof fn lemma_increasing_distinct(kept: Seq<int>, upto: int)
    requires
        increasing_below(kept, upto),
    ensures
        kept.no_duplicates(),
{
    assert forall|a: int, b: int| 0 <= a < kept.len() && 0 <= b < kept.len() && a != b implies kept[a]
        != kept[b] by {
        if a < b {
            assert(kept[a] < kept[b]);
        } else {
            assert(kept[b] < kept[a]);
        }
    }
}

/// The positions that a vector of 32-bit numbers holds.
pub open spec fn as_positions(v: Seq<u32>) -> Seq<int> {
    Seq::new(v.len(), |a: int| v[a] as int)
}

/// The values of a table as scores.
pub open spec fn scores_of(table: Seq<i64>) -> Seq<int> {
    Seq::new(table.len(), |x: int| table[x] as int)
}

/// The assignments that a solver returns, without their scores.
pub open spec fn solutions(optima: Seq<(Vec<u32>, i128)>) -> Seq<Seq<u32>> {
    Seq::new(optima.len(), |r: int| optima[r].0@)
}

/// The first position of `s` that holds `v`.
pub open spec fn first_position(s: Seq<u32>, v: u32) -> int {
    choose|j: int| 0 <= j < s.len() && s[j] == v && forall|e: int| 0 <= e < j ==> s[e] != v
}

pub proof fn lemma_first_position(s: Seq<u32>, v: u32, j: int)
    requires
        0 <= j < s.len(),
        s[j] == v,
        forall|e: int| 0 <= e < j ==> s[e] != v,
    ensures
        first_position(s, v) == j,
{
    let c = first_position(s, v);
    if c < j {
        assert(s[c] != v);
    } else if j < c {
        assert(s[j] != v);
    }
}

/// The values that the variables of `separator` have when the clique's
/// variables have the values in `clique_substring`: each separator variable
/// is looked up in the clique by its name.
pub open spec fn child_separator_substring(
    clique: Seq<u32>,
    separator: Seq<u32>,
    clique_substring: Seq<u32>,
) -> Seq<u32> {
    Seq::new(separator.len(), |j: int| clique_substring[first_position(clique, separator[j])])
}

impl Landscape {
    pub open spec fn branching(&self) -> int {
        self.parameters.branching()
    }

    /// The variables that clique `i` shares with its parent.
    pub open spec fn separator(&self, i: int) -> Seq<u32> {
        self.cliques[i].subrange(0, shared_count(self.parameters, i))
    }

    /// The variables that clique `i` does not share with its parent.
    pub open spec fn private_part(&self, i: int) -> Seq<u32> {
        self.cliques[i].subrange(shared_count(self.parameters, i), self.k())
    }

    /// The number of private variables of clique `i`.
    pub open spec fn free_bits(&self, i: int) -> nat {
        (self.k() - shared_count(self.parameters, i)) as nat
    }

    /// The number of assignments to the private variables of clique `i`.
    pub open spec fn free_count(&self, i: int) -> int {
        pow2(self.free_bits(i)) as int
    }

    /// The number of assignments to the separator of clique `i`.
    pub open spec fn separator_count(&self, i: int) -> int {
        pow2(shared_count(self.parameters, i) as nat) as int
    }

    /// The value of the separator of `child` when the variables of `parent`
    /// have the values that the table index `x` denotes.
    pub open spec fn induced_separator_value(&self, parent: int, child: int, x: int) -> int {
        bits_value(
            child_separator_substring(
                self.cliques[parent],
                self.separator(child),
                bits_of(x as nat, self.k() as nat),
            ),
        ) as int
    }

    /// The score of clique `i` at the table index `x`: its table value, and
    /// for each of its children the best score that the child's subtree
    /// reaches under the separator value that `x` induces.
    pub open spec fn candidate(&self, i: int, x: int) -> int
        decreases self.m() - i, 2int, 0int,
    {
        self.tables[i][x] + self.children_best(
            i,
            x,
            self.branching() * i + 1,
            self.branching() * i + self.branching() + 1,
        )
    }

    /// The sum of the best scores of the children of `i` numbered from `lo`
    /// up to, but not including, `hi`.
    pub open spec fn children_best(&self, i: int, x: int, lo: int, hi: int) -> int
        decreases self.m() - i, 1int, hi - lo,
    {
        if lo >= hi || lo >= self.m() || lo <= i {
            0
        } else {
            self.best(lo, self.induced_separator_value(i, lo, x)) + self.children_best(
                i,
                x,
                lo + 1,
                hi,
            )
        }
    }

    /// The scores of clique `i` under the separator value `s`, one for each
    /// assignment to its private variables.
    pub open spec fn candidates(&self, i: int, s: int) -> Seq<int>
        decreases self.m() - i, 3int, 0int,
    {
        Seq::new(self.free_count(i) as nat, |f: int| self.candidate(i, s * self.free_count(i) + f))
    }

    /// The assignments to the private variables of clique `i` that variable
    /// elimination keeps for the separator value `s`.
    pub open spec fn ties(&self, i: int, s: int) -> Seq<int>
        decreases self.m() - i, 4int, 0int,
    {
        retained(self.candidates(i, s), self.free_count(i))
    }

    /// The score that variable elimination records for clique `i` under the
    /// separator value `s`: that of the first assignment kept.
    pub open spec fn best(&self, i: int, s: int) -> int
        decreases self.m() - i, 5int, 0int,
    {
        self.candidates(i, s)[self.ties(i, s)[0]]
    }

    /// The value of the separator of clique `i` under the assignment `x`.
    pub open spec fn separator_value(&self, i: int, x: Seq<u32>) -> int {
        gathered_value(x, self.separator(i)) as int
    }

    /// The value of the private variables of clique `i` under the
    /// assignment `x`.
    pub open spec fn private_value(&self, i: int, x: Seq<u32>) -> int {
        gathered_value(x, self.private_part(i)) as int
    }

    /// The score that variable elimination reports.
    pub open spec fn eliminated_score(&self) -> int {
        self.best(0, 0)
    }

    /// Variable elimination reports `x` as optimal: in every clique the
    /// private variables have one of the values kept for the value that the
    /// separator has.
    pub open spec fn eliminated_optimum(&self, x: Seq<u32>) -> bool {
        &&& is_assignment(x, self.size())
        &&& forall|i: int|
            0 <= i < self.m() ==> self.ties(i, self.separator_value(i, x)).contains(
                #[trigger] self.private_value(i, x),
            )
    }

    /// The optima of the separable solver after the first `stage` cliques,
    /// in the order in which it returns them. It starts with the string of
    /// zeros. For each clique the strings so far are taken once for every
    /// table index that the scan of the clique keeps, one round of all
    /// strings after the other in the order of the kept indices, and get the
    /// bits of the index at the variables of the clique.
    pub open spec fn separable_strings(&self, stage: int) -> Seq<Seq<u32>>
        decreases stage,
    {
        if stage <= 0 {
            seq![all_zero(self.size())]
        } else {
            let before = self.separable_strings(stage - 1);
            let kept = self.separable_ties(stage - 1);
            Seq::new(
                (before.len() * kept.len()) as nat,
                |r: int|
                    extended(*self, stage - 1, before[r % (before.len() as int)], kept[r / (before.len() as int)]),
            )
        }
    }

    /// The values kept for clique `c` under the separator value that the
    /// string `x` gives it.
    pub open spec fn kept_for(&self, c: int, x: Seq<u32>) -> Seq<int> {
        self.ties(c, self.separator_value(c, x))
    }

    /// Of the first `upto` strings, those for which one value is kept in
    /// clique `c`, each extended by that value, in their order.
    pub open spec fn extended_in_place(&self, c: int, before: Seq<Seq<u32>>, upto: int) -> Seq<Seq<u32>>
        decreases upto,
    {
        if upto <= 0 {
            Seq::empty()
        } else {
            let x = before[upto - 1];
            let earlier = self.extended_in_place(c, before, upto - 1);
            if self.kept_for(c, x).len() == 1 {
                earlier.push(extended(*self, c, x, self.kept_for(c, x)[0]))
            } else {
                earlier
            }
        }
    }

    /// The string `x` extended by each of the first `count` values kept for
    /// it in clique `c`, in the order of the values.
    pub open spec fn copies(&self, c: int, x: Seq<u32>, count: int) -> Seq<Seq<u32>> {
        Seq::new(count as nat, |t: int| extended(*self, c, x, self.kept_for(c, x)[t]))
    }

    /// Of the first `upto` strings, those for which several values are kept
    /// in clique `c`, each replaced by its copies, in their order.
    pub open spec fn extended_by_copies(&self, c: int, before: Seq<Seq<u32>>, upto: int) -> Seq<Seq<u32>>
        decreases upto,
    {
        if upto <= 0 {
            Seq::empty()
        } else {
            let x = before[upto - 1];
            let earlier = self.extended_by_copies(c, before, upto - 1);
            if self.kept_for(c, x).len() == 1 {
                earlier
            } else {
                earlier + self.copies(c, x, self.kept_for(c, x).len() as int)
            }
        }
    }

    /// The optima of variable elimination after the first `stage` cliques,
    /// in the order in which it returns them. It starts with the string of
    /// zeros. For each clique, a string for which one value is kept gets that
    /// value and stays in its place; a string for which several are kept
    /// leaves its place, and its copies, one for every kept value, go to the
    /// end of the list.
    pub open spec fn eliminated_strings(&self, stage: int) -> Seq<Seq<u32>>
        decreases stage,
    {
        if stage <= 0 {
            seq![all_zero(self.size())]
        } else {
            let before = self.eliminated_strings(stage - 1);
            self.extended_in_place(stage - 1, before, before.len() as int) + self.extended_by_copies(
                stage - 1,
                before,
                before.len() as int,
            )
        }
    }

    /// The optima that the solver reports, in the order in which it returns
    /// them.
    pub open spec fn reported_strings(&self) -> Seq<Seq<u32>> {
        if self.o() == 0 {
            self.separable_strings(self.m())
        } else {
            self.eliminated_strings(self.m())
        }
    }

    /// The score that the solver reports: without shared variables that of
    /// the separable solver, else that of variable elimination.
    pub open spec fn reported_score(&self) -> int {
        if self.o() == 0 {
            self.separable_score()
        } else {
            self.eliminated_score()
        }
    }

    /// The solver reports `x` as optimal.
    pub open spec fn reported_optimum(&self, x: Seq<u32>) -> bool {
        if self.o() == 0 {
            self.separable_optimum(x)
        } else {
            self.eliminated_optimum(x)
        }
    }

    /// The values of the table of clique `i`.
    pub open spec fn table_scores(&self, i: int) -> Seq<int> {
        scores_of(self.tables[i])
    }

    /// The table indices of clique `i` that the separable scan keeps.
    pub open spec fn separable_ties(&self, i: int) -> Seq<int> {
        retained_from_first(self.table_scores(i), pow2(self.k() as nat) as int)
    }

    /// The sum over the first `count` cliques of the table value at the
    /// first index that the separable scan keeps.
    pub open spec fn separable_partial_score(&self, count: int) -> int
        decreases count,
    {
        if count <= 0 {
            0
        } else {
            self.separable_partial_score(count - 1) + self.tables[count - 1][self.separable_ties(
                count - 1,
            )[0]]
        }
    }

    /// The score that the separable solver reports.
    pub open spec fn separable_score(&self) -> int {
        self.separable_partial_score(self.m())
    }

    /// The separable solver reports `x` as optimal: every clique has one of
    /// the table indices that its scan keeps.
    pub open spec fn separable_optimum(&self, x: Seq<u32>) -> bool {
        &&& is_assignment(x, self.size())
        &&& forall|i: int|
            0 <= i < self.m() ==> self.separable_ties(i).contains(#[trigger] self.clique_index(i, x) as int)
    }
}

} // verus!
