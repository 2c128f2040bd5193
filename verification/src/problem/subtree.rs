//! Sums over the subtrees of the clique tree. The cliques are numbered level
//! by level, so the children of clique `i` are the cliques `b*i + 1` to
//! `b*i + b`, as far as they exist.

use vstd::prelude::*;
use vstd::arithmetic::power2::{pow2, lemma_pow2_pos, lemma_pow2_adds};
use crate::problem::bit_strings::{bits_of, is_bits, lemma_bits_of_is_bits, lemma_bits_value_bound};
use crate::problem::expansion::lemma_first_position_exists;
use crate::problem::landscape::{is_child, shared_count, Landscape};
use crate::problem::optimum::{child_separator_substring, first_position, lemma_retained_shape};

verus! {

/// The sum of `g` over the cliques of the subtree below and including
/// clique `i`, in a tree of `m` cliques with `b` branches.
pub open spec fn subtree_sum(b: int, m: int, g: spec_fn(int) -> int, i: int) -> int
    decreases m - i, 0int,
{
    if i < 0 || i >= m {
        0
    } else if b * i + 1 <= i || b * i + 1 >= m {
        g(i)
    } else {
        g(i) + range_sum(b, m, g, b * i + 1, b * i + b + 1)
    }
}

/// The sum of the subtree sums of the cliques from `lo` up to, but not
/// including, `hi`.
pub open spec fn range_sum(b: int, m: int, g: spec_fn(int) -> int, lo: int, hi: int) -> int
    decreases m - lo, 1int,
{
    if lo >= hi || lo >= m || lo < 0 {
        0
    } else {
        subtree_sum(b, m, g, lo) + range_sum(b, m, g, lo + 1, hi)
    }
}

/// The sum of `g` over the cliques from `lo` up to, but not including, `hi`.
pub open spec fn span_sum(g: spec_fn(int) -> int, lo: int, hi: int) -> int
    decreases hi - lo,
{
    if lo >= hi {
        0
    } else {
        g(lo) + span_sum(g, lo + 1, hi)
    }
}

pub proof fn lemma_range_concat(b: int, m: int, g: spec_fn(int) -> int, lo: int, mid: int, hi: int)
    requires
        0 <= lo <= mid <= hi,
    ensures
        range_sum(b, m, g, lo, hi) == range_sum(b, m, g, lo, mid) + range_sum(b, m, g, mid, hi),
    decreases mid - lo,
{
    if lo >= m {
    } else if lo < mid {
        lemma_range_concat(b, m, g, lo + 1, mid, hi);
    }
}

/// The subtrees of the cliques from `i` to `b*i` hold every clique from `i`
/// on exactly once.
pub proof fn lemma_run_covers(b: int, m: int, g: spec_fn(int) -> int, i: int)
    requires
        b >= 1,
        1 <= i <= m,
    ensures
        range_sum(b, m, g, i, b * i + 1) == span_sum(g, i, m),
    decreases m - i,
{
    if i < m {
        assert(b * i >= i) by (nonlinear_arith)
            requires
                b >= 1,
                i >= 1,
        ;
        assert(b * (i + 1) + 1 == b * i + b + 1) by (nonlinear_arith);
        lemma_run_covers(b, m, g, i + 1);
        lemma_range_concat(b, m, g, i + 1, b * i + 1, b * i + b + 1);
        assert(range_sum(b, m, g, i, b * i + 1) == subtree_sum(b, m, g, i) + range_sum(b, m, g, i + 1, b * i + 1));
        if b * i + 1 >= m {
            assert(range_sum(b, m, g, b * i + 1, b * i + b + 1) == 0);
            assert(subtree_sum(b, m, g, i) == g(i));
        } else {
            assert(subtree_sum(b, m, g, i) == g(i) + range_sum(b, m, g, b * i + 1, b * i + b + 1));
        }
        assert(span_sum(g, i, m) == g(i) + span_sum(g, i + 1, m));
    } else {
        assert(span_sum(g, m, m) == 0);
    }
}

/// The subtree of the root holds every clique exactly once.
pub proof fn lemma_root_covers(b: int, m: int, g: spec_fn(int) -> int)
    requires
        b >= 1,
        1 <= m,
    ensures
        subtree_sum(b, m, g, 0) == span_sum(g, 0, m),
{
    assert(b * 0 == 0);
    assert(b * 1 == b) by (nonlinear_arith);
    if 1 < m {
        lemma_run_covers(b, m, g, 1);
    } else {
        assert(span_sum(g, 1, 1) == 0);
    }
}

/// The function that counts each clique once.
pub open spec fn unit_weight() -> spec_fn(int) -> int {
    |i: int| 1int
}

pub proof fn lemma_span_of_units(lo: int, hi: int)
    requires
        lo <= hi,
    ensures
        span_sum(unit_weight(), lo, hi) == hi - lo,
    decreases hi - lo,
{
    if lo < hi {
        lemma_span_of_units(lo + 1, hi);
    }
}

pub proof fn lemma_sizes_nonnegative(b: int, m: int, lo: int, hi: int)
    ensures
        subtree_sum(b, m, unit_weight(), lo) >= 0,
        range_sum(b, m, unit_weight(), lo, hi) >= 0,
        0 <= lo < m ==> subtree_sum(b, m, unit_weight(), lo) >= 1,
    decreases m - lo, 2int,
{
    let g = unit_weight();
    if 0 <= lo < m {
        assert(g(lo) == 1);
        if !(b * lo + 1 <= lo || b * lo + 1 >= m) {
            lemma_sizes_nonnegative(b, m, b * lo + 1, b * lo + b + 1);
            assert(subtree_sum(b, m, g, lo) == g(lo) + range_sum(b, m, g, b * lo + 1, b * lo + b + 1));
        } else {
            assert(subtree_sum(b, m, g, lo) == g(lo));
        }
        if lo < hi {
            lemma_sizes_nonnegative(b, m, lo + 1, hi);
            assert(range_sum(b, m, g, lo, hi) == subtree_sum(b, m, g, lo) + range_sum(b, m, g, lo + 1, hi));
        } else {
            assert(range_sum(b, m, g, lo, hi) == 0);
        }
    } else {
        assert(subtree_sum(b, m, g, lo) == 0);
        assert(range_sum(b, m, g, lo, hi) == 0);
    }
}

/// A subtree holds no more cliques than the tree.
pub proof fn lemma_subtree_size(b: int, m: int, i: int)
    requires
        b >= 1,
        0 <= i < m,
    ensures
        1 <= subtree_sum(b, m, unit_weight(), i) <= m,
{
    let g = unit_weight();
    lemma_sizes_nonnegative(b, m, i, i);
    if i == 0 {
        lemma_root_covers(b, m, g);
        lemma_span_of_units(0, m);
    } else {
        assert(b * i >= i) by (nonlinear_arith)
            requires
                b >= 1,
                i >= 1,
        ;
        lemma_run_covers(b, m, g, i);
        lemma_span_of_units(i, m);
        lemma_sizes_nonnegative(b, m, i + 1, b * i + 1);
    }
}

impl Landscape {
    /// The number of cliques in the subtree of clique `i`.
    pub open spec fn subtree_size(&self, i: int) -> int {
        subtree_sum(self.branching(), self.m(), unit_weight(), i)
    }

    /// The number of cliques in the subtrees of the cliques from `lo` up to,
    /// but not including, `hi`.
    pub open spec fn range_size(&self, lo: int, hi: int) -> int {
        range_sum(self.branching(), self.m(), unit_weight(), lo, hi)
    }

    /// The separator value that a table index of the parent induces is a
    /// value of the child's separator.
    pub proof fn lemma_induced_in_range(&self, parent: int, child: int, x: int)
        requires
            self.well_formed(),
            is_child(self.parameters, parent, child),
            child < self.m(),
        ensures
            0 <= self.induced_separator_value(parent, child, x) < self.separator_count(child),
            parent < child,
            is_bits(
                child_separator_substring(
                    self.cliques[parent],
                    self.separator(child),
                    bits_of(x as nat, self.k() as nat),
                ),
            ),
            forall|j: int|
                0 <= j < self.separator(child).len() ==> self.cliques[parent].contains(
                    #[trigger] self.separator(child)[j],
                ),
    {
        let p = self.parameters;
        let k = self.k() as nat;
        let bits = bits_of(x as nat, k);
        let sub = child_separator_substring(self.cliques[parent], self.separator(child), bits);
        assert(parent < child) by (nonlinear_arith)
            requires
                self.branching() >= 1,
                parent >= 0,
                self.branching() * parent + 1 <= child,
        ;
        assert(is_bits(sub)) by {
            assert forall|j: int| 0 <= j < sub.len() implies #[trigger] sub[j] <= 1 by {
                let v = self.separator(child)[j];
                assert(v == self.cliques[child][j]);
                assert(self.cliques[parent].contains(self.cliques[child][j]));
                let w = choose|w: int| 0 <= w < self.cliques[parent].len() && self.cliques[parent][w] == v;
                lemma_first_position_exists(self.cliques[parent], v, w);
                lemma_bits_of_is_bits(x as nat, k);
                assert(bits[first_position(self.cliques[parent], v)] <= 1);
            }
        }
        lemma_bits_value_bound(sub);
        assert forall|j: int| 0 <= j < self.separator(child).len() implies self.cliques[parent].contains(
            #[trigger] self.separator(child)[j],
        ) by {
            assert(self.separator(child)[j] == self.cliques[child][j]);
            assert(self.cliques[parent].contains(self.cliques[child][j]));
        }
    }

    /// A table index made of a separator value and a value of the private
    /// variables is an index into the table.
    pub proof fn lemma_index_in_range(&self, i: int, s: int, f: int)
        requires
            self.parameters.valid(),
            0 <= i < self.m(),
            0 <= s < self.separator_count(i),
            0 <= f < self.free_count(i),
        ensures
            0 <= s * self.free_count(i) + f < pow2(self.k() as nat),
            self.separator_count(i) * self.free_count(i) == pow2(self.k() as nat),
    {
        let sc = shared_count(self.parameters, i) as nat;
        lemma_pow2_adds(sc, self.free_bits(i));
        let big_s = self.separator_count(i);
        let big_f = self.free_count(i);
        assert(0 <= s * big_f + f < big_s * big_f) by (nonlinear_arith)
            requires
                0 <= s < big_s,
                0 <= f < big_f,
        ;
    }

    /// The score of a clique is a sum of one table value for each clique of
    /// its subtree.
    pub proof fn lemma_candidate_bound(&self, i: int, x: int)
        requires
            self.well_formed(),
            0 <= i < self.m(),
            0 <= x < pow2(self.k() as nat),
        ensures
            -Self::fitness_bound(self.subtree_size(i)) <= self.candidate(i, x) <= Self::fitness_bound(
                self.subtree_size(i),
            ),
        decreases self.m() - i, 2int, 0int,
    {
        let b = self.branching();
        assert(b * i + 1 > i) by (nonlinear_arith)
            requires
                b >= 1,
                i >= 0,
        ;
        assert(b * i + b + 1 > b * i + 1);
        self.lemma_children_bound(i, x, b * i + 1, b * i + b + 1);
        assert(self.tables[i].len() == pow2(self.k() as nat));
        assert(-0x8000_0000_0000_0000 <= self.tables[i][x] <= 0x8000_0000_0000_0000);
        assert(self.candidate(i, x) == self.tables[i][x] + self.children_best(i, x, b * i + 1, b * i + b + 1));
        if b * i + 1 >= self.m() {
            assert(self.children_best(i, x, b * i + 1, b * i + b + 1) == 0);
            assert(self.range_size(b * i + 1, b * i + b + 1) == 0);
            assert(self.subtree_size(i) == 1);
        } else {
            assert(self.subtree_size(i) == 1 + self.range_size(b * i + 1, b * i + b + 1));
        }
    }

    pub proof fn lemma_children_bound(&self, i: int, x: int, lo: int, hi: int)
        requires
            self.well_formed(),
            0 <= i < self.m(),
            0 <= x < pow2(self.k() as nat),
            self.branching() * i + 1 <= lo <= hi <= self.branching() * i + self.branching() + 1,
        ensures
            -Self::fitness_bound(self.range_size(lo, hi)) <= self.children_best(i, x, lo, hi)
                <= Self::fitness_bound(self.range_size(lo, hi)),
        decreases self.m() - i, 1int, hi - lo,
    {
        let b = self.branching();
        assert(b * i + 1 > i) by (nonlinear_arith)
            requires
                b >= 1,
                i >= 0,
        ;
        if lo >= hi || lo >= self.m() {
            assert(self.children_best(i, x, lo, hi) == 0);
            assert(self.range_size(lo, hi) == 0);
        } else {
            assert(is_child(self.parameters, i, lo));
            self.lemma_induced_in_range(i, lo, x);
            let s = self.induced_separator_value(i, lo, x);
            self.lemma_best_bound(lo, s);
            self.lemma_children_bound(i, x, lo + 1, hi);
            assert(self.children_best(i, x, lo, hi) == self.best(lo, s) + self.children_best(i, x, lo + 1, hi));
            assert(self.range_size(lo, hi) == self.subtree_size(lo) + self.range_size(lo + 1, hi));
        }
    }

    pub proof fn lemma_best_bound(&self, i: int, s: int)
        requires
            self.well_formed(),
            0 <= i < self.m(),
            0 <= s < self.separator_count(i),
        ensures
            -Self::fitness_bound(self.subtree_size(i)) <= self.best(i, s) <= Self::fitness_bound(self.subtree_size(i)),
            self.ties(i, s).len() >= 1,
            0 <= self.ties(i, s)[0] < self.free_count(i),
        decreases self.m() - i, 5int, 0int,
    {
        lemma_pow2_pos(self.free_bits(i));
        lemma_retained_shape(self.candidates(i, s), self.free_count(i));
        let f = self.ties(i, s)[0];
        self.lemma_index_in_range(i, s, f);
        self.lemma_candidate_bound(i, s * self.free_count(i) + f);
    }

    /// The scores of the children of a clique that have been added up, and
    /// those that are still to come, together stay within the reach of the
    /// subtree.
    pub proof fn lemma_subtree_size_split(&self, i: int, lo: int)
        requires
            self.parameters.valid(),
            0 <= i < self.m(),
            self.branching() * i + 1 <= lo <= self.branching() * i + self.branching() + 1,
        ensures
            self.subtree_size(i) == 1 + self.range_size(self.branching() * i + 1, lo) + self.range_size(
                lo,
                self.branching() * i + self.branching() + 1,
            ),
            1 <= self.subtree_size(i) <= self.m(),
            self.range_size(self.branching() * i + 1, lo) >= 0,
            self.range_size(lo, self.branching() * i + self.branching() + 1) >= 0,
    {
        let b = self.branching();
        assert(b * i + 1 > i) by (nonlinear_arith)
            requires
                b >= 1,
                i >= 0,
        ;
        lemma_subtree_size(b, self.m(), i);
        lemma_range_concat(b, self.m(), unit_weight(), b * i + 1, lo, b * i + b + 1);
        lemma_sizes_nonnegative(b, self.m(), b * i + 1, lo);
        lemma_sizes_nonnegative(b, self.m(), lo, b * i + b + 1);
        if b * i + 1 >= self.m() {
            assert(range_sum(b, self.m(), unit_weight(), b * i + 1, b * i + b + 1) == 0);
        }
    }
}

} // verus!
