//! The place of each optimum in the list that the separable solver
//! returns: the kept table indices of the first clique change fastest, those
//! of the last clique slowest.

use vstd::prelude::*;
use vstd::arithmetic::div_mod::{
    lemma_fundamental_div_mod, lemma_fundamental_div_mod_converse, lemma_mod_bound,
    lemma_mod_multiples_vanish,
};
use vstd::arithmetic::power2::{pow2, lemma_pow2_pos};
use crate::problem::evaluation::positions_within;
use crate::problem::expansion::{all_zero, extended, lemma_overwritten_elsewhere, staged};
use crate::problem::landscape::{is_assignment, Landscape};
use crate::problem::optimum::lemma_retained_from_first_shape;
use crate::problem::separable::separable_selection;

verus! {

/// A place below `length * count` is made of a place below `length` and a
/// round below `count`.
pub proof fn lemma_place_in_round(place: int, length: int, count: int)
    requires
        length >= 1,
        count >= 0,
        0 <= place < length * count,
    ensures
        0 <= place % length < length,
        0 <= place / length < count,
{
    lemma_fundamental_div_mod(place, length);
    lemma_mod_bound(place, length);
    let q = place / length;
    let r = place % length;
    assert(0 <= q < count) by (nonlinear_arith)
        requires
            place == length * q + r,
            0 <= r < length,
            0 <= place < length * count,
            length >= 1,
    ;
}

/// Rounds of `stride` places, counted up to `count` and then again from 0,
/// are the same whether they are counted from a place or from what is left of
/// it after whole runs of `stride * count * runs` places.
pub proof fn lemma_round_of_rest(place: int, stride: int, count: int, runs: int)
    requires
        stride >= 1,
        count >= 1,
        runs >= 1,
        place >= 0,
    ensures
        ((place % (stride * count * runs)) / stride) % count == (place / stride) % count,
{
    let length = stride * count * runs;
    assert(length >= 1) by (nonlinear_arith)
        requires
            stride >= 1,
            count >= 1,
            runs >= 1,
            length == stride * count * runs,
    ;
    let a = place / length;
    let rest = place % length;
    lemma_fundamental_div_mod(place, length);
    lemma_mod_bound(place, length);
    let q = rest / stride;
    let r = rest % stride;
    lemma_fundamental_div_mod(rest, stride);
    lemma_mod_bound(rest, stride);
    assert(place == (count * (runs * a) + q) * stride + r) by (nonlinear_arith)
        requires
            place == length * a + rest,
            rest == stride * q + r,
            length == stride * count * runs,
    ;
    lemma_fundamental_div_mod_converse(place, stride, count * (runs * a) + q, r);
    lemma_mod_multiples_vanish(runs * a, q, count);
}

impl Landscape {
    /// The number of optima of the separable solver after the first `stage`
    /// cliques: the product of the numbers of table indices kept for them.
    pub open spec fn stride(&self, stage: int) -> int
        decreases stage,
    {
        if stage <= 0 {
            1
        } else {
            self.stride(stage - 1) * self.separable_ties(stage - 1).len()
        }
    }

    /// The number of table indices kept for a clique is at least 1.
    pub proof fn lemma_some_kept(&self, i: int)
        ensures
            self.separable_ties(i).len() >= 1,
    {
        lemma_pow2_pos(self.k() as nat);
        lemma_retained_from_first_shape(self.table_scores(i), pow2(self.k() as nat) as int);
    }

    /// After the first `stage` cliques the separable solver has as many
    /// strings as the product says, and every one of them is staged.
    pub proof fn lemma_stride(&self, stage: int)
        requires
            self.well_formed(),
            self.o() == 0,
            0 <= stage <= self.m(),
        ensures
            self.separable_strings(stage).len() == self.stride(stage),
            self.stride(stage) >= 1,
            forall|r: int|
                0 <= r < self.stride(stage) ==> staged(
                    *self,
                    separable_selection(*self),
                    stage,
                    #[trigger] self.separable_strings(stage)[r],
                ),
            stage >= 1 ==> forall|r: int|
                0 <= r < self.stride(stage) ==> self.clique_index(
                    stage - 1,
                    #[trigger] self.separable_strings(stage)[r],
                ) == self.separable_ties(stage - 1)[r / self.stride(stage - 1)],
        decreases stage,
    {
        let sel = separable_selection(*self);
        if stage == 0 {
            self.lemma_initial_stage(sel);
            let zero = all_zero(self.size());
            assert(seq![zero][0] == zero);
            assert(seq![zero].contains(zero));
        } else {
            self.lemma_stride(stage - 1);
            self.lemma_some_kept(stage - 1);
            self.lemma_separable_selection_ranged();
            let before = self.separable_strings(stage - 1);
            let kept = self.separable_ties(stage - 1);
            let length = before.len() as int;
            let count = kept.len() as int;
            let after = self.separable_strings(stage);
            assert(length * count >= 1) by (nonlinear_arith)
                requires
                    length >= 1,
                    count >= 1,
            ;
            assert(sel(stage - 1, 0) == kept);
            assert forall|r: int| 0 <= r < self.stride(stage) implies staged(*self, sel, stage, #[trigger] after[r])
                && self.clique_index(stage - 1, after[r]) == kept[r / self.stride(stage - 1)] by {
                lemma_place_in_round(r, length, count);
                let x = before[r % length];
                let f = kept[r / length];
                assert(after[r] == extended(*self, stage - 1, x, f));
                assert(staged(*self, sel, stage - 1, x));
                assert(sel(stage - 1, self.separator_value(stage - 1, x)) == kept);
                assert(kept.contains(f));
                assert(0 <= f < self.free_count(stage - 1));
                self.lemma_extension_sound(sel, stage - 1, x, f);
                assert(self.private_part(stage - 1) =~= self.cliques[stage - 1]);
            }
        }
    }

    /// The number of strings after a later clique is a multiple of the
    /// number after an earlier one.
    pub proof fn lemma_stride_multiple(&self, early: int, late: int) -> (runs: int)
        requires
            0 <= early <= late,
        ensures
            runs >= 1,
            self.stride(late) == self.stride(early) * runs,
        decreases late - early,
    {
        if early == late {
            assert(self.stride(early) * 1 == self.stride(early));
            1
        } else {
            let shorter = self.lemma_stride_multiple(early, late - 1);
            self.lemma_some_kept(late - 1);
            let count = self.separable_ties(late - 1).len() as int;
            let base = self.stride(early);
            assert((base * shorter) * count == base * (shorter * count)) by (nonlinear_arith);
            assert(shorter * count >= 1) by (nonlinear_arith)
                requires
                    shorter >= 1,
                    count >= 1,
            ;
            shorter * count
        }
    }

    /// Extending a staged string at a later clique leaves the table index
    /// of an earlier clique as it is.
    pub proof fn lemma_earlier_index_stays(&self, c: int, i: int, x: Seq<u32>, f: int)
        requires
            self.well_formed(),
            0 <= c < i < self.m(),
            is_assignment(x, self.size()),
        ensures
            self.clique_index(c, extended(*self, i, x, f)) == self.clique_index(c, x),
    {
        self.lemma_earlier_disjoint(c, i);
        assert(positions_within(self.cliques[c], x.len() as int)) by {
            assert forall|j: int| 0 <= j < self.cliques[c].len() implies (#[trigger] self.cliques[c][j]) < x.len() by {
                assert(self.cliques[c][j] < self.size());
            }
        }
        lemma_overwritten_elsewhere(
            x,
            self.private_part(i),
            crate::problem::bit_strings::bits_of(f as nat, self.free_bits(i)),
            self.cliques[c],
        );
    }

    /// The order of the optima of the separable solver. The string at the
    /// place `r` gives clique `i` the kept table index with the number
    /// `(r / stride(i)) % n`, where `n` is the number of table indices kept
    /// for clique `i` and `stride(i)` is the product of these numbers for the
    /// cliques before `i`.
    pub proof fn lemma_separable_order(&self, i: int, stage: int, r: int)
        requires
            self.well_formed(),
            self.o() == 0,
            0 <= i < stage <= self.m(),
            0 <= r < self.stride(stage),
        ensures
            self.clique_index(i, self.separable_strings(stage)[r]) == self.separable_ties(i)[(r / self.stride(i))
                % (self.separable_ties(i).len() as int)],
        decreases stage,
    {
        let count = self.separable_ties(i).len() as int;
        self.lemma_some_kept(i);
        self.lemma_stride(stage);
        self.lemma_stride(stage - 1);
        self.lemma_stride(i);
        if stage == i + 1 {
            lemma_place_in_round(r, self.stride(i), count);
            vstd::arithmetic::div_mod::lemma_small_mod((r / self.stride(i)) as nat, count as nat);
        } else {
            let before = self.separable_strings(stage - 1);
            let kept = self.separable_ties(stage - 1);
            let length = before.len() as int;
            self.lemma_some_kept(stage - 1);
            lemma_place_in_round(r, length, kept.len() as int);
            let x = before[r % length];
            let f = kept[r / length];
            assert(self.separable_strings(stage)[r] == extended(*self, stage - 1, x, f));
            assert(staged(*self, separable_selection(*self), stage - 1, x));
            self.lemma_earlier_index_stays(i, stage - 1, x, f);
            self.lemma_separable_order(i, stage - 1, r % length);
            let runs = self.lemma_stride_multiple(i + 1, stage - 1);
            assert(self.stride(i + 1) == self.stride(i) * count);
            lemma_round_of_rest(r, self.stride(i), count, runs);
        }
    }
}

} // verus!
