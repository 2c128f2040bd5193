//! How a set of optimal assignments grows clique by clique: every
//! assignment that is optimal for the cliques handled so far is extended by
//! each of the values kept for the private variables of the next clique.

use vstd::prelude::*;
use vstd::arithmetic::power2::{pow2, lemma_pow2_pos};
use vstd::arithmetic::div_mod::{lemma_fundamental_div_mod, lemma_mod_bound, lemma_small_mod};
use crate::problem::bit_strings::{
    bits_of, gather, is_bits, lemma_bits_of_bits_value, lemma_bits_of_is_bits,
    lemma_bits_value_bound, lemma_bits_value_of_bits_of,
};
use crate::problem::clique_tree::InputParameters;
use crate::problem::evaluation::{lemma_gather_is_bits, positions_within};
use crate::problem::landscape::{
    has_owner, is_assignment, is_child, is_private, shared_count, tree_formed, Landscape,
};
use crate::problem::optimum::{first_position, lemma_first_position};

verus! {

/// The assignment `x` with the values at `positions` replaced by `bits`.
pub open spec fn overwritten(x: Seq<u32>, positions: Seq<u32>, bits: Seq<u32>) -> Seq<u32> {
    Seq::new(
        x.len(),
        |v: int|
            if v <= u32::MAX && positions.contains(v as u32) {
                bits[first_position(positions, v as u32)]
            } else {
                x[v]
            },
    )
}

/// The assignment that gives every one of `size` variables the value 0.
pub open spec fn all_zero(size: int) -> Seq<u32> {
    Seq::new(size as nat, |v: int| 0u32)
}

/// No element of `a` is an element of `b`.
pub open spec fn disjoint(a: Seq<u32>, b: Seq<u32>) -> bool {
    forall|i: int, j: int| 0 <= i < a.len() && 0 <= j < b.len() ==> a[i] != b[j]
}

pub proof fn lemma_overwritten_at(x: Seq<u32>, positions: Seq<u32>, bits: Seq<u32>, t: int)
    requires
        positions.no_duplicates(),
        positions_within(positions, x.len() as int),
        bits.len() == positions.len(),
        0 <= t < positions.len(),
    ensures
        overwritten(x, positions, bits)[positions[t] as int] == bits[t],
{
    let v = positions[t];
    assert(positions.contains(v));
    assert forall|e: int| 0 <= e < t implies positions[e] != v by {}
    lemma_first_position(positions, v, t);
}

pub proof fn lemma_overwritten_gather(x: Seq<u32>, positions: Seq<u32>, bits: Seq<u32>)
    requires
        positions.no_duplicates(),
        positions_within(positions, x.len() as int),
        bits.len() == positions.len(),
    ensures
        gather(overwritten(x, positions, bits), positions) =~= bits,
{
    assert forall|t: int| 0 <= t < positions.len() implies gather(
        overwritten(x, positions, bits),
        positions,
    )[t] == bits[t] by {
        lemma_overwritten_at(x, positions, bits, t);
    }
}

pub proof fn lemma_overwritten_elsewhere(
    x: Seq<u32>,
    positions: Seq<u32>,
    bits: Seq<u32>,
    others: Seq<u32>,
)
    requires
        positions_within(others, x.len() as int),
        disjoint(others, positions),
    ensures
        gather(overwritten(x, positions, bits), others) =~= gather(x, others),
{
    assert forall|t: int| 0 <= t < others.len() implies gather(
        overwritten(x, positions, bits),
        others,
    )[t] == gather(x, others)[t] by {
        if positions.contains(others[t]) {
            let j = choose|j: int| 0 <= j < positions.len() && positions[j] == others[t];
            assert(others[t] != positions[j]);
        }
    }
}

pub proof fn lemma_overwritten_is_bits(x: Seq<u32>, positions: Seq<u32>, bits: Seq<u32>)
    requires
        is_bits(x),
        is_bits(bits),
        bits.len() == positions.len(),
    ensures
        is_bits(overwritten(x, positions, bits)),
        overwritten(x, positions, bits).len() == x.len(),
{
    let y = overwritten(x, positions, bits);
    assert forall|v: int| 0 <= v < y.len() implies #[trigger] y[v] <= 1 by {
        if positions.contains(v as u32) {
            let j = first_position(positions, v as u32);
            let w = choose|w: int| 0 <= w < positions.len() && positions[w] == v as u32;
            lemma_first_position_exists(positions, v as u32, w);
            assert(bits[j] <= 1);
        } else {
            assert(x[v] <= 1);
        }
    }
}

/// Where a value occurs in a sequence, its first position is a position of
/// the sequence that holds it.
pub proof fn lemma_first_position_exists(s: Seq<u32>, v: u32, w: int)
    requires
        0 <= w < s.len(),
        s[w] == v,
    ensures
        0 <= first_position(s, v) <= w,
        s[first_position(s, v)] == v,
    decreases w,
{
    if exists|e: int| 0 <= e < w && s[e] == v {
        let e = choose|e: int| 0 <= e < w && s[e] == v;
        lemma_first_position_exists(s, v, e);
    } else {
        lemma_first_position(s, v, w);
    }
}

/// For each clique and each value of its separator, the values of its
/// private variables that a solver keeps.
pub type Selection = spec_fn(int, int) -> Seq<int>;

/// Every list of the selection holds values of the private variables of its
/// clique, none of them twice.
pub open spec fn selection_ranged(ls: Landscape, sel: Selection) -> bool {
    forall|i: int, s: int|
        0 <= i < ls.m() ==> (#[trigger] sel(i, s)).no_duplicates() && forall|a: int|
            0 <= a < sel(i, s).len() ==> 0 <= #[trigger] sel(i, s)[a] < ls.free_count(i)
}

/// In clique `i` the assignment `x` gives the private variables one of the
/// values selected for the value that it gives the separator.
pub open spec fn accepted(ls: Landscape, sel: Selection, i: int, x: Seq<u32>) -> bool {
    sel(i, ls.separator_value(i, x)).contains(ls.private_value(i, x))
}

/// The assignment `x` is accepted in the first `stage` cliques, and gives
/// the private variables of all other cliques the value 0.
pub open spec fn staged(ls: Landscape, sel: Selection, stage: int, x: Seq<u32>) -> bool {
    &&& is_assignment(x, ls.size())
    &&& forall|c: int| 0 <= c < stage ==> #[trigger] accepted(ls, sel, c, x)
    &&& forall|c: int, j: int|
        stage <= c && is_private(ls.parameters, c, j) ==> x[(#[trigger] ls.cliques[c][j]) as int] == 0
}

/// The list holds, each exactly once, the assignments staged at `stage`.
pub open spec fn lists_exactly(strings: Seq<Seq<u32>>, ls: Landscape, sel: Selection, stage: int) -> bool {
    &&& strings.no_duplicates()
    &&& forall|x: Seq<u32>| strings.contains(x) <==> staged(ls, sel, stage, x)
}

/// The assignment `x` with the private variables of clique `i` set to the
/// bits of `f`.
pub open spec fn extended(ls: Landscape, i: int, x: Seq<u32>, f: int) -> Seq<u32> {
    overwritten(x, ls.private_part(i), bits_of(f as nat, ls.free_bits(i)))
}

/// Every clique but the root is the child of an earlier clique.
pub proof fn lemma_parent_exists(p: InputParameters, c: int) -> (parent: int)
    requires
        p.valid(),
        1 <= c,
    ensures
        is_child(p, parent, c),
        0 <= parent < c,
{
    let b = p.branching();
    let parent = (c - 1) / b;
    lemma_fundamental_div_mod(c - 1, b);
    lemma_mod_bound(c - 1, b);
    assert(0 <= parent < c) by (nonlinear_arith)
        requires
            b >= 1,
            c - 1 == b * parent + (c - 1) % b,
            0 <= (c - 1) % b < b,
            c >= 1,
    ;
    parent
}

/// Every variable of a clique is private to that clique or to an earlier
/// one; a shared variable is private to an earlier one.
pub proof fn lemma_owner_not_later(p: InputParameters, cliques: Seq<Seq<u32>>, c: int, j: int) -> (owner: (
    int,
    int,
))
    requires
        tree_formed(p, cliques),
        0 <= c < p.m,
        0 <= j < p.k,
    ensures
        is_private(p, owner.0, owner.1),
        owner.0 <= c,
        j < shared_count(p, c) ==> owner.0 < c,
        cliques[owner.0][owner.1] == cliques[c][j],
    decreases c,
{
    if j >= shared_count(p, c) {
        (c, j)
    } else {
        let parent = lemma_parent_exists(p, c);
        assert(cliques[parent].contains(cliques[c][j]));
        let pj = choose|pj: int| 0 <= pj < cliques[parent].len() && cliques[parent][pj] == cliques[c][j];
        lemma_owner_not_later(p, cliques, parent, pj)
    }
}

impl Landscape {
    /// The private part of a clique holds distinct variables of the
    /// landscape.
    pub proof fn lemma_private_part(&self, i: int)
        requires
            tree_formed(self.parameters, self.cliques),
            0 <= i < self.m(),
        ensures
            self.private_part(i).len() == self.free_bits(i),
            self.private_part(i).no_duplicates(),
            positions_within(self.private_part(i), self.size()),
            self.separator(i).len() == shared_count(self.parameters, i),
            positions_within(self.separator(i), self.size()),
            forall|t: int|
                0 <= t < self.free_bits(i) ==> #[trigger] self.private_part(i)[t] == self.cliques[i][shared_count(
                    self.parameters,
                    i,
                ) + t],
    {
        let sc = shared_count(self.parameters, i);
        let part = self.private_part(i);
        assert(self.cliques[i].no_duplicates());
        assert forall|t: int| 0 <= t < part.len() implies (#[trigger] part[t]) < self.size() by {
            assert(self.cliques[i][sc + t] < self.size());
        }
        assert forall|t: int| 0 <= t < self.separator(i).len() implies (#[trigger] self.separator(i)[t])
            < self.size() by {
            assert(self.cliques[i][t] < self.size());
        }
    }

    /// The variables of a clique are not private to a later clique.
    pub proof fn lemma_earlier_disjoint(&self, c: int, i: int)
        requires
            tree_formed(self.parameters, self.cliques),
            0 <= c < i < self.m(),
        ensures
            disjoint(self.cliques[c], self.private_part(i)),
            disjoint(self.separator(c), self.private_part(i)),
            disjoint(self.private_part(c), self.private_part(i)),
    {
        let p = self.parameters;
        self.lemma_private_part(i);
        self.lemma_private_part(c);
        assert forall|a: int, t: int|
            0 <= a < self.cliques[c].len() && 0 <= t < self.private_part(i).len() implies self.cliques[c][a]
            != self.private_part(i)[t] by {
            let owner = lemma_owner_not_later(p, self.cliques, c, a);
            let jt = shared_count(p, i) + t;
            assert(is_private(p, i, jt));
            if self.cliques[c][a] == self.private_part(i)[t] {
                assert(self.cliques[owner.0][owner.1] == self.cliques[i][jt]);
            }
        }
        assert forall|a: int, t: int|
            0 <= a < self.separator(c).len() && 0 <= t < self.private_part(i).len() implies self.separator(
            c,
        )[a] != self.private_part(i)[t] by {
            assert(self.separator(c)[a] == self.cliques[c][a]);
        }
        assert forall|a: int, t: int|
            0 <= a < self.private_part(c).len() && 0 <= t < self.private_part(i).len() implies self.private_part(
            c,
        )[a] != self.private_part(i)[t] by {
            assert(self.private_part(c)[a] == self.cliques[c][shared_count(p, c) + a]);
        }
    }

    /// The variables that a clique shares with its parent are not among its
    /// private ones.
    pub proof fn lemma_separator_disjoint(&self, i: int)
        requires
            tree_formed(self.parameters, self.cliques),
            0 <= i < self.m(),
        ensures
            disjoint(self.separator(i), self.private_part(i)),
    {
        let p = self.parameters;
        self.lemma_private_part(i);
        assert forall|a: int, t: int|
            0 <= a < self.separator(i).len() && 0 <= t < self.private_part(i).len() implies self.separator(
            i,
        )[a] != self.private_part(i)[t] by {
            assert(self.cliques[i].no_duplicates());
            assert(self.separator(i)[a] == self.cliques[i][a]);
            assert(self.private_part(i)[t] == self.cliques[i][shared_count(p, i) + t]);
        }
    }

    /// A private variable of a later clique is not private to clique `i`.
    pub proof fn lemma_later_private_elsewhere(&self, i: int, c: int, j: int)
        requires
            tree_formed(self.parameters, self.cliques),
            0 <= i < self.m(),
            is_private(self.parameters, c, j),
            c != i,
        ensures
            !self.private_part(i).contains(self.cliques[c][j]),
    {
        let p = self.parameters;
        self.lemma_private_part(i);
        if self.private_part(i).contains(self.cliques[c][j]) {
            let t = choose|t: int| 0 <= t < self.private_part(i).len() && self.private_part(i)[t] == self.cliques[c][j];
            let jt = shared_count(p, i) + t;
            assert(is_private(p, i, jt));
            assert(self.cliques[i][jt] == self.cliques[c][j]);
        }
    }

    /// Extending a staged assignment by a selected value gives an
    /// assignment staged one clique further.
    pub proof fn lemma_extension_sound(&self, sel: Selection, i: int, x: Seq<u32>, f: int)
        requires
            tree_formed(self.parameters, self.cliques),
            0 <= i < self.m(),
            staged(*self, sel, i, x),
            sel(i, self.separator_value(i, x)).contains(f),
            0 <= f < self.free_count(i),
        ensures
            staged(*self, sel, i + 1, extended(*self, i, x, f)),
            self.separator_value(i, extended(*self, i, x, f)) == self.separator_value(i, x),
            self.private_value(i, extended(*self, i, x, f)) == f,
    {
        let p = self.parameters;
        let part = self.private_part(i);
        let bits = bits_of(f as nat, self.free_bits(i));
        let y = extended(*self, i, x, f);
        self.lemma_private_part(i);
        lemma_bits_of_is_bits(f as nat, self.free_bits(i));
        lemma_overwritten_is_bits(x, part, bits);
        lemma_overwritten_gather(x, part, bits);
        lemma_bits_value_of_bits_of(f as nat, self.free_bits(i));
        lemma_small_mod(f as nat, pow2(self.free_bits(i)));
        self.lemma_separator_disjoint(i);
        lemma_overwritten_elsewhere(x, part, bits, self.separator(i));
        assert(accepted(*self, sel, i, y));
        assert forall|c: int| 0 <= c < i + 1 implies #[trigger] accepted(*self, sel, c, y) by {
            if c < i {
                self.lemma_earlier_disjoint(c, i);
                self.lemma_private_part(c);
                lemma_overwritten_elsewhere(x, part, bits, self.separator(c));
                lemma_overwritten_elsewhere(x, part, bits, self.private_part(c));
                assert(accepted(*self, sel, c, x));
            }
        }
        assert forall|c: int, j: int| i + 1 <= c && is_private(p, c, j) implies y[(#[trigger] self.cliques[c][j]) as int]
            == 0 by {
            self.lemma_later_private_elsewhere(i, c, j);
            assert(self.cliques[c][j] < self.size());
            assert(x[self.cliques[c][j] as int] == 0);
        }
    }

    /// An assignment staged one clique further is the extension of a staged
    /// assignment by a selected value.
    pub proof fn lemma_extension_complete(&self, sel: Selection, i: int, y: Seq<u32>)
        requires
            tree_formed(self.parameters, self.cliques),
            0 <= i < self.m(),
            staged(*self, sel, i + 1, y),
        ensures
            staged(*self, sel, i, extended(*self, i, y, 0)),
            sel(i, self.separator_value(i, extended(*self, i, y, 0))).contains(self.private_value(i, y)),
            0 <= self.private_value(i, y) < self.free_count(i),
            extended(*self, i, extended(*self, i, y, 0), self.private_value(i, y)) == y,
    {
        let p = self.parameters;
        let part = self.private_part(i);
        let fb = self.free_bits(i);
        let zeros = bits_of(0, fb);
        let x = extended(*self, i, y, 0);
        let f = self.private_value(i, y);
        self.lemma_private_part(i);
        lemma_bits_of_is_bits(0, fb);
        lemma_overwritten_is_bits(y, part, zeros);
        self.lemma_separator_disjoint(i);
        lemma_overwritten_elsewhere(y, part, zeros, self.separator(i));
        lemma_gather_is_bits(y, part);
        lemma_bits_value_bound(gather(y, part));
        lemma_bits_of_bits_value(gather(y, part));
        assert(accepted(*self, sel, i, y));
        assert forall|c: int| 0 <= c < i implies #[trigger] accepted(*self, sel, c, x) by {
            self.lemma_earlier_disjoint(c, i);
            self.lemma_private_part(c);
            lemma_overwritten_elsewhere(y, part, zeros, self.separator(c));
            lemma_overwritten_elsewhere(y, part, zeros, self.private_part(c));
            assert(accepted(*self, sel, c, y));
        }
        assert forall|c: int, j: int| i <= c && is_private(p, c, j) implies x[(#[trigger] self.cliques[c][j]) as int]
            == 0 by {
            assert(self.cliques[c][j] < self.size());
            if c == i {
                let t = j - shared_count(p, i);
                lemma_overwritten_at(y, part, zeros, t);
                assert(part[t] == self.cliques[i][j]);
                lemma_pow2_pos((fb - 1 - t) as nat);
                assert(0int / (pow2((fb - 1 - t) as nat) as int) == 0) by (nonlinear_arith)
                    requires
                        pow2((fb - 1 - t) as nat) > 0,
                ;
            } else {
                self.lemma_later_private_elsewhere(i, c, j);
                assert(y[self.cliques[c][j] as int] == 0);
            }
        }
        let bits = bits_of(f as nat, fb);
        let z = extended(*self, i, x, f);
        assert(bits =~= gather(y, part));
        assert forall|v: int| 0 <= v < y.len() implies z[v] == y[v] by {
            if part.contains(v as u32) {
                let t = choose|t: int| 0 <= t < part.len() && part[t] == v as u32;
                lemma_overwritten_at(x, part, bits, t);
            }
        }
        assert(z =~= y);
    }

    /// Two staged assignments with the same extension are the same, and so
    /// are the values by which they were extended.
    pub proof fn lemma_extension_injective(
        &self,
        sel: Selection,
        i: int,
        x1: Seq<u32>,
        f1: int,
        x2: Seq<u32>,
        f2: int,
    )
        requires
            tree_formed(self.parameters, self.cliques),
            0 <= i < self.m(),
            staged(*self, sel, i, x1),
            staged(*self, sel, i, x2),
            0 <= f1 < self.free_count(i),
            0 <= f2 < self.free_count(i),
            extended(*self, i, x1, f1) == extended(*self, i, x2, f2),
        ensures
            x1 == x2,
            f1 == f2,
    {
        let p = self.parameters;
        let part = self.private_part(i);
        let fb = self.free_bits(i);
        self.lemma_private_part(i);
        lemma_overwritten_gather(x1, part, bits_of(f1 as nat, fb));
        lemma_overwritten_gather(x2, part, bits_of(f2 as nat, fb));
        lemma_bits_value_of_bits_of(f1 as nat, fb);
        lemma_bits_value_of_bits_of(f2 as nat, fb);
        lemma_small_mod(f1 as nat, pow2(fb));
        lemma_small_mod(f2 as nat, pow2(fb));
        let y1 = extended(*self, i, x1, f1);
        let y2 = extended(*self, i, x2, f2);
        assert forall|v: int| 0 <= v < x1.len() implies x1[v] == x2[v] by {
            if part.contains(v as u32) {
                let t = choose|t: int| 0 <= t < part.len() && part[t] == v as u32;
                let j = shared_count(p, i) + t;
                assert(is_private(p, i, j));
                assert(self.cliques[i][j] == v);
                assert(x1[self.cliques[i][j] as int] == 0);
                assert(x2[self.cliques[i][j] as int] == 0);
            } else {
                assert(y1[v] == x1[v]);
                assert(y2[v] == x2[v]);
            }
        }
        assert(x1 =~= x2);
    }

    /// Only the all-zero assignment is staged before the first clique.
    pub proof fn lemma_initial_stage(&self, sel: Selection)
        requires
            tree_formed(self.parameters, self.cliques),
        ensures
            lists_exactly(seq![all_zero(self.size())], *self, sel, 0),
    {
        let p = self.parameters;
        let zero = all_zero(self.size());
        let strings = seq![zero];
        assert(strings[0] == zero);
        assert(staged(*self, sel, 0, zero)) by {
            assert forall|c: int, j: int| 0 <= c && is_private(p, c, j) implies zero[(#[trigger] self.cliques[c][j]) as int]
                == 0 by {
                assert(self.cliques[c][j] < self.size());
            }
        }
        assert forall|x: Seq<u32>| staged(*self, sel, 0, x) implies strings.contains(x) by {
            assert forall|v: int| 0 <= v < x.len() implies x[v] == zero[v] by {
                assert(has_owner(p, self.cliques, v));
                let (c, j) = choose|c: int, j: int| is_private(p, c, j) && #[trigger] self.cliques[c][j] == v;
                assert(x[self.cliques[c][j] as int] == 0);
            }
            assert(x =~= zero);
        }
    }
}

/// Every list of the selection holds a value.
pub open spec fn selection_inhabited(ls: Landscape, sel: Selection) -> bool {
    forall|i: int, s: int| 0 <= i < ls.m() ==> (#[trigger] sel(i, s)).len() >= 1
}

/// At every stage some assignment is staged.
pub proof fn lemma_staged_exists(ls: Landscape, sel: Selection, stage: int) -> (x: Seq<u32>)
    requires
        tree_formed(ls.parameters, ls.cliques),
        selection_ranged(ls, sel),
        selection_inhabited(ls, sel),
        0 <= stage <= ls.m(),
    ensures
        staged(ls, sel, stage, x),
    decreases stage,
{
    if stage == 0 {
        ls.lemma_initial_stage(sel);
        let zero = all_zero(ls.size());
        assert(seq![zero][0] == zero);
        assert(seq![zero].contains(zero));
        zero
    } else {
        let before = lemma_staged_exists(ls, sel, stage - 1);
        let choices = sel(stage - 1, ls.separator_value(stage - 1, before));
        assert(choices.contains(choices[0]));
        ls.lemma_extension_sound(sel, stage - 1, before, choices[0]);
        extended(ls, stage - 1, before, choices[0])
    }
}

/// The place from which an assignment of the grown list comes: the position
/// `origin.0` of the list before and the position `origin.1` among the values
/// selected for it.
pub open spec fn grown_from(
    ls: Landscape,
    sel: Selection,
    i: int,
    before: Seq<Seq<u32>>,
    origin: (int, int),
    y: Seq<u32>,
) -> bool {
    let choices = sel(i, ls.separator_value(i, before[origin.0]));
    &&& 0 <= origin.0 < before.len()
    &&& 0 <= origin.1 < choices.len()
    &&& y == extended(ls, i, before[origin.0], choices[origin.1])
}

/// Every assignment of `list` comes from the place that `origins` names for
/// it.
pub open spec fn all_grown_from(
    ls: Landscape,
    sel: Selection,
    i: int,
    before: Seq<Seq<u32>>,
    origins: Seq<(int, int)>,
    list: Seq<Seq<u32>>,
) -> bool {
    &&& origins.len() == list.len()
    &&& forall|r: int| 0 <= r < list.len() ==> grown_from(ls, sel, i, before, #[trigger] origins[r], list[r])
}

/// Every place in `origins` comes before the place `(a, b)`.
pub open spec fn origins_before(origins: Seq<(int, int)>, a: int, b: int) -> bool {
    forall|r: int|
        0 <= r < origins.len() ==> (#[trigger] origins[r]).0 < a || (origins[r].0 == a && origins[r].1 < b)
}

pub proof fn lemma_push_origin(
    ls: Landscape,
    sel: Selection,
    i: int,
    before: Seq<Seq<u32>>,
    origins: Seq<(int, int)>,
    list: Seq<Seq<u32>>,
    a: int,
    b: int,
    y: Seq<u32>,
)
    requires
        all_grown_from(ls, sel, i, before, origins, list),
        origins.no_duplicates(),
        origins_before(origins, a, b),
        grown_from(ls, sel, i, before, (a, b), y),
    ensures
        all_grown_from(ls, sel, i, before, origins.push((a, b)), list.push(y)),
        origins.push((a, b)).no_duplicates(),
        origins_before(origins.push((a, b)), a, b + 1),
        origins.push((a, b)).contains((a, b)),
        forall|o: (int, int)| origins.contains(o) ==> origins.push((a, b)).contains(o),
{
    let grown = origins.push((a, b));
    assert(grown[origins.len() as int] == (a, b));
    assert forall|o: (int, int)| origins.contains(o) implies grown.contains(o) by {
        let r = choose|r: int| 0 <= r < origins.len() && origins[r] == o;
        assert(grown[r] == o);
    }
    assert forall|r: int| 0 <= r < list.push(y).len() implies grown_from(
        ls,
        sel,
        i,
        before,
        #[trigger] grown[r],
        list.push(y)[r],
    ) by {
        if r < origins.len() {
            assert(grown[r] == origins[r]);
        }
    }
}

/// A list that holds one extension for each assignment of the list before
/// and each value selected for it lists exactly the assignments staged one
/// clique further.
pub proof fn lemma_grown_list_exact(
    ls: Landscape,
    sel: Selection,
    i: int,
    before: Seq<Seq<u32>>,
    after: Seq<Seq<u32>>,
    origins: Seq<(int, int)>,
)
    requires
        tree_formed(ls.parameters, ls.cliques),
        selection_ranged(ls, sel),
        0 <= i < ls.m(),
        lists_exactly(before, ls, sel, i),
        all_grown_from(ls, sel, i, before, origins, after),
        origins.no_duplicates(),
        forall|a: int, b: int|
            0 <= a < before.len() && 0 <= b < sel(i, ls.separator_value(i, before[a])).len()
                ==> origins.contains((a, b)),
    ensures
        lists_exactly(after, ls, sel, i + 1),
{
    assert forall|r: int| 0 <= r < after.len() implies staged(ls, sel, i + 1, #[trigger] after[r]) by {
        let (a, b) = origins[r];
        assert(grown_from(ls, sel, i, before, origins[r], after[r]));
        assert(before.contains(before[a]));
        let choices = sel(i, ls.separator_value(i, before[a]));
        assert(choices.contains(choices[b]));
        ls.lemma_extension_sound(sel, i, before[a], choices[b]);
    }
    assert forall|r1: int, r2: int| 0 <= r1 < after.len() && 0 <= r2 < after.len() && r1 != r2 implies after[r1]
        != after[r2] by {
        let (a1, b1) = origins[r1];
        let (a2, b2) = origins[r2];
        assert(grown_from(ls, sel, i, before, origins[r1], after[r1]));
        assert(grown_from(ls, sel, i, before, origins[r2], after[r2]));
        assert(before.contains(before[a1]));
        assert(before.contains(before[a2]));
        let c1 = sel(i, ls.separator_value(i, before[a1]));
        let c2 = sel(i, ls.separator_value(i, before[a2]));
        if after[r1] == after[r2] {
            ls.lemma_extension_injective(sel, i, before[a1], c1[b1], before[a2], c2[b2]);
            assert(a1 == a2);
            assert(b1 == b2);
            assert(origins[r1] == origins[r2]);
        }
    }
    assert forall|y: Seq<u32>| staged(ls, sel, i + 1, y) implies after.contains(y) by {
        ls.lemma_extension_complete(sel, i, y);
        let x = extended(ls, i, y, 0);
        let f = ls.private_value(i, y);
        assert(before.contains(x));
        let a = choose|a: int| 0 <= a < before.len() && before[a] == x;
        let choices = sel(i, ls.separator_value(i, before[a]));
        let b = choose|b: int| 0 <= b < choices.len() && choices[b] == f;
        assert(origins.contains((a, b)));
        let r = choose|r: int| 0 <= r < origins.len() && origins[r] == (a, b);
        assert(grown_from(ls, sel, i, before, origins[r], after[r]));
    }
}

} // verus!
