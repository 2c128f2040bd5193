//! The mathematical model of a landscape: its cliques, its value tables and
//! the fitness that they give to an assignment.

use vstd::prelude::*;
use vstd::arithmetic::power2::pow2;
use crate::problem::bit_strings::{gathered_value, is_bits};
use crate::problem::clique_tree::InputParameters;

verus! {

/// The views of the vectors in `v`.
pub open spec fn rows<T>(v: Seq<Vec<T>>) -> Seq<Seq<T>> {
    Seq::new(v.len(), |i: int| v[i]@)
}

/// A landscape: for each clique its variables, in the order that fixes the
/// meaning of a table index, and its table of values.
pub struct Landscape {
    pub parameters: InputParameters,
    pub cliques: Seq<Seq<u32>>,
    pub tables: Seq<Seq<i64>>,
}

/// The landscape that parameters, cliques and value tables describe.
pub open spec fn landscape_of(
    parameters: InputParameters,
    cliques: Seq<Vec<u32>>,
    tables: Seq<Vec<i64>>,
) -> Landscape {
    Landscape { parameters, cliques: rows(cliques), tables: rows(tables) }
}

/// An assignment of 0 or 1 to each of `size` variables.
pub open spec fn is_assignment(x: Seq<u32>, size: int) -> bool {
    x.len() == size && is_bits(x)
}

/// The assignment that differs from `x` in the variable `v` only; `x` itself
/// where there is no such variable.
pub open spec fn flipped(x: Seq<u32>, v: int) -> Seq<u32> {
    if 0 <= v < x.len() {
        x.update(v, (1 - x[v]) as u32)
    } else {
        x
    }
}

/// The number of leading variables that clique `i` shares with its parent:
/// none for the root, `o` for every other clique.
pub open spec fn shared_count(p: InputParameters, i: int) -> int {
    if i == 0 {
        0
    } else {
        p.o as int
    }
}

/// Clique `child` is one of the children of clique `parent`: the cliques are
/// numbered level by level, so the children of a clique are consecutive.
pub open spec fn is_child(p: InputParameters, parent: int, child: int) -> bool {
    0 <= parent && p.branching() * parent + 1 <= child <= p.branching() * parent + p.branching()
}

/// Position `j` of clique `i` holds a variable that the clique does not
/// share with its parent.
pub open spec fn is_private(p: InputParameters, i: int, j: int) -> bool {
    0 <= i < p.m && shared_count(p, i) <= j < p.k
}

/// There are `m` cliques of `k` variables each, all below the number of
/// variables.
pub open spec fn cliques_shaped(p: InputParameters, cliques: Seq<Seq<u32>>) -> bool {
    &&& cliques.len() == p.m
    &&& forall|i: int| 0 <= i < p.m ==> (#[trigger] cliques[i]).len() == p.k
    &&& forall|i: int, j: int|
        0 <= i < p.m && 0 <= j < p.k ==> (#[trigger] cliques[i][j]) < p.problem_size()
}

/// No clique holds a variable twice.
pub open spec fn cliques_distinct(cliques: Seq<Seq<u32>>) -> bool {
    forall|i: int| 0 <= i < cliques.len() ==> (#[trigger] cliques[i]).no_duplicates()
}

/// The variables that a clique shares with its parent occur in the parent.
pub open spec fn separators_in_parents(p: InputParameters, cliques: Seq<Seq<u32>>) -> bool {
    forall|i: int, c: int, j: int|
        #![trigger is_child(p, i, c), cliques[c][j]]
        is_child(p, i, c) && c < p.m && 0 <= j < p.o ==> cliques[i].contains(cliques[c][j])
}

/// No variable is private to two cliques, or twice to one.
pub open spec fn privates_injective(p: InputParameters, cliques: Seq<Seq<u32>>) -> bool {
    forall|i1: int, j1: int, i2: int, j2: int|
        #![trigger cliques[i1][j1], cliques[i2][j2]]
        is_private(p, i1, j1) && is_private(p, i2, j2) && cliques[i1][j1] == cliques[i2][j2] ==> i1
            == i2 && j1 == j2
}

/// Some clique holds the variable `v` as a private one.
pub open spec fn has_owner(p: InputParameters, cliques: Seq<Seq<u32>>, v: int) -> bool {
    exists|i: int, j: int| is_private(p, i, j) && #[trigger] cliques[i][j] == v
}

/// Every variable is private to some clique.
pub open spec fn privates_cover(p: InputParameters, cliques: Seq<Seq<u32>>) -> bool {
    forall|v: int| 0 <= v < p.problem_size() ==> #[trigger] has_owner(p, cliques, v)
}

/// The cliques form a tree decomposition for the parameters: each clique
/// holds `k` distinct variables, the first `o` of a clique other than the
/// root occur in its parent, and every variable is private to exactly one
/// clique.
pub open spec fn tree_formed(p: InputParameters, cliques: Seq<Seq<u32>>) -> bool {
    &&& p.valid()
    &&& cliques_shaped(p, cliques)
    &&& cliques_distinct(cliques)
    &&& separators_in_parents(p, cliques)
    &&& privates_injective(p, cliques)
    &&& privates_cover(p, cliques)
}

/// The separators are those of the cliques: one per clique, holding the
/// variables that the clique shares with its parent, in the clique's order.
pub open spec fn separators_match(
    p: InputParameters,
    cliques: Seq<Seq<u32>>,
    separators: Seq<Seq<u32>>,
) -> bool {
    &&& separators.len() == p.m
    &&& forall|i: int|
        0 <= i < p.m ==> #[trigger] separators[i] == cliques[i].subrange(0, shared_count(p, i))
}

/// A clique has one parent at most.
pub proof fn lemma_parent_unique(p: InputParameters, i1: int, i2: int, c: int)
    requires
        p.valid(),
        is_child(p, i1, c),
        is_child(p, i2, c),
    ensures
        i1 == i2,
{
    let b = p.branching();
    assert(i1 == i2) by (nonlinear_arith)
        requires
            b >= 1,
            b * i1 + 1 <= c <= b * i1 + b,
            b * i2 + 1 <= c <= b * i2 + b,
    ;
}

impl Landscape {
    pub open spec fn m(&self) -> int {
        self.parameters.m as int
    }

    pub open spec fn k(&self) -> int {
        self.parameters.k as int
    }

    pub open spec fn o(&self) -> int {
        self.parameters.o as int
    }

    /// The number of variables.
    pub open spec fn size(&self) -> int {
        self.parameters.problem_size()
    }

    /// There are `m` tables of `2^k` values each.
    pub open spec fn tables_shaped(&self) -> bool {
        &&& self.tables.len() == self.m()
        &&& forall|i: int| 0 <= i < self.m() ==> (#[trigger] self.tables[i]).len() == pow2(self.k() as nat)
    }

    /// No clique holds a variable twice.
    pub open spec fn cliques_distinct(&self) -> bool {
        cliques_distinct(self.cliques)
    }

    /// Valid parameters with cliques and tables of the shape that they
    /// prescribe.
    pub open spec fn shaped(&self) -> bool {
        &&& self.parameters.valid()
        &&& cliques_shaped(self.parameters, self.cliques)
        &&& self.tables_shaped()
    }

    /// The cliques form a tree decomposition and the tables have the shape
    /// that the parameters prescribe.
    pub open spec fn well_formed(&self) -> bool {
        &&& tree_formed(self.parameters, self.cliques)
        &&& self.tables_shaped()
    }

    /// The table index of clique `i` under the assignment `x`: the values of
    /// the clique's variables, the first being the most significant bit.
    pub open spec fn clique_index(&self, i: int, x: Seq<u32>) -> nat {
        gathered_value(x, self.cliques[i])
    }

    /// The value that clique `i` contributes under the assignment `x`.
    pub open spec fn contribution(&self, i: int, x: Seq<u32>) -> int {
        self.tables[i][self.clique_index(i, x) as int] as int
    }

    /// The sum of the contributions of the first `count` cliques.
    pub open spec fn partial_fitness(&self, x: Seq<u32>, count: int) -> int
        decreases count,
    {
        if count <= 0 {
            0
        } else {
            self.partial_fitness(x, count - 1) + self.contribution(count - 1, x)
        }
    }

    /// The fitness of the assignment `x`: the sum of the contributions of
    /// all cliques.
    pub open spec fn fitness(&self, x: Seq<u32>) -> int {
        self.partial_fitness(x, self.m())
    }

    /// What a sum of `count` table entries can reach in either direction.
    pub open spec fn fitness_bound(count: int) -> int {
        count * 0x8000_0000_0000_0000
    }

    pub proof fn lemma_partial_fitness_bound(&self, x: Seq<u32>, count: int)
        requires
            0 <= count,
        ensures
            -Self::fitness_bound(count) <= self.partial_fitness(x, count) <= Self::fitness_bound(count),
        decreases count,
    {
        if count > 0 {
            self.lemma_partial_fitness_bound(x, count - 1);
        }
    }
}

} // verus!
