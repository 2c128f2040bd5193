//! Construction of the clique tree from a random permutation of the
//! variables.

use vstd::prelude::*;
use rand::seq::SliceRandom;
use rand_chacha::ChaChaRng;
use crate::problem::clique_tree::{CliqueTree, InputParameters};
use crate::problem::landscape::{
    cliques_distinct, cliques_shaped, has_owner, is_child, is_private, lemma_parent_unique,
    privates_cover, privates_injective, rows, separators_in_parents, separators_match,
    shared_count, tree_formed,
};

verus! {

#[verifier::external_type_specification]
#[verifier::external_body]
pub struct ExChaChaRng(rand_chacha::ChaCha20Rng);

/// The numbers below `n` in increasing order.
pub open spec fn ascending(n: int) -> Seq<u32> {
    Seq::new(n as nat, |t: int| t as u32)
}

/// `s` holds every number below `n` exactly once.
pub open spec fn is_permutation(s: Seq<u32>, n: int) -> bool {
    &&& s.len() == n
    &&& s.no_duplicates()
    &&& forall|t: int| 0 <= t < n ==> (#[trigger] s[t]) < n
    &&& forall|v: u32| v < n ==> #[trigger] s.contains(v)
}

/// One of the first `limit` elements of `perm` is `v`.
pub open spec fn drawn_before(perm: Seq<u32>, limit: int, v: u32) -> bool {
    exists|t: int| 0 <= t < limit && t < perm.len() && #[trigger] perm[t] == v
}

/// Rearranges `values` by `rand::seq::SliceRandom::shuffle`, which swaps
/// elements of the slice in place. Claimed of it: afterwards the vector holds
/// the same values as before, each as often as before.
#[verifier::external_body]
pub(crate) fn shuffle(values: &mut Vec<u32>, rng: &mut ChaChaRng)
    ensures
        final(values)@.to_multiset() == old(values)@.to_multiset(),
{
    values.shuffle(rng);
}

/// A rearrangement of the numbers below `n` is a permutation of them.
pub proof fn lemma_rearranged_ascending(s: Seq<u32>, n: int)
    requires
        0 <= n <= u32::MAX,
        s.to_multiset() == ascending(n).to_multiset(),
    ensures
        is_permutation(s, n),
{
    broadcast use vstd::seq_lib::group_to_multiset_ensures;

    let base = ascending(n);
    assert(base.no_duplicates());
    base.lemma_multiset_has_no_duplicates();
    s.lemma_multiset_has_no_duplicates_conv();
    assert(s.len() == s.to_multiset().len());
    assert(base.len() == base.to_multiset().len());
    assert forall|t: int| 0 <= t < n implies (#[trigger] s[t]) < n by {
        assert(s.contains(s[t]));
        assert(base.to_multiset().count(s[t]) > 0);
        assert(base.contains(s[t]));
        let idx = choose|idx: int| 0 <= idx < base.len() && base[idx] == s[t];
        assert(base[idx] == idx);
    }
    assert forall|v: u32| v < n implies #[trigger] s.contains(v) by {
        assert(base[v as int] == v);
        assert(base.contains(v));
        assert(s.to_multiset().count(v) > 0);
    }
}

/// A rearrangement of a sequence without duplicates has the same elements
/// and no duplicates either.
pub proof fn lemma_rearranged_distinct(s: Seq<u32>, before: Seq<u32>)
    requires
        before.no_duplicates(),
        s.to_multiset() == before.to_multiset(),
    ensures
        s.len() == before.len(),
        s.no_duplicates(),
        forall|v: u32| s.contains(v) <==> before.contains(v),
{
    broadcast use vstd::seq_lib::group_to_multiset_ensures;

    before.lemma_multiset_has_no_duplicates();
    s.lemma_multiset_has_no_duplicates_conv();
    assert(s.len() == s.to_multiset().len());
    assert(before.len() == before.to_multiset().len());
    assert forall|v: u32| s.contains(v) <==> before.contains(v) by {
        assert(s.contains(v) <==> s.to_multiset().count(v) > 0);
        assert(before.contains(v) <==> before.to_multiset().count(v) > 0);
    }
}

/// The first `len` elements of `source`.
pub fn take_prefix(source: &Vec<u32>, len: usize) -> (prefix: Vec<u32>)
    requires
        len <= source@.len(),
    ensures
        prefix@ == source@.subrange(0, len as int),
{
    let mut prefix: Vec<u32> = Vec::new();
    let mut i: usize = 0;
    while i < len
        invariant
            i <= len <= source@.len(),
            prefix@ == source@.subrange(0, i as int),
        decreases len - i,
    {
        prefix.push(source[i]);
        proof {
            assert(prefix@ =~= source@.subrange(0, i + 1));
        }
        i = i + 1;
    }
    prefix
}

/// The clique of a child: the first `o` variables of the shuffled copy of
/// its parent, which are its separator, followed by the `k - o` variables
/// that `indices` holds from `start_index` on. Returns the clique and the
/// separator.
pub fn child_clique(
    shuffled_parent: &Vec<u32>,
    indices: &Vec<u32>,
    start_index: usize,
    k: usize,
    o: usize,
) -> (child: (Vec<u32>, Vec<u32>))
    requires
        o <= k,
        o <= shuffled_parent@.len(),
        start_index + (k - o) <= indices@.len(),
    ensures
        child.1@ == shuffled_parent@.subrange(0, o as int),
        child.0@ == shuffled_parent@.subrange(0, o as int) + indices@.subrange(
            start_index as int,
            start_index + (k - o),
        ),
{
    let new_separator = take_prefix(shuffled_parent, o);
    let mut new_clique = take_prefix(shuffled_parent, o);
    let available: usize = indices.len();
    let mut t: usize = 0;
    while t < k - o
        invariant
            o <= k,
            o <= shuffled_parent@.len(),
            t <= k - o,
            available == indices@.len(),
            start_index + (k - o) <= indices@.len(),
            new_clique@ == shuffled_parent@.subrange(0, o as int) + indices@.subrange(
                start_index as int,
                start_index + t,
            ),
        decreases k - o - t,
    {
        new_clique.push(indices[start_index + t]);
        proof {
            assert(new_clique@ =~= shuffled_parent@.subrange(0, o as int) + indices@.subrange(
                start_index as int,
                start_index + t + 1,
            ));
        }
        t = t + 1;
    }
    (new_clique, new_separator)
}

/// What holds of the cliques built so far: the first `count` cliques of a
/// tree over the permutation `perm`.
pub open spec fn partly_built(
    p: InputParameters,
    perm: Seq<u32>,
    cliques: Seq<Vec<u32>>,
    count: int,
) -> bool {
    let d = p.k - p.o;
    &&& cliques.len() == count
    &&& forall|c: int| 0 <= c < count ==> (#[trigger] cliques[c])@.len() == p.k
    &&& forall|c: int| 0 <= c < count ==> (#[trigger] cliques[c])@.no_duplicates()
    &&& forall|c: int, j: int|
        0 <= c < count && 0 <= j < p.k ==> drawn_before(perm, p.k + c * d, #[trigger] cliques[c]@[j])
    &&& forall|c: int, j: int|
        0 <= c < count && shared_count(p, c) <= j < p.k ==> #[trigger] cliques[c]@[j] == perm[c * d
            + j]
    &&& forall|i: int, c: int, j: int|
        #![trigger is_child(p, i, c), cliques[c]@[j]]
        is_child(p, i, c) && c < count && 0 <= j < p.o ==> cliques[i]@.contains(cliques[c]@[j])
}

/// The private positions of two cliques lie at different places of the
/// permutation.
pub proof fn lemma_private_slots_differ(p: InputParameters, i1: int, j1: int, i2: int, j2: int)
    requires
        p.valid(),
        is_private(p, i1, j1),
        is_private(p, i2, j2),
        i1 * (p.k - p.o) + j1 == i2 * (p.k - p.o) + j2,
    ensures
        i1 == i2,
        j1 == j2,
{
    let d = p.k - p.o;
    let k = p.k as int;
    let o = p.o as int;
    if i1 < i2 {
        assert(i1 * d + d <= i2 * d) by (nonlinear_arith)
            requires
                i1 + 1 <= i2,
                d >= 1,
        ;
    } else if i2 < i1 {
        assert(i2 * d + d <= i1 * d) by (nonlinear_arith)
            requires
                i2 + 1 <= i1,
                d >= 1,
        ;
    }
}

/// Every place of the permutation is the private position of some clique.
pub proof fn lemma_slot_has_position(p: InputParameters, t: int) -> (position: (int, int))
    requires
        p.valid(),
        0 <= t < p.problem_size(),
    ensures
        is_private(p, position.0, position.1),
        position.0 * (p.k - p.o) + position.1 == t,
{
    let d = p.k - p.o;
    if t < p.k {
        assert(0 * d == 0);
        (0, t)
    } else {
        let i = (t - p.o) / d;
        let j = t - i * d;
        vstd::arithmetic::div_mod::lemma_fundamental_div_mod(t - p.o, d);
        vstd::arithmetic::div_mod::lemma_mod_bound(t - p.o, d);
        assert(i * d == d * i) by (nonlinear_arith);
        assert(1 <= i < p.m) by (nonlinear_arith)
            requires
                d >= 1,
                i * d <= t - p.o < i * d + d,
                t >= p.k,
                t < (p.m - 1) * d + p.k,
                p.k == d + p.o,
        ;
        (i, j)
    }
}

/// Cliques built over a permutation of the variables form a tree
/// decomposition.
pub proof fn lemma_built_tree_formed(p: InputParameters, perm: Seq<u32>, cliques: Seq<Vec<u32>>)
    requires
        p.valid(),
        is_permutation(perm, p.problem_size()),
        partly_built(p, perm, cliques, p.m as int),
    ensures
        tree_formed(p, rows(cliques)),
{
    let cs = rows(cliques);
    let d = p.k - p.o;
    assert(cliques_shaped(p, cs)) by {
        assert forall|i: int, j: int| 0 <= i < p.m && 0 <= j < p.k implies (#[trigger] cs[i][j])
            < p.problem_size() by {
            assert(drawn_before(perm, p.k + i * d, cliques[i]@[j]));
        }
    }
    assert(cliques_distinct(cs));
    assert(separators_in_parents(p, cs)) by {
        assert forall|i: int, c: int, j: int|
            #![trigger is_child(p, i, c), cs[c][j]]
            is_child(p, i, c) && c < p.m && 0 <= j < p.o implies cs[i].contains(cs[c][j]) by {
            assert(cliques[i]@.contains(cliques[c]@[j]));
            assert(p.branching() * i >= i) by (nonlinear_arith)
                requires
                    p.branching() >= 1,
                    i >= 0,
            ;
        }
    }
    assert(privates_injective(p, cs)) by {
        assert forall|i1: int, j1: int, i2: int, j2: int|
            #![trigger cs[i1][j1], cs[i2][j2]]
            is_private(p, i1, j1) && is_private(p, i2, j2) && cs[i1][j1] == cs[i2][j2] implies i1
            == i2 && j1 == j2 by {
            lemma_slot_in_range(p, i1, j1);
            lemma_slot_in_range(p, i2, j2);
            assert(cliques[i1]@[j1] == perm[i1 * d + j1]);
            assert(cliques[i2]@[j2] == perm[i2 * d + j2]);
            lemma_private_slots_differ(p, i1, j1, i2, j2);
        }
    }
    assert(privates_cover(p, cs)) by {
        assert forall|v: int| 0 <= v < p.problem_size() implies #[trigger] has_owner(p, cs, v) by {
            assert(perm.contains(v as u32));
            let t = choose|t: int| 0 <= t < perm.len() && perm[t] == v as u32;
            let position = lemma_slot_has_position(p, t);
            assert(cliques[position.0]@[position.1] == perm[position.0 * d + position.1]);
            assert(is_private(p, position.0, position.1) && cs[position.0][position.1] == v);
        }
    }
}

/// The place of a private position lies within the permutation.
pub proof fn lemma_slot_in_range(p: InputParameters, i: int, j: int)
    requires
        p.valid(),
        is_private(p, i, j),
    ensures
        0 <= i * (p.k - p.o) + j < p.problem_size(),
{
    let d = p.k - p.o;
    assert(0 <= i * d <= (p.m - 1) * d) by (nonlinear_arith)
        requires
            0 <= i <= p.m - 1,
            d >= 1,
    ;
}

impl CliqueTree {
    /// Builds the clique tree for the parameters: the cliques, and for each
    /// clique the separator that it shares with its parent (empty for the
    /// root).
    ///
    /// The variables are shuffled; the root takes the first `k` of them.
    /// Then each clique in turn becomes the parent of up to `b` children (one
    /// child where `o` is 0), until there are `m` cliques. A child shares `o`
    /// variables with its parent, chosen by shuffling the parent, and takes
    /// the next `k - o` shuffled variables for itself.
    pub fn construct(input_parameters: &InputParameters, rng: &mut ChaChaRng) -> (tree: (
        Vec<Vec<u32>>,
        Vec<Vec<u32>>,
    ))
        requires
            input_parameters.valid(),
        ensures
            tree_formed(*input_parameters, rows(tree.0@)),
            separators_match(*input_parameters, rows(tree.0@), rows(tree.1@)),
    {
        let p = *input_parameters;
        let size: u32 = input_parameters.number_of_variables();
        let k: usize = input_parameters.k as usize;
        let o: usize = input_parameters.o as usize;
        let b: u32 = if input_parameters.o == 0 {
            1
        } else {
            input_parameters.b
        };
        let ghost d: int = p.k - p.o;

        // Shuffle the variable indices.
        let mut indices: Vec<u32> = Vec::new();
        let mut next: u32 = 0;
        while next < size
            invariant
                next <= size,
                indices@ =~= ascending(next as int),
            decreases size - next,
        {
            indices.push(next);
            next = next + 1;
        }
        shuffle(&mut indices, rng);
        let ghost perm = indices@;
        proof {
            lemma_rearranged_ascending(perm, size as int);
            assert((p.m - 1) * d >= 0) by (nonlinear_arith)
                requires
                    p.m >= 1,
                    d >= 1,
            ;
        }

        // The root takes the first k variables and has no separator.
        let mut cliques: Vec<Vec<u32>> = Vec::new();
        let mut separators: Vec<Vec<u32>> = Vec::new();
        cliques.push(take_prefix(&indices, k));
        separators.push(Vec::new());
        proof {
            assert(0 * d == 0);
            assert forall|j: int| 0 <= j < p.k implies drawn_before(perm, p.k + 0 * d, #[trigger] cliques@[0]@[j]) by {
                assert(perm[j] == cliques@[0]@[j]);
            }
            assert forall|i: int, c: int, j: int|
                #![trigger is_child(p, i, c), cliques@[c]@[j]]
                is_child(p, i, c) && c < 1 && 0 <= j < p.o implies cliques@[i]@.contains(cliques@[c]@[j]) by {
                assert(p.branching() * i >= 0) by (nonlinear_arith)
                    requires
                        p.branching() >= 1,
                        i >= 0,
                ;
            }
            assert(separators@[0]@ =~= cliques@[0]@.subrange(0, 0));
        }

        let mut count: u32 = 1;
        let mut parent: u32 = 0;
        let mut slot: u32 = 0;
        while count < input_parameters.m
            invariant
                p == *input_parameters,
                p.valid(),
                k == p.k,
                o == p.o,
                d == p.k - p.o,
                b == p.branching(),
                size == p.problem_size(),
                indices@ == perm,
                is_permutation(perm, size as int),
                1 <= count <= p.m,
                slot < b,
                count == b * parent + slot + 1,
                partly_built(p, perm, cliques@, count as int),
                separators@.len() == count,
                forall|c: int|
                    0 <= c < count ==> (#[trigger] separators@[c])@ == cliques@[c]@.subrange(
                        0,
                        shared_count(p, c),
                    ),
            decreases p.m - count,
        {
            let ghost before = cliques@;
            proof {
                assert(parent < count) by (nonlinear_arith)
                    requires
                        b >= 1,
                        count == b * parent + slot + 1,
                ;
                assert((count - 1) * d + d <= (p.m - 1) * d) by (nonlinear_arith)
                    requires
                        count <= p.m - 1,
                        d >= 1,
                ;
                assert((count - 1) * d >= 0) by (nonlinear_arith)
                    requires
                        count >= 1,
                        d >= 1,
                ;
            }
            // Choose the separator: the first o variables of the shuffled
            // parent.
            let mut clique_copy = take_prefix(&cliques[parent as usize], k);
            let ghost parent_clique = cliques@[parent as int]@;
            proof {
                assert(clique_copy@ =~= parent_clique);
            }
            shuffle(&mut clique_copy, rng);
            proof {
                lemma_rearranged_distinct(clique_copy@, parent_clique);
            }
            let start_index: usize = (count as usize - 1) * (k - o) + k;
            let (new_clique, new_separator) = child_clique(&clique_copy, &indices, start_index, k, o);
            cliques.push(new_clique);
            separators.push(new_separator);
            proof {
                let c = count as int;
                let fresh = cliques@[c]@;
                assert(start_index == c * d + p.o) by (nonlinear_arith)
                    requires
                        start_index == (c - 1) * d + p.k,
                        d == p.k - p.o,
                ;
                assert(parent * d <= (c - 1) * d) by (nonlinear_arith)
                    requires
                        0 <= parent <= c - 1,
                        d >= 1,
                ;
                assert forall|j: int| 0 <= j < p.o implies parent_clique.contains(#[trigger] fresh[j])
                    && drawn_before(perm, p.k + c * d, fresh[j]) by {
                    assert(fresh[j] == clique_copy@[j]);
                    assert(clique_copy@.contains(fresh[j]));
                    let pj = choose|pj: int| 0 <= pj < parent_clique.len() && parent_clique[pj] == fresh[j];
                    assert(drawn_before(perm, p.k + parent * d, before[parent as int]@[pj]));
                    let t = choose|t: int| 0 <= t < p.k + parent * d && t < perm.len() && perm[t] == fresh[j];
                    assert(t < start_index);
                    assert(perm[t] == fresh[j]);
                }
                assert forall|j: int| p.o <= j < p.k implies #[trigger] fresh[j] == perm[c * d + j]
                    && drawn_before(perm, p.k + c * d, fresh[j]) by {
                    assert(fresh[j] == perm.subrange(start_index as int, start_index + d)[j - p.o]);
                    assert(perm[c * d + j] == fresh[j]);
                }
                assert(fresh.no_duplicates()) by {
                    assert forall|j1: int, j2: int|
                        0 <= j1 < fresh.len() && 0 <= j2 < fresh.len() && j1 != j2 implies fresh[j1]
                        != fresh[j2] by {
                        if j1 < p.o && j2 < p.o {
                            assert(fresh[j1] == clique_copy@[j1] && fresh[j2] == clique_copy@[j2]);
                        } else if j1 >= p.o && j2 >= p.o {
                            assert(fresh[j1] == perm[c * d + j1] && fresh[j2] == perm[c * d + j2]);
                        } else {
                            let (js, jp) = if j1 < p.o {
                                (j1, j2)
                            } else {
                                (j2, j1)
                            };
                            assert(drawn_before(perm, p.k + parent * d, fresh[js])) by {
                                assert(parent_clique.contains(fresh[js]));
                                let pj = choose|pj: int| 0 <= pj < parent_clique.len() && parent_clique[pj] == fresh[js];
                                assert(drawn_before(perm, p.k + parent * d, before[parent as int]@[pj]));
                            }
                            let t = choose|t: int| 0 <= t < p.k + parent * d && t < perm.len() && perm[t] == fresh[js];
                            assert(fresh[jp] == perm[c * d + jp]);
                            assert(t < c * d + jp);
                        }
                    }
                }
                assert forall|x: int| 0 <= x < count implies cliques@[x] == before[x] by {}
                assert forall|x: int, j: int|
                    0 <= x < count + 1 && 0 <= j < p.k implies drawn_before(
                    perm,
                    p.k + x * d,
                    #[trigger] cliques@[x]@[j],
                ) by {
                    if x < count {
                        assert(drawn_before(perm, p.k + x * d, before[x]@[j]));
                    }
                }
                assert forall|i: int, x: int, j: int|
                    #![trigger is_child(p, i, x), cliques@[x]@[j]]
                    is_child(p, i, x) && x < count + 1 && 0 <= j < p.o implies cliques@[i]@.contains(
                    cliques@[x]@[j],
                ) by {
                    if x < count {
                        assert(i < x) by (nonlinear_arith)
                            requires
                                p.branching() >= 1,
                                i >= 0,
                                p.branching() * i + 1 <= x,
                        ;
                        assert(before[i]@.contains(before[x]@[j]));
                    } else {
                        assert(is_child(p, parent as int, x));
                        lemma_parent_unique(p, i, parent as int, x);
                    }
                }
                assert(separators@[c]@ =~= cliques@[c]@.subrange(0, shared_count(p, c)));
                assert(b * (parent + 1) == b * parent + b) by (nonlinear_arith);
            }
            count = count + 1;
            slot = slot + 1;
            if slot == b {
                parent = parent + 1;
                slot = 0;
            }
        }
        proof {
            lemma_built_tree_formed(p, perm, cliques@);
            assert(separators_match(p, rows(cliques@), rows(separators@)));
        }
        (cliques, separators)
    }
}

} // verus!
