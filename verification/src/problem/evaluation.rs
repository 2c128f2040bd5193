//! The fitness of a candidate solution, from scratch and after the flip of
//! one variable.

use vstd::prelude::*;
use vstd::arithmetic::power2::{pow2, lemma_pow2_unfold, lemma_pow2_strictly_increases, lemma2_to64};
use crate::problem::bit_strings::{
    bits_value, gather, gathered_value, is_bits, lemma_bits_value_bound, power_of_two,
};
use crate::problem::clique_tree::CliqueTree;
use crate::problem::fitness::SolutionFit;
use crate::problem::landscape::{flipped, is_assignment, Landscape};

verus! {

/// The bit strings read from 32-bit signed values.
pub open spec fn unsigned_values(s: Seq<i32>) -> Seq<u32> {
    Seq::new(s.len(), |i: int| s[i] as u32)
}

/// Every position in `positions` is an index into a sequence of the length
/// `len`.
pub open spec fn positions_within(positions: Seq<u32>, len: int) -> bool {
    forall|j: int| 0 <= j < positions.len() ==> (#[trigger] positions[j]) < len
}

pub proof fn lemma_gather_is_bits(values: Seq<u32>, positions: Seq<u32>)
    requires
        is_bits(values),
        positions_within(positions, values.len() as int),
    ensures
        is_bits(gather(values, positions)),
        gather(values, positions).len() == positions.len(),
{
    assert forall|j: int| 0 <= j < positions.len() implies #[trigger] gather(values, positions)[j] <= 1 by {
        assert(positions[j] < values.len());
        assert(values[positions[j] as int] <= 1);
    }
}

/// Flipping one bit of a bit string moves its value by the weight of that
/// bit's position.
pub proof fn lemma_bits_value_flip(bits: Seq<u32>, pos: int)
    requires
        is_bits(bits),
        0 <= pos < bits.len(),
    ensures
        bits_value(flipped(bits, pos)) == bits_value(bits) + (1 - 2 * bits[pos]) * pow2(
            (bits.len() - 1 - pos) as nat,
        ),
    decreases bits.len(),
{
    lemma2_to64();
    let after = flipped(bits, pos);
    let d = 1 - 2 * bits[pos];
    assert(bits_value(after) == 2 * bits_value(after.drop_last()) + after.last());
    assert(bits_value(bits) == 2 * bits_value(bits.drop_last()) + bits.last());
    if pos == bits.len() - 1 {
        assert(after.drop_last() =~= bits.drop_last());
        assert(after.last() == 1 - bits[pos]);
        assert(d * pow2(0) == d) by (nonlinear_arith)
            requires
                pow2(0) == 1,
        ;
    } else {
        assert(after.last() == bits.last());
        assert(is_bits(bits.drop_last()));
        lemma_bits_value_flip(bits.drop_last(), pos);
        assert(after.drop_last() =~= flipped(bits.drop_last(), pos));
        lemma_pow2_unfold((bits.len() - 1 - pos) as nat);
        let w = pow2((bits.len() - 2 - pos) as nat) as int;
        assert(bits.drop_last()[pos] == bits[pos]);
        assert(2 * (d * w) == d * (2 * w)) by (nonlinear_arith);
    }
}

/// Gathering from a flipped assignment: the gathered string is flipped at
/// the one position that names the variable.
pub proof fn lemma_gather_flipped(x: Seq<u32>, positions: Seq<u32>, v: int, pos: int)
    requires
        0 <= v < x.len(),
        0 <= pos < positions.len(),
        positions[pos] == v,
        positions.no_duplicates(),
        positions_within(positions, x.len() as int),
    ensures
        gather(flipped(x, v), positions) =~= flipped(gather(x, positions), pos),
{
    assert forall|j: int| 0 <= j < positions.len() implies gather(flipped(x, v), positions)[j]
        == flipped(gather(x, positions), pos)[j] by {
        if j != pos {
            assert(positions[j] != positions[pos]);
        }
    }
}

/// Gathering at positions that do not name the flipped variable gives the
/// same string as before.
pub proof fn lemma_gather_untouched(x: Seq<u32>, positions: Seq<u32>, v: int)
    requires
        forall|j: int| 0 <= j < positions.len() ==> positions[j] != v,
        positions_within(positions, x.len() as int),
    ensures
        gather(flipped(x, v), positions) =~= gather(x, positions),
{
}

/// The first position of `clique` that holds `variable`, if there is one.
pub fn find_variable(clique: &Vec<u32>, variable: u32) -> (found: Option<usize>)
    ensures
        match found {
            Some(pos) => pos < clique@.len() && clique@[pos as int] == variable && forall|j: int|
                0 <= j < pos ==> clique@[j] != variable,
            None => forall|j: int| 0 <= j < clique@.len() ==> clique@[j] != variable,
        },
{
    let mut pos: usize = 0;
    while pos < clique.len()
        invariant
            pos <= clique@.len(),
            forall|j: int| 0 <= j < pos ==> clique@[j] != variable,
        decreases clique@.len() - pos,
    {
        if clique[pos] == variable {
            return Some(pos);
        }
        pos = pos + 1;
    }
    None
}

/// The table index of a clique under a solution: the solution's values at
/// the clique's variables, the first being the most significant bit.
pub fn clique_substring_index(clique: &Vec<u32>, solution: &[u32]) -> (index: u32)
    requires
        clique@.len() <= 32,
        positions_within(clique@, solution@.len() as int),
        is_bits(solution@),
    ensures
        index == gathered_value(solution@, clique@),
        index < pow2(clique@.len()),
{
    let ghost bits = gather(solution@, clique@);
    let mut index: u32 = 0;
    let mut j: usize = 0;
    proof {
        lemma2_to64();
        lemma_gather_is_bits(solution@, clique@);
        assert(bits.subrange(0, 0).len() == 0);
    }
    while j < clique.len()
        invariant
            j <= clique@.len() <= 32,
            positions_within(clique@, solution@.len() as int),
            is_bits(solution@),
            bits == gather(solution@, clique@),
            is_bits(bits),
            index == bits_value(bits.subrange(0, j as int)),
            index < pow2(j as nat),
        decreases clique@.len() - j,
    {
        proof {
            let next = bits.subrange(0, j + 1);
            assert(next.drop_last() =~= bits.subrange(0, j as int));
            assert(next.last() == solution@[clique@[j as int] as int]);
            assert(bits[j as int] <= 1);
            lemma_pow2_unfold((j + 1) as nat);
            lemma2_to64();
            if j < 31 {
                lemma_pow2_strictly_increases(j as nat, 31);
            }
            assert(index < 0x80000000);
        }
        index = index * 2 + solution[clique[j] as usize];
        j = j + 1;
    }
    proof {
        assert(bits.subrange(0, j as int) =~= bits);
    }
    index
}

/// The table index of a clique under a solution given as signed values.
pub fn clique_substring_index_int(clique: &Vec<u32>, solution: &[i32]) -> (index: u32)
    requires
        clique@.len() <= 32,
        positions_within(clique@, solution@.len() as int),
        forall|i: int| 0 <= i < solution@.len() ==> 0 <= #[trigger] solution@[i] <= 1,
    ensures
        index == gathered_value(unsigned_values(solution@), clique@),
        index < pow2(clique@.len()),
{
    let ghost x = unsigned_values(solution@);
    let ghost bits = gather(x, clique@);
    let mut index: u32 = 0;
    let mut j: usize = 0;
    proof {
        lemma2_to64();
        assert(is_bits(x)) by {
            assert forall|i: int| 0 <= i < x.len() implies #[trigger] x[i] <= 1 by {
                assert(0 <= solution@[i] <= 1);
            }
        }
        lemma_gather_is_bits(x, clique@);
        assert(bits.subrange(0, 0).len() == 0);
    }
    while j < clique.len()
        invariant
            j <= clique@.len() <= 32,
            positions_within(clique@, solution@.len() as int),
            forall|i: int| 0 <= i < solution@.len() ==> 0 <= #[trigger] solution@[i] <= 1,
            x == unsigned_values(solution@),
            bits == gather(x, clique@),
            is_bits(bits),
            index == bits_value(bits.subrange(0, j as int)),
            index < pow2(j as nat),
        decreases clique@.len() - j,
    {
        proof {
            let next = bits.subrange(0, j + 1);
            assert(next.drop_last() =~= bits.subrange(0, j as int));
            assert(0 <= solution@[clique@[j as int] as int] <= 1);
            assert(next.last() == solution@[clique@[j as int] as int] as u32);
            lemma_pow2_unfold((j + 1) as nat);
            lemma2_to64();
            if j < 31 {
                lemma_pow2_strictly_increases(j as nat, 31);
            }
            assert(index < 0x80000000);
        }
        index = index * 2 + solution[clique[j] as usize] as u32;
        j = j + 1;
    }
    proof {
        assert(bits.subrange(0, j as int) =~= bits);
    }
    index
}

impl CliqueTree {
    /// The fitness of a solution given as signed values 0 and 1. Counts one
    /// evaluation.
    pub fn calculate_fitness_int(&self, solution: &[i32], number_evaluations: &mut u32) -> (fitness: i128)
        requires
            self.landscape().shaped(),
            solution@.len() == self.landscape().size(),
            forall|i: int| 0 <= i < solution@.len() ==> 0 <= #[trigger] solution@[i] <= 1,
            *old(number_evaluations) < u32::MAX,
        ensures
            fitness == self.landscape().fitness(unsigned_values(solution@)),
            -Landscape::fitness_bound(self.landscape().m()) <= fitness <= Landscape::fitness_bound(
                self.landscape().m(),
            ),
            *final(number_evaluations) == *old(number_evaluations) + 1,
    {
        let ghost ls = self.landscape();
        let ghost x = unsigned_values(solution@);
        let ghost evaluated = x;
        let mut fitness: i128 = 0;
        let mut clique_index: usize = 0;
        while clique_index < self.cliques.len()
            invariant
                ls == self.landscape(),
                ls.shaped(),
                x == unsigned_values(solution@),
                solution@.len() == ls.size(),
                forall|i: int| 0 <= i < solution@.len() ==> 0 <= #[trigger] solution@[i] <= 1,
                clique_index <= self.cliques@.len() == ls.m(),
                fitness == ls.partial_fitness(x, clique_index as int),
            decreases self.cliques@.len() - clique_index,
        {
            let clique = &self.cliques[clique_index];
            proof {
                assert(ls.cliques[clique_index as int] == clique@);
                assert(ls.tables[clique_index as int] == self.codomain_values@[clique_index as int]@);
                assert forall|j: int| 0 <= j < clique@.len() implies (#[trigger] clique@[j]) < solution@.len() by {
                    assert(ls.cliques[clique_index as int][j] < ls.size());
                }
                ls.lemma_partial_fitness_bound(x, clique_index as int);
                assert(Landscape::fitness_bound(clique_index as int) <= 0x1_0000_0000
                    * 0x8000_0000_0000_0000) by (nonlinear_arith)
                    requires
                        clique_index <= 0x1_0000_0000,
                ;
            }
            let clique_substring_as_index = clique_substring_index_int(clique, solution);
            fitness = fitness + self.codomain_values[clique_index][clique_substring_as_index as usize] as i128;
            clique_index = clique_index + 1;
        }
        proof {
            ls.lemma_partial_fitness_bound(evaluated, ls.m());
        }
        *number_evaluations = *number_evaluations + 1;
        fitness
    }

    /// The fitness that a solution has after the flip of the variable
    /// `index_mutation`, computed from the fitness claimed for the solution
    /// as it stands: only the cliques that hold the variable are looked up
    /// again. The solution itself is not changed. Counts one evaluation.
    pub fn calculate_fitness_delta(
        &self,
        current_solutionfit: &SolutionFit,
        number_evaluations: &mut u32,
        index_mutation: u32,
    ) -> (fitness: i128)
        requires
            self.landscape().shaped(),
            self.landscape().cliques_distinct(),
            is_assignment(current_solutionfit.solution@, self.landscape().size()),
            -Landscape::fitness_bound(self.landscape().m()) <= current_solutionfit.fitness
                <= Landscape::fitness_bound(self.landscape().m()),
            *old(number_evaluations) < u32::MAX,
        ensures
            fitness == current_solutionfit.fitness + self.landscape().fitness(
                flipped(current_solutionfit.solution@, index_mutation as int),
            ) - self.landscape().fitness(current_solutionfit.solution@),
            current_solutionfit.fitness == self.landscape().fitness(current_solutionfit.solution@) ==> fitness
                == self.landscape().fitness(flipped(current_solutionfit.solution@, index_mutation as int))
                && -Landscape::fitness_bound(self.landscape().m()) <= fitness <= Landscape::fitness_bound(
                self.landscape().m(),
            ),
            *final(number_evaluations) == *old(number_evaluations) + 1,
    {
        let ghost ls = self.landscape();
        let ghost x = current_solutionfit.solution@;
        let ghost y = flipped(x, index_mutation as int);
        let ghost evaluated = y;
        let mut fitness: i128 = current_solutionfit.fitness;
        let mut clique_index: usize = 0;
        proof {
            assert(is_bits(y));
            assert(Landscape::fitness_bound(ls.m()) <= 0x1_0000_0000 * 0x8000_0000_0000_0000) by (nonlinear_arith)
                requires
                    ls.m() <= 0x1_0000_0000,
            ;
        }
        while clique_index < self.cliques.len()
            invariant
                ls == self.landscape(),
                ls.shaped(),
                ls.cliques_distinct(),
                x == current_solutionfit.solution@,
                y == flipped(x, index_mutation as int),
                is_assignment(x, ls.size()),
                is_assignment(y, ls.size()),
                clique_index <= self.cliques@.len() == ls.m(),
                -Landscape::fitness_bound(ls.m()) <= current_solutionfit.fitness <= Landscape::fitness_bound(ls.m()),
                Landscape::fitness_bound(ls.m()) <= 0x1_0000_0000 * 0x8000_0000_0000_0000,
                fitness == current_solutionfit.fitness + ls.partial_fitness(y, clique_index as int)
                    - ls.partial_fitness(x, clique_index as int),
            decreases self.cliques@.len() - clique_index,
        {
            let clique = &self.cliques[clique_index];
            let k: usize = clique.len();
            proof {
                assert(ls.cliques[clique_index as int] == clique@);
                assert(clique@.no_duplicates());
                assert(ls.tables[clique_index as int] == self.codomain_values@[clique_index as int]@);
                assert forall|j: int| 0 <= j < clique@.len() implies (#[trigger] clique@[j]) < x.len() by {
                    assert(ls.cliques[clique_index as int][j] < ls.size());
                }
                ls.lemma_partial_fitness_bound(x, clique_index as int);
                ls.lemma_partial_fitness_bound(y, clique_index as int);
                assert(Landscape::fitness_bound(clique_index as int) <= 0x1_0000_0000
                    * 0x8000_0000_0000_0000) by (nonlinear_arith)
                    requires
                        clique_index <= 0x1_0000_0000,
                ;
            }
            match find_variable(clique, index_mutation) {
                Some(clique_mutation_index) => {
                    let clique_substring_as_index = clique_substring_index(
                        clique,
                        current_solutionfit.solution.as_slice(),
                    );
                    let weight: u64 = power_of_two((k - clique_mutation_index - 1) as u32);
                    let bit: u32 = current_solutionfit.solution[clique[clique_mutation_index] as usize];
                    proof {
                        let bits = gather(x, clique@);
                        lemma_gather_is_bits(x, clique@);
                        lemma_gather_is_bits(y, clique@);
                        lemma_gather_flipped(x, clique@, index_mutation as int, clique_mutation_index as int);
                        lemma_bits_value_flip(bits, clique_mutation_index as int);
                        lemma_bits_value_bound(gather(y, clique@));
                        lemma2_to64();
                        lemma_pow2_strictly_increases(clique@.len(), 32);
                        assert(bits[clique_mutation_index as int] == bit);
                        let d = 1 - 2 * bit;
                        assert(d * weight == if bit == 0 {
                            weight as int
                        } else {
                            -(weight as int)
                        }) by (nonlinear_arith)
                            requires
                                d == 1 - 2 * bit,
                                bit <= 1,
                        ;
                    }
                    let mutated_index: u32 = if bit == 0 {
                        clique_substring_as_index + weight as u32
                    } else {
                        clique_substring_as_index - weight as u32
                    };
                    assert(mutated_index == ls.clique_index(clique_index as int, y));
                    fitness = fitness - self.codomain_values[clique_index][clique_substring_as_index as usize] as i128;
                    fitness = fitness + self.codomain_values[clique_index][mutated_index as usize] as i128;
                },
                None => {
                    proof {
                        lemma_gather_untouched(x, clique@, index_mutation as int);
                    }
                },
            }
            clique_index = clique_index + 1;
        }
        proof {
            ls.lemma_partial_fitness_bound(evaluated, ls.m());
        }
        *number_evaluations = *number_evaluations + 1;
        fitness
    }

    /// The fitness of a solution: the sum over the cliques of the table
    /// value at the index that the solution gives the clique. Counts one
    /// evaluation.
    pub fn calculate_fitness(&self, solution: &[u32], number_evaluations: &mut u32) -> (fitness: i128)
        requires
            self.landscape().shaped(),
            is_assignment(solution@, self.landscape().size()),
            *old(number_evaluations) < u32::MAX,
        ensures
            fitness == self.landscape().fitness(solution@),
            -Landscape::fitness_bound(self.landscape().m()) <= fitness <= Landscape::fitness_bound(
                self.landscape().m(),
            ),
            *final(number_evaluations) == *old(number_evaluations) + 1,
    {
        let ghost ls = self.landscape();
        let ghost evaluated = solution@;
        let mut fitness: i128 = 0;
        let mut clique_index: usize = 0;
        while clique_index < self.cliques.len()
            invariant
                ls == self.landscape(),
                ls.shaped(),
                is_assignment(solution@, ls.size()),
                clique_index <= self.cliques@.len() == ls.m(),
                fitness == ls.partial_fitness(solution@, clique_index as int),
            decreases self.cliques@.len() - clique_index,
        {
            let clique = &self.cliques[clique_index];
            proof {
                assert(ls.cliques[clique_index as int] == clique@);
                assert(ls.tables[clique_index as int] == self.codomain_values@[clique_index as int]@);
                assert forall|j: int| 0 <= j < clique@.len() implies (#[trigger] clique@[j]) < solution@.len() by {
                    assert(ls.cliques[clique_index as int][j] < ls.size());
                }
                ls.lemma_partial_fitness_bound(solution@, clique_index as int);
                assert(Landscape::fitness_bound(clique_index as int) <= 0x1_0000_0000
                    * 0x8000_0000_0000_0000) by (nonlinear_arith)
                    requires
                        clique_index <= 0x1_0000_0000,
                ;
            }
            let clique_substring_as_index = clique_substring_index(clique, solution);
            fitness = fitness + self.codomain_values[clique_index][clique_substring_as_index as usize] as i128;
            clique_index = clique_index + 1;
        }
        proof {
            ls.lemma_partial_fitness_bound(evaluated, ls.m());
        }
        *number_evaluations = *number_evaluations + 1;
        fitness
    }
}

} // verus!
