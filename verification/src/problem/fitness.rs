//! Fixed-point fitness values and their comparison up to a tolerance.
//!
//! A fitness is an integer count of units of `10^-15`. Two fitness values
//! closer than the tolerance count as equal; one is better than another only
//! when it exceeds it by at least the tolerance.

use vstd::prelude::*;

verus! {

/// The number of fixed-point units that make up the fitness 1.
pub const FITNESS_UNIT: i64 = 1_000_000_000_000_000;

/// The comparison tolerance, `10^-10`, in fixed-point units.
pub const FITNESS_EPSILON: i128 = 100_000;

/// A candidate solution together with the fitness claimed for it. The
/// solution holds one value, 0 or 1, per variable.
#[derive(Debug, Clone)]
pub struct SolutionFit {
    pub solution: Vec<u32>,
    pub fitness: i128,
}

/// `a` and `b` differ by less than the tolerance.
pub open spec fn equal_fitness(a: int, b: int) -> bool {
    -FITNESS_EPSILON < a - b < FITNESS_EPSILON
}

/// `a` exceeds `b` by at least the tolerance.
pub open spec fn better_fitness(a: int, b: int) -> bool {
    a - b >= FITNESS_EPSILON
}

/// `a` is greater than `b`, or differs from it by less than the tolerance.
pub open spec fn better_or_equal_fitness(a: int, b: int) -> bool {
    a - b > -FITNESS_EPSILON
}

pub fn is_equal_fitness(fitness1: i128, fitness2: i128) -> (equal: bool)
    ensures
        equal == equal_fitness(fitness1 as int, fitness2 as int),
{
    if fitness1 >= fitness2 {
        fitness2 > i128::MAX - FITNESS_EPSILON || fitness1 < fitness2 + FITNESS_EPSILON
    } else {
        fitness1 > i128::MAX - FITNESS_EPSILON || fitness2 < fitness1 + FITNESS_EPSILON
    }
}

pub fn is_better_fitness(fitness1: i128, fitness2: i128) -> (better: bool)
    ensures
        better == better_fitness(fitness1 as int, fitness2 as int),
{
    fitness1 > fitness2 && !is_equal_fitness(fitness1, fitness2)
}

pub fn is_worse_fitness(fitness1: i128, fitness2: i128) -> (worse: bool)
    ensures
        worse == better_fitness(fitness2 as int, fitness1 as int),
{
    fitness1 < fitness2 && !is_equal_fitness(fitness1, fitness2)
}

pub fn is_better_or_equal_fitness(fitness1: i128, fitness2: i128) -> (result: bool)
    ensures
        result == better_or_equal_fitness(fitness1 as int, fitness2 as int),
{
    fitness1 > fitness2 || is_equal_fitness(fitness1, fitness2)
}

/// Whether two vectors hold the same values.
pub fn same_solution(a: &Vec<u32>, b: &Vec<u32>) -> (same: bool)
    ensures
        same == (a@ == b@),
{
    if a.len() != b.len() {
        return false;
    }
    let mut i: usize = 0;
    while i < a.len()
        invariant
            i <= a@.len() == b@.len(),
            forall|j: int| 0 <= j < i ==> a@[j] == b@[j],
        decreases a@.len() - i,
    {
        if a[i] != b[i] {
            return false;
        }
        i = i + 1;
    }
    assert(a@ =~= b@);
    true
}

pub fn is_better_solutionfit(solutionfit1: &SolutionFit, solutionfit2: &SolutionFit) -> (better: bool)
    ensures
        better == better_fitness(solutionfit1.fitness as int, solutionfit2.fitness as int),
{
    is_better_fitness(solutionfit1.fitness, solutionfit2.fitness)
}

pub fn is_worse_solutionfit(solutionfit1: &SolutionFit, solutionfit2: &SolutionFit) -> (worse: bool)
    ensures
        worse == better_fitness(solutionfit2.fitness as int, solutionfit1.fitness as int),
{
    is_worse_fitness(solutionfit1.fitness, solutionfit2.fitness)
}

/// Two solutions count as equal when their fitness is the same number, or
/// when it differs by less than the tolerance and the solutions are the same.
pub open spec fn equal_solutionfit(a: SolutionFit, b: SolutionFit) -> bool {
    a.fitness == b.fitness || (equal_fitness(a.fitness as int, b.fitness as int) && a.solution@
        == b.solution@)
}

pub fn is_equal_solutionfit(solutionfit1: &SolutionFit, solutionfit2: &SolutionFit) -> (equal: bool)
    ensures
        equal == equal_solutionfit(*solutionfit1, *solutionfit2),
{
    solutionfit1.fitness == solutionfit2.fitness || (is_equal_fitness(
        solutionfit1.fitness,
        solutionfit2.fitness,
    ) && same_solution(&solutionfit1.solution, &solutionfit2.solution))
}

pub fn is_better_or_equal_solutionfit(solutionfit1: &SolutionFit, solutionfit2: &SolutionFit) -> (result: bool)
    ensures
        result == (solutionfit1.fitness > solutionfit2.fitness || equal_solutionfit(
            *solutionfit1,
            *solutionfit2,
        )),
{
    solutionfit1.fitness > solutionfit2.fitness || is_equal_solutionfit(solutionfit1, solutionfit2)
}

/// Exactly one of "better", "worse" and "equal" holds of two fitness values.
pub proof fn lemma_fitness_trichotomy(a: int, b: int)
    ensures
        better_fitness(a, b) || better_fitness(b, a) || equal_fitness(a, b),
        !(better_fitness(a, b) && better_fitness(b, a)),
        !(better_fitness(a, b) && equal_fitness(a, b)),
        !(better_fitness(b, a) && equal_fitness(a, b)),
        better_or_equal_fitness(a, b) <==> (better_fitness(a, b) || equal_fitness(a, b)),
{
}

} // verus!
