//! The parameters of a landscape and the clique tree itself.

use vstd::prelude::*;
use vstd::arithmetic::power2::{pow2, lemma_pow2_strictly_increases, lemma2_to64};
use rand_chacha::ChaChaRng;
use crate::problem::bit_strings::power_of_two;
use crate::problem::codomain_subclasses::CodomainFunction;
use crate::problem::construction::take_prefix;
use crate::problem::elimination::solvable;
use crate::problem::fitness::{equal_fitness, same_solution};
use crate::problem::landscape::{landscape_of, rows, Landscape};
use crate::problem::optimum::solutions;
use crate::problem::problem_generation::Problem;

pub use crate::problem::bit_strings::{
    get_possible_substrings, get_possible_substrings_iter, transform_substring_vector_to_index,
};
pub use crate::problem::elimination::{
    get_child_separator_substring, get_separator_substring_from_string,
};
pub use crate::problem::fitness::{
    is_better_fitness, is_better_or_equal_fitness, is_better_or_equal_solutionfit,
    is_better_solutionfit, is_equal_fitness, is_equal_solutionfit, is_worse_fitness,
    is_worse_solutionfit, SolutionFit,
};

verus! {

/// The parameters of a landscape: the number of cliques `m`, the number of
/// variables per clique `k`, the number of variables `o` that a clique
/// shares with its parent, and the number of branches `b` of the tree.
#[derive(Debug, PartialEq, Eq, Hash, Clone, Copy, Structural)]
pub struct InputParameters {
    pub m: u32,
    pub k: u32,
    pub o: u32,
    pub b: u32,
}

/// Why a set of parameters describes no landscape.
#[derive(Debug, PartialEq, Eq, Clone, Copy, Structural)]
pub enum ParameterError {
    /// `m` is zero.
    NoCliques,
    /// `k` is zero or at least 32.
    CliqueSizeOutOfRange,
    /// `o` is not smaller than `k`.
    SeparatorTooLarge,
    /// `b` is zero.
    NoBranches,
    /// The number of variables does not fit in 32 bits.
    TooManyVariables,
}

impl InputParameters {
    /// The number of variables of the landscape, `(m - 1)(k - o) + k`.
    pub open spec fn problem_size(&self) -> int {
        (self.m - 1) * (self.k - self.o) + self.k
    }

    /// The parameters describe a landscape whose variables can be numbered
    /// with 32 bits.
    pub open spec fn valid(&self) -> bool {
        &&& self.m >= 1
        &&& 1 <= self.k < 32
        &&& self.o < self.k
        &&& self.b >= 1
        &&& self.problem_size() <= u32::MAX
    }

    /// The number of children that a clique gets at most. Without shared
    /// variables the tree is a chain.
    pub open spec fn branching(&self) -> int {
        if self.o == 0 {
            1
        } else {
            self.b as int
        }
    }

    /// The reason for which the parameters are rejected, if any: the first
    /// that applies, in the order of the variants.
    pub open spec fn defect(&self) -> Option<ParameterError> {
        if self.m == 0 {
            Some(ParameterError::NoCliques)
        } else if self.k == 0 || self.k >= 32 {
            Some(ParameterError::CliqueSizeOutOfRange)
        } else if self.o >= self.k {
            Some(ParameterError::SeparatorTooLarge)
        } else if self.b == 0 {
            Some(ParameterError::NoBranches)
        } else if self.problem_size() > u32::MAX {
            Some(ParameterError::TooManyVariables)
        } else {
            None
        }
    }

    pub fn new_from_primitives(m: u32, k: u32, o: u32, b: u32) -> (parameters: InputParameters)
        ensures
            parameters == (InputParameters { m, k, o, b }),
    {
        InputParameters { m, k, o, b }
    }

    /// Checks the parameters before anything is built from them.
    pub fn validate(&self) -> (outcome: Result<(), ParameterError>)
        ensures
            outcome.is_ok() <==> self.valid(),
            outcome.is_err() ==> self.defect() == Some(outcome.unwrap_err()),
    {
        if self.m == 0 {
            return Err(ParameterError::NoCliques);
        }
        if self.k == 0 || self.k >= 32 {
            return Err(ParameterError::CliqueSizeOutOfRange);
        }
        if self.o >= self.k {
            return Err(ParameterError::SeparatorTooLarge);
        }
        if self.b == 0 {
            return Err(ParameterError::NoBranches);
        }
        let fresh: u64 = (self.k - self.o) as u64;
        let others: u64 = (self.m - 1) as u64;
        assert(others * fresh <= 0xffff_ffff * 32) by (nonlinear_arith)
            requires
                others <= 0xffff_ffff,
                fresh <= 32,
        ;
        let size: u64 = others * fresh + self.k as u64;
        if size > u32::MAX as u64 {
            return Err(ParameterError::TooManyVariables);
        }
        Ok(())
    }

    /// The number of variables of the landscape.
    pub fn number_of_variables(&self) -> (size: u32)
        requires
            self.valid(),
        ensures
            size == self.problem_size(),
    {
        assert((self.m - 1) * (self.k - self.o) >= 0) by (nonlinear_arith)
            requires
                self.m >= 1,
                self.k > self.o,
        ;
        (self.m - 1) * (self.k - self.o) + self.k
    }
}

/// A landscape together with its global optima: the parameters, the class
/// of its subfunctions, the variables of each clique, the value table of each
/// clique, every optimal assignment and the fitness that they share.
#[derive(Debug)]
pub struct CliqueTree {
    pub input_parameters: InputParameters,
    pub codomain_function: CodomainFunction,
    pub cliques: Vec<Vec<u32>>,
    pub codomain_values: Vec<Vec<i64>>,
    pub glob_optima_strings: Vec<Vec<u32>>,
    pub glob_optima_score: i128,
}

/// Why no clique tree was built.
#[derive(Debug, PartialEq, Eq, Clone, Copy, Structural)]
pub enum ConstructionError {
    /// The parameters describe no landscape.
    Parameters(ParameterError),
    /// There is not one value table per clique.
    WrongNumberOfTables,
    /// Some value table does not hold `2^k` values.
    WrongTableSize,
}

/// Every one of the first `count` tables holds `size` values.
pub open spec fn tables_sized(tables: Seq<Vec<i64>>, count: int, size: int) -> bool {
    forall|i: int| 0 <= i < count ==> (#[trigger] tables[i])@.len() == size
}

/// Whether every table holds `size` values.
pub fn check_table_sizes(tables: &Vec<Vec<i64>>, size: usize) -> (sized: bool)
    ensures
        sized == tables_sized(tables@, tables@.len() as int, size as int),
{
    let mut i: usize = 0;
    while i < tables.len()
        invariant
            i <= tables@.len(),
            tables_sized(tables@, i as int, size as int),
        decreases tables@.len() - i,
    {
        if tables[i].len() != size {
            return false;
        }
        i = i + 1;
    }
    true
}

impl CliqueTree {
    /// The landscape that the tree describes.
    pub open spec fn landscape(&self) -> Landscape {
        landscape_of(self.input_parameters, self.cliques@, self.codomain_values@)
    }

    /// The stored optima are those that the solver reports for the
    /// landscape, in its order: every one of them exactly once, and their
    /// score.
    pub open spec fn solved(&self) -> bool {
        &&& self.glob_optima_score == self.landscape().reported_score()
        &&& self.glob_optima_strings@.len() >= 1
        &&& rows(self.glob_optima_strings@) == self.landscape().reported_strings()
        &&& rows(self.glob_optima_strings@).no_duplicates()
        &&& forall|x: Seq<u32>|
            rows(self.glob_optima_strings@).contains(x) <==> self.landscape().reported_optimum(x)
    }

    /// The cliques form a tree decomposition, the tables have the shape
    /// that the parameters prescribe, and the stored optima are those of the
    /// landscape.
    pub open spec fn well_formed(&self) -> bool {
        &&& self.landscape().well_formed()
        &&& self.solved()
    }

    /// Builds a clique tree for the parameters and the value tables, and
    /// computes its global optima. The parameters and the shape of the
    /// tables are checked before anything is built.
    pub fn new(
        input_parameters: InputParameters,
        codomain_function: CodomainFunction,
        codomain_values: Vec<Vec<i64>>,
        rng: &mut ChaChaRng,
    ) -> (outcome: Result<CliqueTree, ConstructionError>)
        ensures
            outcome.is_ok() <==> input_parameters.valid() && codomain_values@.len() == input_parameters.m
                && tables_sized(
                codomain_values@,
                codomain_values@.len() as int,
                pow2(input_parameters.k as nat) as int,
            ),
            match outcome {
                Ok(tree) => {
                    &&& tree.input_parameters == input_parameters
                    &&& tree.codomain_function == codomain_function
                    &&& tree.codomain_values@ == codomain_values@
                    &&& tree.well_formed()
                },
                Err(ConstructionError::Parameters(defect)) => input_parameters.defect() == Some(defect),
                Err(ConstructionError::WrongNumberOfTables) => input_parameters.valid() && codomain_values@.len()
                    != input_parameters.m,
                Err(ConstructionError::WrongTableSize) => input_parameters.valid() && codomain_values@.len()
                    == input_parameters.m,
            },
    {
        match input_parameters.validate() {
            Err(defect) => {
                return Err(ConstructionError::Parameters(defect));
            },
            Ok(()) => {},
        }
        if codomain_values.len() != input_parameters.m as usize {
            return Err(ConstructionError::WrongNumberOfTables);
        }
        let table_size: usize = power_of_two(input_parameters.k) as usize;
        proof {
            lemma2_to64();
            lemma_pow2_strictly_increases(input_parameters.k as nat, 32);
        }
        if !check_table_sizes(&codomain_values, table_size) {
            return Err(ConstructionError::WrongTableSize);
        }
        // Create the cliques and separators, then calculate the global
        // optima of the clique tree.
        let (cliques, separators) = CliqueTree::construct(&input_parameters, rng);
        let global_opt_tuples = CliqueTree::calculate_global_optima(
            &input_parameters,
            &codomain_function,
            codomain_values.as_slice(),
            cliques.as_slice(),
            separators.as_slice(),
        );
        let glob_optima_score: i128 = global_opt_tuples[0].1;
        let mut glob_optima_strings: Vec<Vec<u32>> = Vec::new();
        let tuples = global_opt_tuples;
        let ghost all = solutions(tuples@);
        let mut r: usize = 0;
        let count: usize = tuples.len();
        while r < count
            invariant
                r <= count == tuples@.len(),
                all == solutions(tuples@),
                glob_optima_strings@.len() == r,
                forall|e: int| 0 <= e < r ==> (#[trigger] glob_optima_strings@[e])@ == all[e],
            decreases count - r,
        {
            let copy = take_prefix(&tuples[r].0, tuples[r].0.len());
            proof {
                assert(copy@ =~= all[r as int]);
            }
            glob_optima_strings.push(copy);
            r = r + 1;
        }
        proof {
            assert(rows(glob_optima_strings@) =~= all);
        }
        Ok(
            CliqueTree {
                input_parameters,
                codomain_function,
                cliques,
                codomain_values,
                glob_optima_strings,
                glob_optima_score,
            },
        )
    }

    /// Puts a clique tree together from a stored problem and the value
    /// tables that belong to it. Nothing is checked or computed.
    pub fn construct_from_problem_codomain(problem: Problem, codomain: Vec<Vec<i64>>) -> (tree: CliqueTree)
        ensures
            tree.input_parameters == problem.input_parameters,
            tree.codomain_function == CodomainFunction::Unknown,
            tree.cliques == problem.cliques,
            tree.codomain_values == codomain,
            tree.glob_optima_strings == problem.glob_optima_strings,
            tree.glob_optima_score == problem.glob_optima_score,
    {
        CliqueTree {
            input_parameters: problem.input_parameters,
            codomain_function: CodomainFunction::Unknown,
            cliques: problem.cliques,
            codomain_values: codomain,
            glob_optima_strings: problem.glob_optima_strings,
            glob_optima_score: problem.glob_optima_score,
        }
    }

    /// The global optima of a landscape, each with the score that they
    /// share. Without shared variables the cliques are solved one by one;
    /// else scores are eliminated along the clique tree. The class of
    /// subfunctions makes no difference to the result.
    pub fn calculate_global_optima(
        input_parameters: &InputParameters,
        _codomain_function: &CodomainFunction,
        codomain_values: &[Vec<i64>],
        cliques: &[Vec<u32>],
        separators: &[Vec<u32>],
    ) -> (optima: Vec<(Vec<u32>, i128)>)
        requires
            solvable(*input_parameters, codomain_values@, cliques@, separators@),
        ensures
            optima@.len() >= 1,
            forall|r: int|
                0 <= r < optima@.len() ==> (#[trigger] optima@[r]).1 == landscape_of(
                    *input_parameters,
                    cliques@,
                    codomain_values@,
                ).reported_score(),
            solutions(optima@) == landscape_of(
                *input_parameters,
                cliques@,
                codomain_values@,
            ).reported_strings(),
            solutions(optima@).no_duplicates(),
            forall|x: Seq<u32>|
                solutions(optima@).contains(x) <==> landscape_of(
                    *input_parameters,
                    cliques@,
                    codomain_values@,
                ).reported_optimum(x),
    {
        if input_parameters.o == 0 {
            return CliqueTree::calculate_global_optimum_separable(input_parameters, codomain_values, cliques);
        }
        CliqueTree::calculate_global_optima_by_elimination(
            input_parameters,
            codomain_values,
            cliques,
            separators,
        )
    }

    /// The solution counts as a global optimum: its fitness is the stored
    /// score, or it is within the tolerance of it and the solution is one of
    /// the stored optima.
    pub open spec fn counts_as_optimum(&self, solution_fit: SolutionFit) -> bool {
        solution_fit.fitness == self.glob_optima_score || (equal_fitness(
            self.glob_optima_score as int,
            solution_fit.fitness as int,
        ) && rows(self.glob_optima_strings@).contains(solution_fit.solution@))
    }

    /// Whether a solution counts as a global optimum: its fitness is the
    /// optimal score, or it is within the tolerance of it and the solution is
    /// one of the stored optima.
    pub fn is_global_optimum(&self, solution_fit: &SolutionFit) -> (optimal: bool)
        ensures
            optimal == self.counts_as_optimum(*solution_fit),
    {
        if solution_fit.fitness == self.glob_optima_score {
            return true;
        }
        if !is_equal_fitness(self.glob_optima_score, solution_fit.fitness) {
            return false;
        }
        let ghost strings = rows(self.glob_optima_strings@);
        let mut r: usize = 0;
        while r < self.glob_optima_strings.len()
            invariant
                r <= self.glob_optima_strings@.len(),
                strings == rows(self.glob_optima_strings@),
                solution_fit.fitness != self.glob_optima_score,
                equal_fitness(self.glob_optima_score as int, solution_fit.fitness as int),
                forall|e: int| 0 <= e < r ==> strings[e] != solution_fit.solution@,
            decreases self.glob_optima_strings@.len() - r,
        {
            if same_solution(&self.glob_optima_strings[r], &solution_fit.solution) {
                proof {
                    assert(strings[r as int] == solution_fit.solution@);
                    assert(strings.contains(strings[r as int]));
                }
                return true;
            }
            r = r + 1;
        }
        false
    }
}

} // verus!
