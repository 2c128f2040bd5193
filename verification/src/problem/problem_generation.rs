//! Stored problems: the parameters, the cliques and the global optima of
//! a landscape as text.

use vstd::prelude::*;
use crate::problem::bit_strings::is_bits;
use crate::problem::clique_tree::{CliqueTree, InputParameters};
use crate::problem::fitness_text::{decimal_text, push_total};
use crate::problem::landscape::rows;
use crate::problem::text::{decimal_digits, join_lines, push_decimal};

verus! {

/// A stored problem: the parameters, the cliques and the global optima of a
/// landscape, without its value tables.
#[derive(Debug)]
pub struct Problem {
    pub input_parameters: InputParameters,
    pub cliques: Vec<Vec<u32>>,
    pub glob_optima_strings: Vec<Vec<u32>>,
    pub glob_optima_score: i128,
}

/// An assignment as text: one character, `0` or `1`, for every variable.
pub open spec fn bit_characters(x: Seq<u32>) -> Seq<u8> {
    Seq::new(x.len(), |v: int| (48 + x[v]) as u8)
}

/// The first `count` numbers, separated by single spaces.
pub open spec fn spaced_numbers(values: Seq<u32>, count: int) -> Seq<u8>
    decreases count,
{
    if count <= 0 {
        Seq::empty()
    } else if count == 1 {
        decimal_digits(values[0] as nat)
    } else {
        spaced_numbers(values, count - 1) + seq![32u8] + decimal_digits(values[count - 1] as nat)
    }
}

/// The lines of a stored problem: the parameters, the score of the global
/// optima, their number, one line for every optimum, and one line for every
/// clique with its variables.
pub open spec fn problem_lines(
    parameters: InputParameters,
    score: int,
    optima: Seq<Seq<u32>>,
    cliques: Seq<Seq<u32>>,
) -> Seq<Seq<u8>> {
    seq![parameters.line(), decimal_text(score), decimal_digits(optima.len())] + Seq::new(
        optima.len(),
        |r: int| bit_characters(optima[r]),
    ) + Seq::new(cliques.len(), |i: int| spaced_numbers(cliques[i], cliques[i].len() as int))
}

/// Appends an assignment as text.
pub fn push_bit_characters(buffer: &mut Vec<u8>, solution: &Vec<u32>)
    requires
        is_bits(solution@),
    ensures
        final(buffer)@ == old(buffer)@ + bit_characters(solution@),
{
    let ghost target = bit_characters(solution@);
    let mut v: usize = 0;
    proof {
        assert(old(buffer)@ + target.subrange(0, 0) =~= old(buffer)@);
    }
    while v < solution.len()
        invariant
            v <= solution@.len(),
            is_bits(solution@),
            target == bit_characters(solution@),
            buffer@ == old(buffer)@ + target.subrange(0, v as int),
        decreases solution@.len() - v,
    {
        proof {
            assert(solution@[v as int] <= 1);
        }
        buffer.push(48 + solution[v] as u8);
        proof {
            assert(buffer@ =~= old(buffer)@ + target.subrange(0, v + 1));
        }
        v = v + 1;
    }
    proof {
        assert(target.subrange(0, v as int) =~= target);
    }
}

/// Appends the numbers, separated by single spaces.
pub fn push_spaced_numbers(buffer: &mut Vec<u8>, values: &Vec<u32>)
    ensures
        final(buffer)@ == old(buffer)@ + spaced_numbers(values@, values@.len() as int),
{
    let mut j: usize = 0;
    proof {
        assert(old(buffer)@ + spaced_numbers(values@, 0) =~= old(buffer)@);
    }
    while j < values.len()
        invariant
            j <= values@.len(),
            buffer@ == old(buffer)@ + spaced_numbers(values@, j as int),
        decreases values@.len() - j,
    {
        if j > 0 {
            buffer.push(32);
        }
        push_decimal(buffer, values[j] as u128);
        proof {
            assert(buffer@ =~= old(buffer)@ + spaced_numbers(values@, j + 1));
        }
        j = j + 1;
    }
}

impl CliqueTree {
    /// The text of the stored problem of the tree: a line with the
    /// parameters, a line with the score of the global optima, a line with
    /// their number, one line for every optimum, and one line for every
    /// clique with its variables. Every line ends with a line feed.
    pub fn problem_text(&self) -> (text: Vec<u8>)
        requires
            self.glob_optima_score > i128::MIN,
            forall|r: int|
                0 <= r < self.glob_optima_strings@.len() ==> is_bits(
                    (#[trigger] self.glob_optima_strings@[r])@,
                ),
        ensures
            text@ == join_lines(
                problem_lines(
                    self.input_parameters,
                    self.glob_optima_score as int,
                    rows(self.glob_optima_strings@),
                    rows(self.cliques@),
                ),
            ),
    {
        let ghost optima = rows(self.glob_optima_strings@);
        let ghost cliques = rows(self.cliques@);
        let ghost head = seq![
            self.input_parameters.line(),
            decimal_text(self.glob_optima_score as int),
            decimal_digits(optima.len()),
        ];
        let ghost optima_lines = Seq::new(optima.len(), |r: int| bit_characters(optima[r]));
        let ghost clique_lines = Seq::new(
            cliques.len(),
            |i: int| spaced_numbers(cliques[i], cliques[i].len() as int),
        );
        let mut buffer: Vec<u8> = Vec::new();
        self.input_parameters.push_line(&mut buffer);
        buffer.push(10);
        push_total(&mut buffer, self.glob_optima_score);
        buffer.push(10);
        push_decimal(&mut buffer, self.glob_optima_strings.len() as u128);
        buffer.push(10);
        proof {
            let one = seq![self.input_parameters.line()];
            let two = seq![self.input_parameters.line(), decimal_text(self.glob_optima_score as int)];
            assert(one.drop_last() =~= Seq::<Seq<u8>>::empty());
            assert(join_lines(Seq::<Seq<u8>>::empty()) =~= Seq::<u8>::empty());
            assert(two.drop_last() =~= one);
            assert(head.drop_last() =~= two);
            assert(join_lines(one) =~= one.last() + seq![10u8]);
            assert(join_lines(two) =~= join_lines(one) + two.last() + seq![10u8]);
            assert(join_lines(head) =~= join_lines(two) + head.last() + seq![10u8]);
            assert(optima.len() == self.glob_optima_strings@.len());
            assert(buffer@ =~= join_lines(head));
            assert(head + optima_lines.subrange(0, 0) =~= head);
        }
        let mut r: usize = 0;
        while r < self.glob_optima_strings.len()
            invariant
                r <= self.glob_optima_strings@.len(),
                optima == rows(self.glob_optima_strings@),
                optima_lines == Seq::new(optima.len(), |r: int| bit_characters(optima[r])),
                forall|e: int|
                    0 <= e < self.glob_optima_strings@.len() ==> is_bits((#[trigger] self.glob_optima_strings@[e])@),
                buffer@ == join_lines(head + optima_lines.subrange(0, r as int)),
            decreases self.glob_optima_strings@.len() - r,
        {
            let ghost before = head + optima_lines.subrange(0, r as int);
            push_bit_characters(&mut buffer, &self.glob_optima_strings[r]);
            buffer.push(10);
            proof {
                let after = head + optima_lines.subrange(0, r + 1);
                assert(after.drop_last() =~= before);
                assert(after.last() == bit_characters(optima[r as int]));
                assert(buffer@ =~= join_lines(after));
            }
            r = r + 1;
        }
        proof {
            assert(optima_lines.subrange(0, r as int) =~= optima_lines);
            assert(head + optima_lines + clique_lines.subrange(0, 0) =~= head + optima_lines);
        }
        let mut i: usize = 0;
        while i < self.cliques.len()
            invariant
                i <= self.cliques@.len(),
                cliques == rows(self.cliques@),
                clique_lines == Seq::new(cliques.len(), |i: int| spaced_numbers(cliques[i], cliques[i].len() as int)),
                buffer@ == join_lines(head + optima_lines + clique_lines.subrange(0, i as int)),
            decreases self.cliques@.len() - i,
        {
            let ghost before = head + optima_lines + clique_lines.subrange(0, i as int);
            push_spaced_numbers(&mut buffer, &self.cliques[i]);
            buffer.push(10);
            proof {
                let after = head + optima_lines + clique_lines.subrange(0, i + 1);
                assert(after.drop_last() =~= before);
                assert(after.last() == spaced_numbers(cliques[i as int], cliques[i as int].len() as int));
                assert(buffer@ =~= join_lines(after));
            }
            i = i + 1;
        }
        proof {
            assert(clique_lines.subrange(0, i as int) =~= clique_lines);
        }
        buffer
    }
}

} // verus!
