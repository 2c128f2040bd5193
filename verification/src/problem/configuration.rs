//! Ranges of parameters to go through, and the source of random numbers.

use vstd::prelude::*;
use rand::rngs::OsRng;
use rand::SeedableRng;
use rand_chacha::ChaChaRng;
use crate::problem::clique_tree::InputParameters;
use crate::problem::codomain::class_of_tag;
use crate::problem::codomain_subclasses::CodomainFunction;
use crate::problem::text::{
    ascii_bytes, byte_rows, is_text, lines_of, parse_i32, parse_u32, parsed_i32, parsed_u32, split,
    split_on, trim, trimmed, Lines,
};

verus! {

/// A generator started from `seed` by `rand::SeedableRng::seed_from_u64`.
/// Nothing is claimed of it.
#[verifier::external_body]
fn seeded_rng(seed: u64) -> ChaChaRng {
    ChaChaRng::seed_from_u64(seed)
}

/// A generator started by `rand::SeedableRng::from_rng` from
/// `rand::rngs::OsRng`, which asks the operating system for the seed and
/// hands back an error where the system provides none: then there is no
/// generator. Nothing is claimed of the generator.
#[verifier::external_body]
fn entropy_rng() -> Option<ChaChaRng> {
    match ChaChaRng::from_rng(OsRng) {
        Ok(rng) => Some(rng),
        Err(_) => None,
    }
}

/// The random number generator for a run: started from the seed where one
/// is given, so that the run can be repeated, and from the system's
/// randomness otherwise. With a seed there is always a generator; without,
/// there is none where the system provides no randomness.
pub fn get_rng(seed: Option<u64>) -> (rng: Option<ChaChaRng>)
    ensures
        seed.is_some() ==> rng.is_some(),
{
    match seed {
        Some(seed) => Some(seeded_rng(seed)),
        None => entropy_rng(),
    }
}

/// Ranges of the four parameters, each from its begin up to, but not
/// including, its end, and the class of subfunctions to use with them.
#[derive(Debug, Clone, Copy)]
pub struct ConfigurationParameters {
    pub m_begin: u32,
    pub m_end: u32,
    pub k_begin: u32,
    pub k_end: u32,
    pub o_begin: u32,
    pub o_end: u32,
    pub b_begin: u32,
    pub b_end: u32,
    pub codomain_function: CodomainFunction,
}

impl ConfigurationParameters {
    pub fn new(
        m_begin: u32,
        m_end: u32,
        k_begin: u32,
        k_end: u32,
        o_begin: u32,
        o_end: u32,
        b_begin: u32,
        b_end: u32,
        codomain_function: CodomainFunction,
    ) -> (configuration: ConfigurationParameters)
        ensures
            configuration == (ConfigurationParameters {
                m_begin,
                m_end,
                k_begin,
                k_end,
                o_begin,
                o_end,
                b_begin,
                b_end,
                codomain_function,
            }),
    {
        ConfigurationParameters {
            m_begin,
            m_end,
            k_begin,
            k_end,
            o_begin,
            o_end,
            b_begin,
            b_end,
            codomain_function,
        }
    }

    /// A cursor before the first combination of the ranges.
    pub fn into_iter(self) -> (iterator: ConfigurationParametersIterator)
        ensures
            iterator == ConfigurationParametersIterator::start(self),
    {
        ConfigurationParametersIterator::from_configuration_parameters(&self)
    }
}

/// A cursor over all combinations of parameters from their ranges. The
/// branches change fastest, then the overlap, then the clique size, and the
/// number of cliques slowest.
#[derive(Debug, Clone, Copy)]
pub struct ConfigurationParametersIterator {
    pub m_begin: u32,
    pub m_end: u32,
    pub k_begin: u32,
    pub k_end: u32,
    pub o_begin: u32,
    pub o_end: u32,
    pub b_begin: u32,
    pub b_end: u32,
    pub codomain_function: CodomainFunction,
    pub current_parameters: InputParameters,
}

impl ConfigurationParametersIterator {
    /// The cursor before the first combination of the ranges.
    pub open spec fn start(configuration: ConfigurationParameters) -> ConfigurationParametersIterator {
        ConfigurationParametersIterator {
            m_begin: configuration.m_begin,
            m_end: configuration.m_end,
            k_begin: configuration.k_begin,
            k_end: configuration.k_end,
            o_begin: configuration.o_begin,
            o_end: configuration.o_end,
            b_begin: configuration.b_begin,
            b_end: configuration.b_end,
            codomain_function: configuration.codomain_function,
            current_parameters: InputParameters { m: 0, k: 0, o: 0, b: 0 },
        }
    }

    /// The combination that follows the current one, if any. Before the
    /// first combination, where the number of cliques is 0, it is the begin
    /// of every range.
    pub open spec fn following(&self) -> Option<InputParameters> {
        let current = self.current_parameters;
        if current.m == 0 {
            Some(InputParameters { m: self.m_begin, k: self.k_begin, o: self.o_begin, b: self.b_begin })
        } else if current.b < self.b_end - 1 {
            Some(InputParameters { m: current.m, k: current.k, o: current.o, b: (current.b + 1) as u32 })
        } else if current.o < self.o_end - 1 {
            Some(InputParameters { m: current.m, k: current.k, o: (current.o + 1) as u32, b: self.b_begin })
        } else if current.k < self.k_end - 1 {
            Some(InputParameters { m: current.m, k: (current.k + 1) as u32, o: self.o_begin, b: self.b_begin })
        } else if current.m < self.m_end - 1 {
            Some(
                InputParameters { m: (current.m + 1) as u32, k: self.k_begin, o: self.o_begin, b: self.b_begin },
            )
        } else {
            None
        }
    }

    /// No range ends at 0.
    pub open spec fn ranged(&self) -> bool {
        self.m_end >= 1 && self.k_end >= 1 && self.o_end >= 1 && self.b_end >= 1
    }

    pub fn new(
        m_begin: u32,
        m_end: u32,
        k_begin: u32,
        k_end: u32,
        o_begin: u32,
        o_end: u32,
        b_begin: u32,
        b_end: u32,
        codomain_function: CodomainFunction,
    ) -> (iterator: ConfigurationParametersIterator)
        ensures
            iterator == ConfigurationParametersIterator::start(
                ConfigurationParameters {
                    m_begin,
                    m_end,
                    k_begin,
                    k_end,
                    o_begin,
                    o_end,
                    b_begin,
                    b_end,
                    codomain_function,
                },
            ),
    {
        ConfigurationParametersIterator {
            m_begin,
            m_end,
            k_begin,
            k_end,
            o_begin,
            o_end,
            b_begin,
            b_end,
            codomain_function,
            current_parameters: InputParameters::new_from_primitives(0, 0, 0, 0),
        }
    }

    pub fn from_configuration_parameters(configuration_parameters: &ConfigurationParameters) -> (iterator:
        ConfigurationParametersIterator)
        ensures
            iterator == ConfigurationParametersIterator::start(*configuration_parameters),
    {
        ConfigurationParametersIterator::new(
            configuration_parameters.m_begin,
            configuration_parameters.m_end,
            configuration_parameters.k_begin,
            configuration_parameters.k_end,
            configuration_parameters.o_begin,
            configuration_parameters.o_end,
            configuration_parameters.b_begin,
            configuration_parameters.b_end,
            configuration_parameters.codomain_function,
        )
    }

    /// Moves to the following combination and returns it; `None`, and no
    /// move, after the last one.
    pub fn next(&mut self) -> (item: Option<InputParameters>)
        requires
            old(self).ranged(),
        ensures
            item == old(self).following(),
            match item {
                Some(parameters) => *final(self) == (ConfigurationParametersIterator {
                    current_parameters: parameters,
                    ..*old(self)
                }),
                None => *final(self) == *old(self),
            },
    {
        if self.current_parameters.m == 0 {
            self.current_parameters = InputParameters::new_from_primitives(
                self.m_begin,
                self.k_begin,
                self.o_begin,
                self.b_begin,
            );
        } else if self.current_parameters.b < self.b_end - 1 {
            self.current_parameters.b = self.current_parameters.b + 1;
        } else if self.current_parameters.o < self.o_end - 1 {
            self.current_parameters.o = self.current_parameters.o + 1;
            self.current_parameters.b = self.b_begin;
        } else if self.current_parameters.k < self.k_end - 1 {
            self.current_parameters.k = self.current_parameters.k + 1;
            self.current_parameters.o = self.o_begin;
            self.current_parameters.b = self.b_begin;
        } else if self.current_parameters.m < self.m_end - 1 {
            self.current_parameters.m = self.current_parameters.m + 1;
            self.current_parameters.k = self.k_begin;
            self.current_parameters.o = self.o_begin;
            self.current_parameters.b = self.b_begin;
        } else {
            return None;
        }
        Some(self.current_parameters)
    }
}

/// The least number of cliques that is at least 1 and gives
/// `min_problem_size` variables or more.
pub open spec fn least_m_for(problem_size: int, k: int, o: int, floor: int) -> int {
    let needed = problem_size - o;
    let fresh = k - o;
    let quotient = if needed <= 0 {
        0
    } else {
        (needed + fresh - 1) / fresh
    };
    if quotient < floor {
        floor
    } else {
        quotient
    }
}

/// The number of cliques with which a range of cliques begins, so that the
/// landscapes have `min_problem_size` variables or more: the least number of
/// cliques, 1 at least, with which `(m - 1)(k - o) + k` reaches the size.
pub fn get_m_for_min_problem_size(min_problem_size: u32, k: u32, o: u32) -> (m: u32)
    requires
        o < k,
    ensures
        m == least_m_for(min_problem_size as int, k as int, o as int, 1),
        m >= 1,
        (m - 1) * (k - o) + k >= min_problem_size,
        m > 1 ==> (m - 2) * (k - o) + k < min_problem_size,
{
    let fresh: u64 = (k - o) as u64;
    if min_problem_size <= o {
        return 1;
    }
    let needed: u64 = (min_problem_size - o) as u64;
    let quotient: u64 = (needed + fresh - 1) / fresh;
    proof {
        vstd::arithmetic::div_mod::lemma_fundamental_div_mod((needed + fresh - 1) as int, fresh as int);
        vstd::arithmetic::div_mod::lemma_mod_bound((needed + fresh - 1) as int, fresh as int);
        assert(quotient * fresh == fresh * quotient) by (nonlinear_arith);
        assert(quotient <= needed) by (nonlinear_arith)
            requires
                quotient * fresh <= needed + fresh - 1,
                fresh >= 1,
                needed >= 1,
        ;
        assert((quotient - 1) * fresh == quotient * fresh - fresh) by (nonlinear_arith);
        assert((quotient - 2) * fresh == quotient * fresh - 2 * fresh) by (nonlinear_arith);
    }
    if quotient < 1 {
        1
    } else {
        quotient as u32
    }
}

/// The number of cliques before which a range of cliques ends, so that the
/// landscapes have fewer than `max_problem_size` variables: the least number
/// of cliques, 2 at least, with which `(m - 1)(k - o) + k` reaches the size.
pub fn get_m_for_max_problem_size(max_problem_size: u32, k: u32, o: u32) -> (m: u32)
    requires
        o < k,
        o <= max_problem_size,
    ensures
        m == least_m_for(max_problem_size as int, k as int, o as int, 2),
        m >= 2,
{
    let fresh: u64 = (k - o) as u64;
    let needed: u64 = (max_problem_size - o) as u64;
    if needed == 0 {
        return 2;
    }
    let quotient: u64 = (needed + fresh - 1) / fresh;
    proof {
        vstd::arithmetic::div_mod::lemma_fundamental_div_mod((needed + fresh - 1) as int, fresh as int);
        vstd::arithmetic::div_mod::lemma_mod_bound((needed + fresh - 1) as int, fresh as int);
        assert(quotient * fresh == fresh * quotient) by (nonlinear_arith);
        assert(quotient <= needed) by (nonlinear_arith)
            requires
                quotient * fresh <= needed + fresh - 1,
                fresh >= 1,
                needed >= 1,
        ;
    }
    if quotient < 2 {
        2
    } else {
        quotient as u32
    }
}

/// Why a text gave no ranges of parameters.
#[derive(Debug, PartialEq, Eq, Clone, Copy, Structural)]
pub enum ConfigurationError {
    /// The text has fewer than five lines.
    MissingLine,
    /// The line with this number, counted from 0, has fewer than three
    /// fields.
    MissingField { line: u32 },
    /// The begin or the end of the range on the line with this number
    /// denotes no number.
    Unreadable { line: u32 },
    /// The first line begins with neither `M` nor `N`.
    UnknownLetter,
    /// The first line gives a range of problem sizes, but the clique size or
    /// the overlap is not one fixed value.
    SizeNeedsFixedCliques,
    /// The first line gives a range of problem sizes that no number of
    /// cliques reaches: the overlap is not below the clique size, or above
    /// the largest problem size.
    SizeOutOfReach,
    /// The fifth line holds a comma.
    SeveralClasses,
    /// The fifth line names no class of subfunctions.
    UnknownClass,
}

/// The 32-bit unsigned number with the same bits as a signed one.
pub open spec fn as_unsigned(v: i32) -> u32 {
    if v >= 0 {
        v as u32
    } else {
        (v + 0x1_0000_0000) as u32
    }
}

/// The name and the range on a line: three fields or more, separated by
/// single spaces, of which the second is the begin and the third the end.
/// The end of the range of overlaps may carry a sign and blanks around it.
pub open spec fn range_of_line(line: Seq<u8>, signed_end: bool, number: u32) -> Result<
    (Seq<u8>, u32, u32),
    ConfigurationError,
> {
    let fields = split_on(line, 32);
    if fields.len() < 3 {
        Err(ConfigurationError::MissingField { line: number })
    } else {
        match parsed_u32(fields[1]) {
            None => Err(ConfigurationError::Unreadable { line: number }),
            Some(begin) => if signed_end {
                match parsed_i32(trimmed(fields[2])) {
                    None => Err(ConfigurationError::Unreadable { line: number }),
                    Some(end) => Ok((fields[0], begin, as_unsigned(end))),
                }
            } else {
                match parsed_u32(fields[2]) {
                    None => Err(ConfigurationError::Unreadable { line: number }),
                    Some(end) => Ok((fields[0], begin, end)),
                }
            },
        }
    }
}

/// Reads the name and the range on a line.
pub fn read_range(line: &[u8], signed_end: bool, number: u32) -> (outcome: Result<
    (Vec<u8>, u32, u32),
    ConfigurationError,
>)
    ensures
        match range_of_line(line@, signed_end, number) {
            Ok((name, begin, end)) => outcome.is_ok() && outcome.unwrap().0@ == name && outcome.unwrap().1
                == begin && outcome.unwrap().2 == end,
            Err(error) => outcome == Err::<(Vec<u8>, u32, u32), ConfigurationError>(error),
        },
{
    let fields = split(line, 32);
    if fields.len() < 3 {
        return Err(ConfigurationError::MissingField { line: number });
    }
    proof {
        assert(byte_rows(fields@)[0] == fields@[0]@);
        assert(byte_rows(fields@)[1] == fields@[1]@);
        assert(byte_rows(fields@)[2] == fields@[2]@);
    }
    let begin = match parse_u32(fields[1].as_slice()) {
        Some(begin) => begin,
        None => {
            return Err(ConfigurationError::Unreadable { line: number });
        },
    };
    let end: u32 = if signed_end {
        let inner = trim(fields[2].as_slice());
        match parse_i32(inner.as_slice()) {
            Some(end) => {
                if end >= 0 {
                    end as u32
                } else {
                    ((end as i64) + 0x1_0000_0000) as u32
                }
            },
            None => {
                return Err(ConfigurationError::Unreadable { line: number });
            },
        }
    } else {
        match parse_u32(fields[2].as_slice()) {
            Some(end) => end,
            None => {
                return Err(ConfigurationError::Unreadable { line: number });
            },
        }
    };
    let name = crate::problem::text::copy_range(fields[0].as_slice(), 0, fields[0].len());
    proof {
        assert(name@ =~= fields@[0]@);
    }
    Ok((name, begin, end))
}

/// The range holds one value at most.
pub open spec fn is_fixed(begin: u32, end: u32) -> bool {
    begin <= end && end - begin <= 1
}

/// The range of numbers of cliques that the first line gives: the range
/// itself after `M`; after `N`, which gives a range of problem sizes, the
/// numbers of cliques that reach these sizes with the one clique size and the
/// one overlap.
pub open spec fn clique_range(
    letter: Seq<u8>,
    begin: u32,
    end: u32,
    k: (u32, u32),
    o: (u32, u32),
) -> Result<(u32, u32), ConfigurationError> {
    if letter == ascii_bytes("M"@) {
        Ok((begin, end))
    } else if letter == ascii_bytes("N"@) {
        if !is_fixed(k.0, k.1) || !is_fixed(o.0, o.1) {
            Err(ConfigurationError::SizeNeedsFixedCliques)
        } else if o.0 >= k.0 || o.0 > end {
            Err(ConfigurationError::SizeOutOfReach)
        } else {
            Ok(
                (
                    least_m_for(begin as int, k.0 as int, o.0 as int, 1) as u32,
                    least_m_for(end as int, k.0 as int, o.0 as int, 2) as u32,
                ),
            )
        }
    } else {
        Err(ConfigurationError::UnknownLetter)
    }
}

/// The class of subfunctions that the fifth line names.
pub open spec fn class_of_line(line: Seq<u8>) -> Result<CodomainFunction, ConfigurationError> {
    if split_on(line, 44).len() != 1 {
        Err(ConfigurationError::SeveralClasses)
    } else {
        match class_of_tag(line) {
            Some(class) => Ok(class),
            None => Err(ConfigurationError::UnknownClass),
        }
    }
}

/// The ranges of parameters that the lines of a configuration give: the
/// range of the number of cliques or of the problem size, the ranges of the
/// clique size, of the overlap and of the branches, and the class of
/// subfunctions; or the first thing that is wrong with the lines.
pub open spec fn configuration_of(lines: Seq<Seq<u8>>) -> Result<ConfigurationParameters, ConfigurationError> {
    if lines.len() < 4 {
        Err(ConfigurationError::MissingLine)
    } else {
        match range_of_line(lines[0], false, 0) {
            Err(error) => Err(error),
            Ok((letter, begin, end)) => match range_of_line(lines[1], false, 1) {
                Err(error) => Err(error),
                Ok((_, k_begin, k_end)) => match range_of_line(lines[2], true, 2) {
                    Err(error) => Err(error),
                    Ok((_, o_begin, o_end)) => match range_of_line(lines[3], false, 3) {
                        Err(error) => Err(error),
                        Ok((_, b_begin, b_end)) => match clique_range(
                            letter,
                            begin,
                            end,
                            (k_begin, k_end),
                            (o_begin, o_end),
                        ) {
                            Err(error) => Err(error),
                            Ok((m_begin, m_end)) => if lines.len() < 5 {
                                Err(ConfigurationError::MissingLine)
                            } else {
                                match class_of_line(lines[4]) {
                                    Err(error) => Err(error),
                                    Ok(codomain_function) => Ok(
                                        ConfigurationParameters {
                                            m_begin,
                                            m_end,
                                            k_begin,
                                            k_end,
                                            o_begin,
                                            o_end,
                                            b_begin,
                                            b_end,
                                            codomain_function,
                                        },
                                    ),
                                }
                            },
                        },
                    },
                },
            },
        }
    }
}

/// Reads the range of numbers of cliques from what the first line gives.
pub fn read_clique_range(letter: &[u8], begin: u32, end: u32, k: (u32, u32), o: (u32, u32)) -> (outcome: Result<
    (u32, u32),
    ConfigurationError,
>)
    ensures
        outcome == clique_range(letter@, begin, end, k, o),
{
    proof {
        reveal_strlit("M");
        reveal_strlit("N");
    }
    if is_text(letter, "M") {
        Ok((begin, end))
    } else if is_text(letter, "N") {
        if !(k.0 <= k.1 && k.1 - k.0 <= 1) || !(o.0 <= o.1 && o.1 - o.0 <= 1) {
            Err(ConfigurationError::SizeNeedsFixedCliques)
        } else if o.0 >= k.0 || o.0 > end {
            Err(ConfigurationError::SizeOutOfReach)
        } else {
            Ok((get_m_for_min_problem_size(begin, k.0, o.0), get_m_for_max_problem_size(end, k.0, o.0)))
        }
    } else {
        Err(ConfigurationError::UnknownLetter)
    }
}

/// Reads the class of subfunctions that the fifth line names.
pub fn read_class(line: &[u8]) -> (outcome: Result<CodomainFunction, ConfigurationError>)
    ensures
        outcome == class_of_line(line@),
{
    let classes = split(line, 44);
    proof {
        assert(byte_rows(classes@).len() == classes@.len());
    }
    if classes.len() != 1 {
        return Err(ConfigurationError::SeveralClasses);
    }
    match CodomainFunction::from_tag(line) {
        Some(class) => Ok(class),
        None => Err(ConfigurationError::UnknownClass),
    }
}

impl ConfigurationParameters {
    /// Reads the ranges of parameters from the text of a configuration:
    /// four lines with a name and a range each, for the number of cliques
    /// (`M`) or the problem size (`N`), the clique size, the overlap and the
    /// branches, and a line that names the class of subfunctions.
    pub fn from_text(contents: Vec<u8>) -> (outcome: Result<ConfigurationParameters, ConfigurationError>)
        ensures
            outcome == configuration_of(lines_of(contents@)),
    {
        let mut content_iterator = Lines::new(contents);
        let ghost lines = content_iterator.remaining();
        let first = match content_iterator.next() {
            Some(line) => line,
            None => {
                return Err(ConfigurationError::MissingLine);
            },
        };
        let ghost after_first = content_iterator.remaining();
        let second = match content_iterator.next() {
            Some(line) => line,
            None => {
                proof {
                    assert(lines.len() == 1);
                }
                return Err(ConfigurationError::MissingLine);
            },
        };
        let ghost after_second = content_iterator.remaining();
        let third = match content_iterator.next() {
            Some(line) => line,
            None => {
                proof {
                    assert(lines.len() == 2);
                }
                return Err(ConfigurationError::MissingLine);
            },
        };
        let ghost after_third = content_iterator.remaining();
        let fourth = match content_iterator.next() {
            Some(line) => line,
            None => {
                proof {
                    assert(lines.len() == 3);
                }
                return Err(ConfigurationError::MissingLine);
            },
        };
        let ghost after_fourth = content_iterator.remaining();
        proof {
            assert(lines == seq![first@] + after_first);
            assert(after_first == seq![second@] + after_second);
            assert(after_second == seq![third@] + after_third);
            assert(after_third == seq![fourth@] + after_fourth);
            assert(lines[0] == first@);
            assert(lines[1] == after_first[0]);
            assert(lines[2] == after_second[0]);
            assert(lines[3] == after_third[0]);
            assert(lines.len() == 4 + after_fourth.len());
        }
        let (letter, begin, end) = match read_range(first.as_slice(), false, 0) {
            Ok(range) => range,
            Err(error) => {
                return Err(error);
            },
        };
        let (_, k_begin, k_end) = match read_range(second.as_slice(), false, 1) {
            Ok(range) => range,
            Err(error) => {
                return Err(error);
            },
        };
        let (_, o_begin, o_end) = match read_range(third.as_slice(), true, 2) {
            Ok(range) => range,
            Err(error) => {
                return Err(error);
            },
        };
        let (_, b_begin, b_end) = match read_range(fourth.as_slice(), false, 3) {
            Ok(range) => range,
            Err(error) => {
                return Err(error);
            },
        };
        let (m_begin, m_end) = match read_clique_range(
            letter.as_slice(),
            begin,
            end,
            (k_begin, k_end),
            (o_begin, o_end),
        ) {
            Ok(range) => range,
            Err(error) => {
                return Err(error);
            },
        };
        let fifth = match content_iterator.next() {
            Some(line) => line,
            None => {
                return Err(ConfigurationError::MissingLine);
            },
        };
        proof {
            assert(after_fourth == seq![fifth@] + content_iterator.remaining());
            assert(lines[4] == after_fourth[0]);
        }
        let codomain_function = match read_class(fifth.as_slice()) {
            Ok(class) => class,
            Err(error) => {
                return Err(error);
            },
        };
        Ok(
            ConfigurationParameters::new(
                m_begin,
                m_end,
                k_begin,
                k_end,
                o_begin,
                o_end,
                b_begin,
                b_end,
                codomain_function,
            ),
        )
    }
}

} // verus!
