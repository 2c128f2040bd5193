//! Reading the parameters of a landscape from text.

use vstd::prelude::*;
use vstd::utf8::encode_utf8;
use vstd::string::StringSliceAdditionalSpecFns;
use crate::problem::clique_tree::InputParameters;
use crate::problem::text::{
    byte_rows, first_line, parse_u32, parsed_u32, push_decimal, split, split_on, Lines,
    decimal_digits,
};

verus! {

/// One of the four parameters.
#[derive(Debug, PartialEq, Eq, Clone, Copy, Structural)]
pub enum ParameterField {
    M,
    K,
    O,
    B,
}

/// Why a line gave no parameters.
#[derive(Debug, PartialEq, Eq, Clone, Copy, Structural)]
pub enum LineError {
    /// The text has no line left.
    MissingLine,
    /// The line does not hold four fields separated by single spaces.
    WrongNumberOfParameters,
    /// The field of this parameter is not a 32-bit unsigned number.
    Unreadable(ParameterField),
}

/// The parameters that four fields denote, or the first field that denotes
/// no number.
pub open spec fn parameters_from_fields(
    m: Seq<u8>,
    k: Seq<u8>,
    o: Seq<u8>,
    b: Seq<u8>,
) -> Result<InputParameters, ParameterField> {
    match parsed_u32(m) {
        None => Err(ParameterField::M),
        Some(m) => match parsed_u32(k) {
            None => Err(ParameterField::K),
            Some(k) => match parsed_u32(o) {
                None => Err(ParameterField::O),
                Some(o) => match parsed_u32(b) {
                    None => Err(ParameterField::B),
                    Some(b) => Ok(InputParameters { m, k, o, b }),
                },
            },
        },
    }
}

/// The parameters that a line denotes: four numbers separated by single
/// spaces.
pub open spec fn parameters_from_line(line: Seq<u8>) -> Result<InputParameters, LineError> {
    let fields = split_on(line, 32);
    if fields.len() != 4 {
        Err(LineError::WrongNumberOfParameters)
    } else {
        match parameters_from_fields(fields[0], fields[1], fields[2], fields[3]) {
            Ok(parameters) => Ok(parameters),
            Err(field) => Err(LineError::Unreadable(field)),
        }
    }
}

/// Reads four fields as parameters.
pub fn read_fields(m: &[u8], k: &[u8], o: &[u8], b: &[u8]) -> (outcome: Result<InputParameters, ParameterField>)
    ensures
        outcome == parameters_from_fields(m@, k@, o@, b@),
{
    let m = match parse_u32(m) {
        Some(m) => m,
        None => {
            return Err(ParameterField::M);
        },
    };
    let k = match parse_u32(k) {
        Some(k) => k,
        None => {
            return Err(ParameterField::K);
        },
    };
    let o = match parse_u32(o) {
        Some(o) => o,
        None => {
            return Err(ParameterField::O);
        },
    };
    let b = match parse_u32(b) {
        Some(b) => b,
        None => {
            return Err(ParameterField::B);
        },
    };
    Ok(InputParameters::new_from_primitives(m, k, o, b))
}

impl InputParameters {
    /// The parameters from command line arguments: the arguments 1 to 4
    /// are M, k, o and b. The error names the first argument that is missing
    /// or no number.
    pub fn new(args: &[String]) -> (outcome: Result<InputParameters, &'static str>)
        ensures
            args@.len() < 5 ==> outcome.is_err() && outcome.unwrap_err()@ == "not enough arguments"@,
            args@.len() >= 5 ==> match parameters_from_fields(
                encode_utf8(args@[1]@),
                encode_utf8(args@[2]@),
                encode_utf8(args@[3]@),
                encode_utf8(args@[4]@),
            ) {
                Ok(parameters) => outcome == Ok::<InputParameters, &'static str>(parameters),
                Err(ParameterField::M) => outcome.is_err() && outcome.unwrap_err()@
                    == "Could not parse M to u32"@,
                Err(ParameterField::K) => outcome.is_err() && outcome.unwrap_err()@
                    == "Could not parse k to u32"@,
                Err(ParameterField::O) => outcome.is_err() && outcome.unwrap_err()@
                    == "Could not parse o to u32"@,
                Err(ParameterField::B) => outcome.is_err() && outcome.unwrap_err()@
                    == "Could not parse b to u32"@,
            },
    {
        if args.len() < 5 {
            return Err("not enough arguments");
        }
        match read_fields(
            args[1].as_str().as_bytes(),
            args[2].as_str().as_bytes(),
            args[3].as_str().as_bytes(),
            args[4].as_str().as_bytes(),
        ) {
            Ok(parameters) => Ok(parameters),
            Err(ParameterField::M) => Err("Could not parse M to u32"),
            Err(ParameterField::K) => Err("Could not parse k to u32"),
            Err(ParameterField::O) => Err("Could not parse o to u32"),
            Err(ParameterField::B) => Err("Could not parse b to u32"),
        }
    }

    /// The parameters from one line of text: four numbers separated by
    /// single spaces.
    pub fn from_line(line: &[u8]) -> (outcome: Result<InputParameters, LineError>)
        ensures
            outcome == parameters_from_line(line@),
    {
        let parameters = split(line, 32);
        if parameters.len() != 4 {
            return Err(LineError::WrongNumberOfParameters);
        }
        proof {
            assert(byte_rows(parameters@)[0] == parameters@[0]@);
            assert(byte_rows(parameters@)[1] == parameters@[1]@);
            assert(byte_rows(parameters@)[2] == parameters@[2]@);
            assert(byte_rows(parameters@)[3] == parameters@[3]@);
        }
        match read_fields(
            parameters[0].as_slice(),
            parameters[1].as_slice(),
            parameters[2].as_slice(),
            parameters[3].as_slice(),
        ) {
            Ok(parameters) => Ok(parameters),
            Err(field) => Err(LineError::Unreadable(field)),
        }
    }

    /// The parameters from the next line of the cursor, which is passed.
    pub fn from_line_iterator(content_iterator: &mut Lines) -> (outcome: Result<InputParameters, LineError>)
        requires
            old(content_iterator).well_formed(),
        ensures
            final(content_iterator).well_formed(),
            final(content_iterator).text@ == old(content_iterator).text@,
            old(content_iterator).rest().len() == 0 ==> outcome == Err::<InputParameters, LineError>(
                LineError::MissingLine,
            ) && final(content_iterator).rest() == old(content_iterator).rest(),
            old(content_iterator).rest().len() > 0 ==> outcome == parameters_from_line(
                first_line(old(content_iterator).rest()),
            ) && old(content_iterator).remaining() == seq![first_line(old(content_iterator).rest())]
                + final(content_iterator).remaining(),
    {
        match content_iterator.next() {
            None => Err(LineError::MissingLine),
            Some(line) => InputParameters::from_line(line.as_slice()),
        }
    }

    /// The line that denotes the parameters: M, k, o and b, separated by
    /// single spaces.
    pub open spec fn line(&self) -> Seq<u8> {
        decimal_digits(self.m as nat) + seq![32u8] + decimal_digits(self.k as nat) + seq![32u8]
            + decimal_digits(self.o as nat) + seq![32u8] + decimal_digits(self.b as nat)
    }

    /// Appends the line that denotes the parameters, without a line ending.
    pub fn push_line(&self, buffer: &mut Vec<u8>)
        ensures
            final(buffer)@ == old(buffer)@ + self.line(),
    {
        push_decimal(buffer, self.m as u128);
        buffer.push(32);
        push_decimal(buffer, self.k as u128);
        buffer.push(32);
        push_decimal(buffer, self.o as u128);
        buffer.push(32);
        push_decimal(buffer, self.b as u128);
        proof {
            assert(buffer@ =~= old(buffer)@ + self.line());
        }
    }
}

impl InputParameters {
    /// The line that denotes parameters is read as these parameters.
    pub proof fn lemma_line_round_trip(&self)
        ensures
            parameters_from_line(self.line()) == Ok::<InputParameters, LineError>(*self),
    {
        let m = decimal_digits(self.m as nat);
        let k = decimal_digits(self.k as nat);
        let o = decimal_digits(self.o as nat);
        let b = decimal_digits(self.b as nat);
        crate::problem::text::lemma_decimal_digits(self.m as nat);
        crate::problem::text::lemma_decimal_digits(self.k as nat);
        crate::problem::text::lemma_decimal_digits(self.o as nat);
        crate::problem::text::lemma_decimal_digits(self.b as nat);
        crate::problem::text::lemma_digits_hold_no(m, 32);
        crate::problem::text::lemma_digits_hold_no(k, 32);
        crate::problem::text::lemma_digits_hold_no(o, 32);
        crate::problem::text::lemma_digits_hold_no(b, 32);
        let space = seq![32u8];
        let after_o = b;
        let after_k = o + space + after_o;
        let after_m = k + space + after_k;
        assert(self.line() =~= m + space + after_m);
        crate::problem::text::lemma_split_first(m, after_m, 32);
        crate::problem::text::lemma_split_first(k, after_k, 32);
        crate::problem::text::lemma_split_first(o, after_o, 32);
        crate::problem::text::lemma_split_single(b, 32);
        assert(split_on(self.line(), 32) =~= seq![m, k, o, b]);
        crate::problem::text::lemma_parsed_digits(self.m);
        crate::problem::text::lemma_parsed_digits(self.k);
        crate::problem::text::lemma_parsed_digits(self.o);
        crate::problem::text::lemma_parsed_digits(self.b);
    }
}

} // verus!
