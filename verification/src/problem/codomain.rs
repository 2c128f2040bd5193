//! Value tables as text, and their generation by class of subfunction.

use vstd::prelude::*;
use vstd::arithmetic::power2::{pow2, lemma_pow2_strictly_increases, lemma2_to64};
use rand_chacha::ChaChaRng;
use crate::problem::bit_strings::power_of_two;
use crate::problem::clique_tree::InputParameters;
use crate::problem::codomain_subclasses::{
    generate_nk_p, generate_nk_q, generate_random, generate_random_trap, generate_trap,
    generate_trap_general, forced_zeros, is_deceptive_trap_table, is_sparse_table,
    is_stepped_table, is_unit_table, ones_among, trap_value, CodomainFunction,
};
use crate::problem::fitness::FITNESS_UNIT;
use crate::problem::fitness_text::{
    fitness_text, fitness_value, lemma_fitness_text_is_line, lemma_fitness_text_round_trip,
    parse_fitness, push_fitness,
};
use crate::problem::landscape::rows;
use crate::problem::text::{
    all_digits, ascii_bytes, ascii_chars, byte_rows, decimal_digits, is_digit, is_line, is_text,
    join_lines, lemma_decimal_digits, lemma_lines_of_joined, lines_of, parse_u32, parsed_u32,
    push_decimal, push_text, split, split_on, string_from_ascii, Lines,
};

verus! {

impl CodomainFunction {
    /// The name of the class with the parameter of the class, if it has
    /// one, after the separator.
    pub open spec fn named(&self, separator: u8) -> Seq<u8> {
        match self {
            CodomainFunction::Random => ascii_bytes("random"@),
            CodomainFunction::Trap => ascii_bytes("trap"@),
            CodomainFunction::DeceptiveTrap => ascii_bytes("deceptive-trap"@),
            CodomainFunction::NKq { q } => ascii_bytes("nk-q"@) + seq![separator] + decimal_digits(*q as nat),
            CodomainFunction::NKp { p } => ascii_bytes("nk-p"@) + seq![separator] + fitness_text(*p),
            CodomainFunction::RandomDeceptiveTrap { p_deceptive } => ascii_bytes("random-deceptive-trap"@)
                + seq![separator] + fitness_text(*p_deceptive),
            CodomainFunction::Unknown => ascii_bytes("unknown"@),
        }
    }

    /// The line that names the class in a file of value tables: the name,
    /// and after a space the parameter of the class, if it has one.
    pub open spec fn tag(&self) -> Seq<u8> {
        self.named(32)
    }

    /// The name of the class for use in file names: the name, and after a
    /// hyphen the parameter of the class, if it has one.
    pub fn to_io_string(&self) -> (name: String)
        ensures
            name@ == ascii_chars(self.named(45)),
    {
        let mut buffer: Vec<u8> = Vec::new();
        self.push_named(&mut buffer, 45);
        proof {
            self.lemma_named_is_ascii(45);
            assert(buffer@ =~= self.named(45));
        }
        string_from_ascii(buffer)
    }

    /// The line that names the class, as a string.
    pub fn to_string(&self) -> (name: String)
        ensures
            name@ == ascii_chars(self.tag()),
    {
        let mut buffer: Vec<u8> = Vec::new();
        self.push_named(&mut buffer, 32);
        proof {
            self.lemma_named_is_ascii(32);
            assert(buffer@ =~= self.named(32));
        }
        string_from_ascii(buffer)
    }

    /// Appends the name of the class with its parameter after the
    /// separator.
    pub fn push_named(&self, buffer: &mut Vec<u8>, separator: u8)
        ensures
            final(buffer)@ == old(buffer)@ + self.named(separator),
    {
        proof {
            reveal_strlit("random");
            reveal_strlit("trap");
            reveal_strlit("deceptive-trap");
            reveal_strlit("nk-q");
            reveal_strlit("nk-p");
            reveal_strlit("random-deceptive-trap");
            reveal_strlit("unknown");
        }
        match self {
            CodomainFunction::Random => {
                push_text(buffer, "random");
            },
            CodomainFunction::Trap => {
                push_text(buffer, "trap");
            },
            CodomainFunction::DeceptiveTrap => {
                push_text(buffer, "deceptive-trap");
            },
            CodomainFunction::NKq { q } => {
                push_text(buffer, "nk-q");
                buffer.push(separator);
                push_decimal(buffer, *q as u128);
                proof {
                    assert(buffer@ =~= old(buffer)@ + self.named(separator));
                }
            },
            CodomainFunction::NKp { p } => {
                push_text(buffer, "nk-p");
                buffer.push(separator);
                push_fitness(buffer, *p);
                proof {
                    assert(buffer@ =~= old(buffer)@ + self.named(separator));
                }
            },
            CodomainFunction::RandomDeceptiveTrap { p_deceptive } => {
                push_text(buffer, "random-deceptive-trap");
                buffer.push(separator);
                push_fitness(buffer, *p_deceptive);
                proof {
                    assert(buffer@ =~= old(buffer)@ + self.named(separator));
                }
            },
            CodomainFunction::Unknown => {
                push_text(buffer, "unknown");
            },
        }
    }
}

/// Why a text gave no value tables.
#[derive(Debug, PartialEq, Eq, Clone, Copy, Structural)]
pub enum CodomainError {
    /// The text has fewer lines than the tables have values.
    NotEnoughEntries,
    /// The line of this entry, counted from 0, denotes no fitness value.
    Unreadable { entry: u64 },
}

/// The rows of the first `count` tables, one after the other.
pub open spec fn flat_values(table: Seq<Seq<i64>>, count: int) -> Seq<i64>
    decreases count,
{
    if count <= 0 {
        Seq::empty()
    } else {
        flat_values(table, count - 1) + table[count - 1]
    }
}

/// The tables of `size` values each that `values` holds one after the
/// other.
pub open spec fn table_of(values: Seq<i64>, count: int, size: int) -> Seq<Seq<i64>> {
    Seq::new(count as nat, |i: int| values.subrange(i * size, (i + 1) * size))
}

/// The lines of the values.
pub open spec fn value_lines(values: Seq<i64>) -> Seq<Seq<u8>> {
    Seq::new(values.len(), |t: int| fitness_text(values[t]))
}

/// The lines of a file of value tables: the class of subfunctions, the
/// parameters, and one line for every value, table by table.
pub open spec fn codomain_lines(
    parameters: InputParameters,
    function: CodomainFunction,
    table: Seq<Seq<i64>>,
) -> Seq<Seq<u8>> {
    seq![function.tag(), parameters.line()] + value_lines(flat_values(table, table.len() as int))
}

/// The text of a file of value tables.
pub open spec fn codomain_text(
    parameters: InputParameters,
    function: CodomainFunction,
    table: Seq<Seq<i64>>,
) -> Seq<u8> {
    join_lines(codomain_lines(parameters, function, table))
}

/// The lines from the `count`-th on; none where there are fewer.
pub open spec fn skipped(lines: Seq<Seq<u8>>, count: int) -> Seq<Seq<u8>> {
    if 0 <= count <= lines.len() {
        lines.subrange(count, lines.len() as int)
    } else {
        Seq::empty()
    }
}

/// The values that the first `count` lines denote, or the first thing that
/// is wrong with them: a line that is missing, or one that denotes no value.
pub open spec fn read_values(lines: Seq<Seq<u8>>, count: int) -> Result<Seq<i64>, CodomainError>
    decreases count,
{
    if count <= 0 {
        Ok(Seq::empty())
    } else {
        match read_values(lines, count - 1) {
            Err(error) => Err(error),
            Ok(values) => if lines.len() < count {
                Err(CodomainError::NotEnoughEntries)
            } else {
                match fitness_value(lines[count - 1]) {
                    Some(value) => Ok(values.push(value)),
                    None => Err(CodomainError::Unreadable { entry: (count - 1) as u64 }),
                }
            },
        }
    }
}

/// What is wrong with the first lines is wrong with more of them.
pub proof fn lemma_read_values_fails_on(lines: Seq<Seq<u8>>, count: int, more: int)
    requires
        read_values(lines, count).is_err(),
        count <= more,
    ensures
        read_values(lines, more) == read_values(lines, count),
    decreases more - count,
{
    if count < more {
        lemma_read_values_fails_on(lines, count, more - 1);
    }
}

/// The text of a file of value tables: a line that names the class of
/// subfunctions, a line with the parameters, and one line for every value,
/// table by table. Every line ends with a line feed.
pub fn write_codomain(
    input_parameters: &InputParameters,
    codomain_function: &CodomainFunction,
    codomain: &[Vec<i64>],
) -> (text: Vec<u8>)
    ensures
        text@ == codomain_text(*input_parameters, *codomain_function, rows(codomain@)),
{
    let ghost table = rows(codomain@);
    let ghost head = seq![codomain_function.tag(), input_parameters.line()];
    let mut write_buffer: Vec<u8> = Vec::new();
    codomain_function.push_named(&mut write_buffer, 32);
    write_buffer.push(10);
    input_parameters.push_line(&mut write_buffer);
    write_buffer.push(10);
    proof {
        assert(head.drop_last() =~= seq![codomain_function.tag()]);
        assert(seq![codomain_function.tag()].drop_last() =~= Seq::<Seq<u8>>::empty());
        assert(join_lines(Seq::<Seq<u8>>::empty()) =~= Seq::<u8>::empty());
        assert(join_lines(seq![codomain_function.tag()]) =~= codomain_function.tag() + seq![10u8]);
        assert(write_buffer@ =~= join_lines(head));
        assert(value_lines(flat_values(table, 0)) =~= Seq::<Seq<u8>>::empty());
        assert(head + Seq::<Seq<u8>>::empty() =~= head);
    }
    let mut i: usize = 0;
    while i < codomain.len()
        invariant
            i <= codomain@.len(),
            table == rows(codomain@),
            write_buffer@ == join_lines(head + value_lines(flat_values(table, i as int))),
        decreases codomain@.len() - i,
    {
        let clique = &codomain[i];
        let ghost done = flat_values(table, i as int);
        let mut j: usize = 0;
        proof {
            assert(done + clique@.subrange(0, 0) =~= done);
        }
        while j < clique.len()
            invariant
                j <= clique@.len(),
                write_buffer@ == join_lines(head + value_lines(done + clique@.subrange(0, j as int))),
            decreases clique@.len() - j,
        {
            let ghost before = head + value_lines(done + clique@.subrange(0, j as int));
            push_fitness(&mut write_buffer, clique[j]);
            write_buffer.push(10);
            proof {
                let after = head + value_lines(done + clique@.subrange(0, j + 1));
                assert(after.drop_last() =~= before);
                assert(after.last() == fitness_text(clique@[j as int]));
                assert(write_buffer@ =~= join_lines(after));
            }
            j = j + 1;
        }
        proof {
            assert(clique@.subrange(0, j as int) =~= clique@);
            assert(table[i as int] == clique@);
        }
        i = i + 1;
    }
    write_buffer
}

/// The value tables for the parameters from the lines of the cursor: the
/// first `skip_number_lines` lines are passed over, and every line after them
/// gives one value, table by table.
pub fn get_codomain_from_iterator(
    content_iterator: &mut Lines,
    skip_number_lines: u32,
    input_parameters: &InputParameters,
) -> (outcome: Result<Vec<Vec<i64>>, CodomainError>)
    requires
        old(content_iterator).well_formed(),
        input_parameters.k < 32,
    ensures
        final(content_iterator).well_formed(),
        final(content_iterator).text@ == old(content_iterator).text@,
        match read_values(
            skipped(old(content_iterator).remaining(), skip_number_lines as int),
            input_parameters.m * pow2(input_parameters.k as nat),
        ) {
            Ok(values) => outcome.is_ok() && rows(outcome.unwrap()@) == table_of(
                values,
                input_parameters.m as int,
                pow2(input_parameters.k as nat) as int,
            ) && final(content_iterator).remaining() == skipped(
                old(content_iterator).remaining(),
                skip_number_lines + input_parameters.m * pow2(input_parameters.k as nat),
            ),
            Err(error) => outcome == Err::<Vec<Vec<i64>>, CodomainError>(error),
        },
{
    let ghost all = content_iterator.remaining();
    let mut passed: u32 = 0;
    proof {
        assert(all == old(content_iterator).remaining());
    }
    proof {
        assert(all.subrange(0, all.len() as int) =~= all);
    }
    while passed < skip_number_lines
        invariant
            passed <= skip_number_lines,
            content_iterator.well_formed(),
            content_iterator.text@ == old(content_iterator).text@,
            content_iterator.remaining() == skipped(all, passed as int),
        decreases skip_number_lines - passed,
    {
        let ghost before = content_iterator.remaining();
        let line = content_iterator.next();
        proof {
            match line {
                Some(l) => {
                    assert(before == seq![l@] + content_iterator.remaining());
                    assert(content_iterator.remaining() =~= before.subrange(1, before.len() as int));
                    assert(content_iterator.remaining() =~= skipped(all, passed + 1));
                },
                None => {
                    assert(content_iterator.remaining() =~= skipped(all, passed + 1));
                },
            }
        }
        passed = passed + 1;
    }
    let ghost lines = skipped(all, skip_number_lines as int);
    let m: usize = input_parameters.m as usize;
    let size: usize = power_of_two(input_parameters.k) as usize;
    proof {
        lemma2_to64();
        lemma_pow2_strictly_increases(input_parameters.k as nat, 32);
        assert(lines.subrange(0, lines.len() as int) =~= lines);
        assert(m * size <= 0xffff_ffff * 0x8000_0000) by (nonlinear_arith)
            requires
                m <= 0xffff_ffff,
                size <= 0x8000_0000,
        ;
    }
    let ghost total: int = m * size;
    let mut codomain: Vec<Vec<i64>> = Vec::new();
    let mut entry: u64 = 0;
    let mut i: usize = 0;
    while i < m
        invariant
            i <= m,
            m == input_parameters.m,
            size == pow2(input_parameters.k as nat),
            size <= 0x8000_0000,
            total == m * size,
            total <= 0xffff_ffff * 0x8000_0000,
            all == old(content_iterator).remaining(),
            content_iterator.well_formed(),
            content_iterator.text@ == old(content_iterator).text@,
            lines == skipped(all, skip_number_lines as int),
            entry == i * size,
            content_iterator.remaining() == skipped(lines, entry as int),
            read_values(lines, entry as int) == Ok::<Seq<i64>, CodomainError>(
                flat_values(rows(codomain@), i as int),
            ),
            codomain@.len() == i,
            forall|e: int| 0 <= e < i ==> (#[trigger] codomain@[e])@.len() == size,
        decreases m - i,
    {
        let ghost done = flat_values(rows(codomain@), i as int);
        let mut clique_codomain: Vec<i64> = Vec::new();
        let mut j: usize = 0;
        proof {
            assert(done + clique_codomain@ =~= done);
            assert(i * size + size <= m * size) by (nonlinear_arith)
                requires
                    i + 1 <= m,
                    size >= 0,
            ;
        }
        while j < size
            invariant
                j <= size,
                i < m,
                m == input_parameters.m,
                size == pow2(input_parameters.k as nat),
                all == old(content_iterator).remaining(),
                lines == skipped(all, skip_number_lines as int),
                size <= 0x8000_0000,
                total == m * size,
                i * size + size <= total,
                total <= 0xffff_ffff * 0x8000_0000,
                content_iterator.well_formed(),
                content_iterator.text@ == old(content_iterator).text@,
                entry == i * size + j,
                content_iterator.remaining() == skipped(lines, entry as int),
                read_values(lines, entry as int) == Ok::<Seq<i64>, CodomainError>(done + clique_codomain@),
                clique_codomain@.len() == j,
            decreases size - j,
        {
            let ghost before = content_iterator.remaining();
            let line = match content_iterator.next() {
                Some(line) => line,
                None => {
                    proof {
                        assert(lines.len() <= entry);
                        assert(read_values(lines, entry + 1).is_err());
                        lemma_read_values_fails_on(lines, entry + 1, total);
                    }
                    return Err(CodomainError::NotEnoughEntries);
                },
            };
            proof {
                assert(before == seq![line@] + content_iterator.remaining());
                assert(before.len() >= 1);
                assert(before[0] == line@);
                assert(lines[entry as int] == line@);
                assert(content_iterator.remaining() =~= before.subrange(1, before.len() as int));
                assert(content_iterator.remaining() =~= skipped(lines, entry + 1));
            }
            let fitness = match parse_fitness(line.as_slice()) {
                Some(fitness) => fitness,
                None => {
                    proof {
                        assert(read_values(lines, entry + 1).is_err());
                        lemma_read_values_fails_on(lines, entry + 1, total);
                    }
                    return Err(CodomainError::Unreadable { entry });
                },
            };
            let ghost row_before = clique_codomain@;
            clique_codomain.push(fitness);
            proof {
                assert((done + row_before).push(fitness) =~= done + clique_codomain@);
            }
            entry = entry + 1;
            j = j + 1;
        }
        let ghost table_before = rows(codomain@);
        codomain.push(clique_codomain);
        proof {
            let table = rows(codomain@);
            assert(table[i as int] == clique_codomain@);
            lemma_flat_values_same(table_before, table, i as int);
            assert(flat_values(table, i + 1) == flat_values(table, i as int) + table[i as int]);
            assert(i * size + size == (i + 1) * size) by (nonlinear_arith);
        }
        i = i + 1;
    }
    proof {
        let table = rows(codomain@);
        lemma_table_of_flat(table, m as int, size as int);
        assert(skipped(lines, total) =~= skipped(all, skip_number_lines + total));
    }
    Ok(codomain)
}

/// The flat values of the first tables depend on these tables only.
pub proof fn lemma_flat_values_same(a: Seq<Seq<i64>>, b: Seq<Seq<i64>>, count: int)
    requires
        count <= a.len(),
        count <= b.len(),
        forall|i: int| 0 <= i < count ==> a[i] == b[i],
    ensures
        flat_values(a, count) == flat_values(b, count),
    decreases count,
{
    if count > 0 {
        lemma_flat_values_same(a, b, count - 1);
    }
}

pub proof fn lemma_flat_values_len(table: Seq<Seq<i64>>, count: int, size: int)
    requires
        0 <= count <= table.len(),
        forall|i: int| 0 <= i < count ==> (#[trigger] table[i]).len() == size,
    ensures
        flat_values(table, count).len() == count * size,
    decreases count,
{
    if count > 0 {
        lemma_flat_values_len(table, count - 1, size);
        assert((count - 1) * size + size == count * size) by (nonlinear_arith);
    } else {
        assert(0 * size == 0);
    }
}

/// Tables of one size are the tables of their flat values.
pub proof fn lemma_table_of_flat(table: Seq<Seq<i64>>, count: int, size: int)
    requires
        0 <= count == table.len(),
        size >= 0,
        forall|i: int| 0 <= i < count ==> (#[trigger] table[i]).len() == size,
    ensures
        table_of(flat_values(table, count), count, size) =~= table,
{
    let flat = flat_values(table, count);
    assert forall|i: int| 0 <= i < count implies flat.subrange(i * size, (i + 1) * size) == table[i] by {
        lemma_flat_row(table, count, size, i);
    }
}

pub proof fn lemma_flat_row(table: Seq<Seq<i64>>, count: int, size: int, i: int)
    requires
        0 <= i < count <= table.len(),
        size >= 0,
        forall|e: int| 0 <= e < count ==> (#[trigger] table[e]).len() == size,
    ensures
        flat_values(table, count).subrange(i * size, (i + 1) * size) == table[i],
    decreases count,
{
    lemma_flat_values_len(table, count - 1, size);
    lemma_flat_values_len(table, count, size);
    assert((i + 1) * size == i * size + size) by (nonlinear_arith);
    assert(i * size >= 0 && (i + 1) * size <= count * size) by (nonlinear_arith)
        requires
            0 <= i < count,
            size >= 0,
    ;
    let flat = flat_values(table, count);
    let shorter = flat_values(table, count - 1);
    assert(flat == shorter + table[count - 1]);
    if i == count - 1 {
        assert(flat.subrange(i * size, (i + 1) * size) =~= table[i]);
    } else {
        lemma_flat_row(table, count - 1, size, i);
        assert((i + 1) * size <= (count - 1) * size) by (nonlinear_arith)
            requires
                i + 1 <= count - 1,
                size >= 0,
        ;
        assert(flat.subrange(i * size, (i + 1) * size) =~= shorter.subrange(i * size, (i + 1) * size));
    }
}

/// The lines of values denote the values.
pub proof fn lemma_read_value_lines(values: Seq<i64>, count: int)
    requires
        0 <= count <= values.len(),
    ensures
        read_values(value_lines(values), count) == Ok::<Seq<i64>, CodomainError>(values.subrange(0, count)),
    decreases count,
{
    if count > 0 {
        lemma_read_value_lines(values, count - 1);
        lemma_fitness_text_round_trip(values[count - 1]);
        assert(values.subrange(0, count - 1).push(values[count - 1]) =~= values.subrange(0, count));
    } else {
        assert(values.subrange(0, 0) =~= Seq::<i64>::empty());
    }
}

/// Every byte is below 128.
pub open spec fn all_ascii(s: Seq<u8>) -> bool {
    forall|i: int| 0 <= i < s.len() ==> (#[trigger] s[i]) < 128
}

pub proof fn lemma_all_ascii_parts(a: Seq<u8>, separator: u8, b: Seq<u8>)
    requires
        all_ascii(a),
        all_ascii(b),
        separator < 128,
    ensures
        all_ascii(a + seq![separator] + b),
{
    let s = a + seq![separator] + b;
    assert forall|i: int| 0 <= i < s.len() implies (#[trigger] s[i]) < 128 by {
        if i < a.len() {
            assert(s[i] == a[i]);
        } else if i > a.len() {
            assert(s[i] == b[i - a.len() - 1]);
        }
    }
}

pub proof fn lemma_name_is_ascii(chars: Seq<char>)
    requires
        is_name(chars),
    ensures
        all_ascii(ascii_bytes(chars)),
{
    let bytes = ascii_bytes(chars);
    assert forall|i: int| 0 <= i < bytes.len() implies (#[trigger] bytes[i]) < 128 by {
        assert('a' <= chars[i] <= 'z' || chars[i] == '-');
    }
}

pub proof fn lemma_digits_are_ascii(s: Seq<u8>)
    requires
        all_digits(s),
    ensures
        all_ascii(s),
{
    assert forall|i: int| 0 <= i < s.len() implies (#[trigger] s[i]) < 128 by {
        assert(is_digit(s[i]));
    }
}

impl CodomainFunction {
    /// The name of the class is made of ASCII characters.
    pub proof fn lemma_named_is_ascii(&self, separator: u8)
        requires
            separator < 128,
        ensures
            forall|i: int| 0 <= i < self.named(separator).len() ==> self.named(separator)[i] < 128,
    {
        reveal_strlit("random");
        reveal_strlit("trap");
        reveal_strlit("deceptive-trap");
        reveal_strlit("nk-q");
        reveal_strlit("nk-p");
        reveal_strlit("random-deceptive-trap");
        reveal_strlit("unknown");
        match self {
            CodomainFunction::Random => {
                lemma_name_is_ascii("random"@);
            },
            CodomainFunction::Trap => {
                lemma_name_is_ascii("trap"@);
            },
            CodomainFunction::DeceptiveTrap => {
                lemma_name_is_ascii("deceptive-trap"@);
            },
            CodomainFunction::NKq { q } => {
                lemma_name_is_ascii("nk-q"@);
                lemma_decimal_digits(*q as nat);
                lemma_digits_are_ascii(decimal_digits(*q as nat));
                lemma_all_ascii_parts(ascii_bytes("nk-q"@), separator, decimal_digits(*q as nat));
            },
            CodomainFunction::NKp { p } => {
                lemma_name_is_ascii("nk-p"@);
                crate::problem::fitness_text::lemma_decimal_text_is_ascii(*p as int);
                lemma_all_ascii_parts(ascii_bytes("nk-p"@), separator, fitness_text(*p));
            },
            CodomainFunction::RandomDeceptiveTrap { p_deceptive } => {
                lemma_name_is_ascii("random-deceptive-trap"@);
                crate::problem::fitness_text::lemma_decimal_text_is_ascii(*p_deceptive as int);
                lemma_all_ascii_parts(ascii_bytes("random-deceptive-trap"@), separator, fitness_text(*p_deceptive));
            },
            CodomainFunction::Unknown => {
                lemma_name_is_ascii("unknown"@);
            },
        }
    }

    /// The line that names the class can stand as one line.
    pub proof fn lemma_tag_is_line(&self)
        ensures
            is_line(self.tag()),
    {
        reveal_strlit("random");
        reveal_strlit("trap");
        reveal_strlit("deceptive-trap");
        reveal_strlit("nk-q");
        reveal_strlit("nk-p");
        reveal_strlit("random-deceptive-trap");
        reveal_strlit("unknown");
        let tag = self.tag();
        match self {
            CodomainFunction::Random => {
                lemma_name_is_line("random"@);
            },
            CodomainFunction::Trap => {
                lemma_name_is_line("trap"@);
            },
            CodomainFunction::DeceptiveTrap => {
                lemma_name_is_line("deceptive-trap"@);
            },
            CodomainFunction::NKq { q } => {
                lemma_name_is_line("nk-q"@);
                lemma_decimal_digits(*q as nat);
                crate::problem::text::lemma_digits_are_line(decimal_digits(*q as nat));
                lemma_line_parts(ascii_bytes("nk-q"@), decimal_digits(*q as nat));
            },
            CodomainFunction::NKp { p } => {
                lemma_name_is_line("nk-p"@);
                lemma_fitness_text_is_line(*p);
                lemma_line_parts(ascii_bytes("nk-p"@), fitness_text(*p));
            },
            CodomainFunction::RandomDeceptiveTrap { p_deceptive } => {
                lemma_name_is_line("random-deceptive-trap"@);
                lemma_fitness_text_is_line(*p_deceptive);
                lemma_line_parts(ascii_bytes("random-deceptive-trap"@), fitness_text(*p_deceptive));
            },
            CodomainFunction::Unknown => {
                lemma_name_is_line("unknown"@);
            },
        }
    }
}

/// Every character is a small letter or a hyphen.
pub open spec fn is_name(chars: Seq<char>) -> bool {
    forall|j: int| 0 <= j < chars.len() ==> ('a' <= #[trigger] chars[j] <= 'z' || chars[j] == '-')
}

/// A name can stand as one line.
pub proof fn lemma_name_is_line(chars: Seq<char>)
    requires
        is_name(chars),
    ensures
        is_line(ascii_bytes(chars)),
{
    let bytes = ascii_bytes(chars);
    assert forall|j: int| 0 <= j < bytes.len() implies bytes[j] != 10 && bytes[j] != 13 by {
        assert('a' <= chars[j] <= 'z' || chars[j] == '-');
    }
    if bytes.len() > 0 {
        assert(bytes[bytes.len() - 1] != 13);
    }
}

/// Two lines with a space between them can stand as one line, where the
/// second is not empty.
pub proof fn lemma_line_parts(a: Seq<u8>, b: Seq<u8>)
    requires
        is_line(a),
        is_line(b),
        b.len() >= 1,
    ensures
        is_line(a + seq![32u8] + b),
{
    let s = a + seq![32u8] + b;
    assert forall|j: int| 0 <= j < s.len() implies s[j] != 10 by {
        if j < a.len() {
            assert(s[j] == a[j]);
        } else if j > a.len() {
            assert(s[j] == b[j - a.len() - 1]);
        }
    }
    assert(s.last() == b.last());
}

impl InputParameters {
    /// The line of the parameters can stand as one line.
    pub proof fn lemma_line_is_line(&self)
        ensures
            is_line(self.line()),
    {
        lemma_decimal_digits(self.m as nat);
        lemma_decimal_digits(self.k as nat);
        lemma_decimal_digits(self.o as nat);
        lemma_decimal_digits(self.b as nat);
        crate::problem::text::lemma_digits_are_line(decimal_digits(self.m as nat));
        crate::problem::text::lemma_digits_are_line(decimal_digits(self.k as nat));
        crate::problem::text::lemma_digits_are_line(decimal_digits(self.o as nat));
        crate::problem::text::lemma_digits_are_line(decimal_digits(self.b as nat));
        let a = decimal_digits(self.m as nat);
        let b = decimal_digits(self.k as nat);
        let c = decimal_digits(self.o as nat);
        let d = decimal_digits(self.b as nat);
        lemma_line_parts(a, b);
        lemma_line_parts(a + seq![32u8] + b, c);
        lemma_line_parts(a + seq![32u8] + b + seq![32u8] + c, d);
    }
}

/// Writing value tables and reading them again gives the same tables: the
/// text of a file of value tables has, after its first two lines, lines that
/// denote the values of the tables, and these values give the tables back.
pub proof fn lemma_codomain_round_trip(parameters: InputParameters, function: CodomainFunction, table: Seq<Seq<i64>>)
    requires
        table.len() == parameters.m,
        forall|i: int| 0 <= i < table.len() ==> (#[trigger] table[i]).len() == pow2(parameters.k as nat),
    ensures
        read_values(
            skipped(lines_of(codomain_text(parameters, function, table)), 2),
            parameters.m * pow2(parameters.k as nat),
        ) == Ok::<Seq<i64>, CodomainError>(flat_values(table, parameters.m as int)),
        table_of(
            flat_values(table, parameters.m as int),
            parameters.m as int,
            pow2(parameters.k as nat) as int,
        ) == table,
{
    let size = pow2(parameters.k as nat) as int;
    let count = parameters.m as int;
    let flat = flat_values(table, count);
    let lines = codomain_lines(parameters, function, table);
    function.lemma_tag_is_line();
    parameters.lemma_line_is_line();
    assert forall|i: int| 0 <= i < lines.len() implies is_line(#[trigger] lines[i]) by {
        if i >= 2 {
            assert(lines[i] == value_lines(flat)[i - 2]);
            lemma_fitness_text_is_line(flat[i - 2]);
        }
    }
    lemma_lines_of_joined(lines);
    assert(lines_of(codomain_text(parameters, function, table)) == lines);
    assert(skipped(lines, 2) =~= value_lines(flat));
    lemma_flat_values_len(table, count, size);
    lemma_read_value_lines(flat, flat.len() as int);
    assert(flat.subrange(0, flat.len() as int) =~= flat);
    lemma_table_of_flat(table, count, size);
}

/// The parameter of the trap class: 2.5.
pub const TRAP_PARAMETER: i64 = 2_500_000_000_000_000;

/// Value tables of the class can be generated for the parameters.
pub open spec fn generable(parameters: InputParameters, function: CodomainFunction) -> bool {
    &&& parameters.k < 32
    &&& match function {
        CodomainFunction::Trap => parameters.k >= 2,
        CodomainFunction::NKq { q } => q >= 2,
        CodomainFunction::NKp { p } => 0 <= p <= FITNESS_UNIT,
        CodomainFunction::Unknown => false,
        _ => true,
    }
}

/// The table is one of the class for cliques of `k` variables.
pub open spec fn table_of_class(table: Seq<i64>, k: int, function: CodomainFunction) -> bool {
    let size = pow2(k as nat) as int;
    &&& table.len() == size
    &&& match function {
        CodomainFunction::Random => is_unit_table(table, size),
        CodomainFunction::Trap => forall|x: int|
            0 <= x < size ==> #[trigger] table[x] == trap_value(
                k,
                TRAP_PARAMETER as int,
                ones_among(k as nat, x as nat) as int,
            ),
        CodomainFunction::DeceptiveTrap => is_deceptive_trap_table(table, k),
        CodomainFunction::NKq { q } => is_stepped_table(table, size, q as int),
        CodomainFunction::NKp { p } => is_sparse_table(table, size, forced_zeros(p as int, size)),
        CodomainFunction::RandomDeceptiveTrap { p_deceptive } => is_deceptive_trap_table(table, k)
            || is_unit_table(table, size),
        CodomainFunction::Unknown => true,
    }
}

/// Value tables of the given class for the parameters: one table per
/// clique.
pub fn generate_codomain(
    input_parameters: &InputParameters,
    codomain_function: &CodomainFunction,
    rng: &mut ChaChaRng,
) -> (codomain: Vec<Vec<i64>>)
    requires
        generable(*input_parameters, *codomain_function),
    ensures
        codomain@.len() == input_parameters.m,
        forall|i: int|
            0 <= i < codomain@.len() ==> table_of_class(
                (#[trigger] codomain@[i])@,
                input_parameters.k as int,
                *codomain_function,
            ),
{
    match codomain_function {
        CodomainFunction::Random => generate_random(input_parameters, rng),
        CodomainFunction::Trap => generate_trap(input_parameters, TRAP_PARAMETER),
        CodomainFunction::DeceptiveTrap => {
            let codomain = generate_trap_general(input_parameters, rng);
            proof {
                assert forall|i: int| 0 <= i < codomain@.len() implies (#[trigger] codomain@[i])@.len() == pow2(
                    input_parameters.k as nat,
                ) by {
                    assert(is_deceptive_trap_table(codomain@[i]@, input_parameters.k as int));
                }
            }
            codomain
        },
        CodomainFunction::NKq { q } => generate_nk_q(input_parameters, *q, rng),
        CodomainFunction::NKp { p } => generate_nk_p(input_parameters, *p, rng),
        CodomainFunction::RandomDeceptiveTrap { p_deceptive } => {
            let codomain = generate_random_trap(input_parameters, *p_deceptive, rng);
            proof {
                assert forall|i: int| 0 <= i < codomain@.len() implies (#[trigger] codomain@[i])@.len() == pow2(
                    input_parameters.k as nat,
                ) by {
                    assert(is_deceptive_trap_table(codomain@[i]@, input_parameters.k as int) || is_unit_table(
                        codomain@[i]@,
                        pow2(input_parameters.k as nat) as int,
                    ));
                }
            }
            codomain
        },
        CodomainFunction::Unknown => vstd::pervasive::unreached(),
    }
}

/// Value tables of the given class for the parameters, together with the
/// text of the file that holds them.
pub fn generate_write_return(
    input_parameters: &InputParameters,
    codomain_function: &CodomainFunction,
    rng: &mut ChaChaRng,
) -> (generated: (Vec<Vec<i64>>, Vec<u8>))
    requires
        generable(*input_parameters, *codomain_function),
    ensures
        generated.0@.len() == input_parameters.m,
        forall|i: int|
            0 <= i < generated.0@.len() ==> table_of_class(
                (#[trigger] generated.0@[i])@,
                input_parameters.k as int,
                *codomain_function,
            ),
        generated.1@ == codomain_text(*input_parameters, *codomain_function, rows(generated.0@)),
{
    let codomain = generate_codomain(input_parameters, codomain_function, rng);
    let text = write_codomain(input_parameters, codomain_function, codomain.as_slice());
    (codomain, text)
}

/// The value tables for the parameters from the text of a file: the first
/// `skip_number_lines` lines are passed over, and every line after them gives
/// one value, table by table.
pub fn read_codomain(input_parameters: &InputParameters, contents: Vec<u8>, skip_number_lines: u32) -> (outcome:
    Result<Vec<Vec<i64>>, CodomainError>)
    requires
        input_parameters.k < 32,
    ensures
        match read_values(
            skipped(lines_of(contents@), skip_number_lines as int),
            input_parameters.m * pow2(input_parameters.k as nat),
        ) {
            Ok(values) => outcome.is_ok() && rows(outcome.unwrap()@) == table_of(
                values,
                input_parameters.m as int,
                pow2(input_parameters.k as nat) as int,
            ),
            Err(error) => outcome == Err::<Vec<Vec<i64>>, CodomainError>(error),
        },
{
    let mut content_iterator = Lines::new(contents);
    get_codomain_from_iterator(&mut content_iterator, skip_number_lines, input_parameters)
}

/// The class that the fields of a line name, if any: the name of a class
/// without parameter alone, or the name of a class with parameter followed
/// by the parameter.
pub open spec fn class_of_fields(fields: Seq<Seq<u8>>) -> Option<CodomainFunction> {
    if fields.len() == 1 {
        if fields[0] == ascii_bytes("random"@) {
            Some(CodomainFunction::Random)
        } else if fields[0] == ascii_bytes("trap"@) {
            Some(CodomainFunction::Trap)
        } else if fields[0] == ascii_bytes("deceptive-trap"@) {
            Some(CodomainFunction::DeceptiveTrap)
        } else if fields[0] == ascii_bytes("unknown"@) {
            Some(CodomainFunction::Unknown)
        } else {
            None
        }
    } else if fields.len() == 2 {
        if fields[0] == ascii_bytes("nk-q"@) {
            match parsed_u32(fields[1]) {
                Some(q) => Some(CodomainFunction::NKq { q }),
                None => None,
            }
        } else if fields[0] == ascii_bytes("nk-p"@) {
            match fitness_value(fields[1]) {
                Some(p) => Some(CodomainFunction::NKp { p }),
                None => None,
            }
        } else if fields[0] == ascii_bytes("random-deceptive-trap"@) {
            match fitness_value(fields[1]) {
                Some(p_deceptive) => Some(CodomainFunction::RandomDeceptiveTrap { p_deceptive }),
                None => None,
            }
        } else {
            None
        }
    } else {
        None
    }
}

/// The class that a line names, if any. The fields of the line are
/// separated by single spaces.
pub open spec fn class_of_tag(line: Seq<u8>) -> Option<CodomainFunction> {
    class_of_fields(split_on(line, 32))
}

impl CodomainFunction {
    /// Reads the class of subfunctions that a line names.
    pub fn from_tag(line: &[u8]) -> (class: Option<CodomainFunction>)
        ensures
            class == class_of_tag(line@),
    {
        proof {
            reveal_strlit("random");
            reveal_strlit("trap");
            reveal_strlit("deceptive-trap");
            reveal_strlit("nk-q");
            reveal_strlit("nk-p");
            reveal_strlit("random-deceptive-trap");
            reveal_strlit("unknown");
        }
        let fields = split(line, 32);
        proof {
            assert(byte_rows(fields@).len() == fields@.len());
            if fields@.len() >= 1 {
                assert(byte_rows(fields@)[0] == fields@[0]@);
            }
            if fields@.len() >= 2 {
                assert(byte_rows(fields@)[1] == fields@[1]@);
            }
        }
        if fields.len() == 1 {
            let name = fields[0].as_slice();
            if is_text(name, "random") {
                Some(CodomainFunction::Random)
            } else if is_text(name, "trap") {
                Some(CodomainFunction::Trap)
            } else if is_text(name, "deceptive-trap") {
                Some(CodomainFunction::DeceptiveTrap)
            } else if is_text(name, "unknown") {
                Some(CodomainFunction::Unknown)
            } else {
                None
            }
        } else if fields.len() == 2 {
            let name = fields[0].as_slice();
            let parameter = fields[1].as_slice();
            if is_text(name, "nk-q") {
                match parse_u32(parameter) {
                    Some(q) => Some(CodomainFunction::NKq { q }),
                    None => None,
                }
            } else if is_text(name, "nk-p") {
                match parse_fitness(parameter) {
                    Some(p) => Some(CodomainFunction::NKp { p }),
                    None => None,
                }
            } else if is_text(name, "random-deceptive-trap") {
                match parse_fitness(parameter) {
                    Some(p_deceptive) => Some(CodomainFunction::RandomDeceptiveTrap { p_deceptive }),
                    None => None,
                }
            } else {
                None
            }
        } else {
            None
        }
    }
}

/// A name holds no space.
pub proof fn lemma_name_holds_no_space(chars: Seq<char>)
    requires
        is_name(chars),
    ensures
        crate::problem::text::holds_no(ascii_bytes(chars), 32),
{
    let bytes = ascii_bytes(chars);
    assert forall|j: int| 0 <= j < bytes.len() implies bytes[j] != 32 by {
        assert('a' <= chars[j] <= 'z' || chars[j] == '-');
    }
}

impl CodomainFunction {
    /// The line that names a class is read as that class.
    pub proof fn lemma_tag_round_trip(&self)
        ensures
            class_of_tag(self.tag()) == Some(*self),
    {
        reveal_strlit("random");
        reveal_strlit("trap");
        reveal_strlit("deceptive-trap");
        reveal_strlit("nk-q");
        reveal_strlit("nk-p");
        reveal_strlit("random-deceptive-trap");
        reveal_strlit("unknown");
        match self {
            CodomainFunction::Random => {
                lemma_name_holds_no_space("random"@);
                crate::problem::text::lemma_split_single(self.tag(), 32);
            },
            CodomainFunction::Trap => {
                lemma_name_holds_no_space("trap"@);
                crate::problem::text::lemma_split_single(self.tag(), 32);
                assert(ascii_bytes("trap"@) != ascii_bytes("random"@));
            },
            CodomainFunction::DeceptiveTrap => {
                lemma_name_holds_no_space("deceptive-trap"@);
                crate::problem::text::lemma_split_single(self.tag(), 32);
                assert(ascii_bytes("deceptive-trap"@) != ascii_bytes("random"@));
                assert(ascii_bytes("deceptive-trap"@) != ascii_bytes("trap"@));
            },
            CodomainFunction::Unknown => {
                lemma_name_holds_no_space("unknown"@);
                crate::problem::text::lemma_split_single(self.tag(), 32);
                assert(ascii_bytes("unknown"@) != ascii_bytes("random"@));
                assert(ascii_bytes("unknown"@) != ascii_bytes("trap"@));
                assert(ascii_bytes("unknown"@) != ascii_bytes("deceptive-trap"@));
            },
            CodomainFunction::NKq { q } => {
                let name = ascii_bytes("nk-q"@);
                let parameter = decimal_digits(*q as nat);
                lemma_name_holds_no_space("nk-q"@);
                lemma_decimal_digits(*q as nat);
                crate::problem::text::lemma_digits_hold_no(parameter, 32);
                crate::problem::text::lemma_split_first(name, parameter, 32);
                crate::problem::text::lemma_split_single(parameter, 32);
                assert(seq![name] + seq![parameter] =~= seq![name, parameter]);
                crate::problem::text::lemma_parsed_digits(*q);
            },
            CodomainFunction::NKp { p } => {
                let name = ascii_bytes("nk-p"@);
                let parameter = fitness_text(*p);
                lemma_name_holds_no_space("nk-p"@);
                crate::problem::fitness_text::lemma_decimal_text_holds_no_space(*p as int);
                crate::problem::text::lemma_split_first(name, parameter, 32);
                crate::problem::text::lemma_split_single(parameter, 32);
                assert(seq![name] + seq![parameter] =~= seq![name, parameter]);
                lemma_fitness_text_round_trip(*p);
                assert(name[3] != ascii_bytes("nk-q"@)[3]);
            },
            CodomainFunction::RandomDeceptiveTrap { p_deceptive } => {
                let name = ascii_bytes("random-deceptive-trap"@);
                let parameter = fitness_text(*p_deceptive);
                lemma_name_holds_no_space("random-deceptive-trap"@);
                crate::problem::fitness_text::lemma_decimal_text_holds_no_space(*p_deceptive as int);
                crate::problem::text::lemma_split_first(name, parameter, 32);
                crate::problem::text::lemma_split_single(parameter, 32);
                assert(seq![name] + seq![parameter] =~= seq![name, parameter]);
                lemma_fitness_text_round_trip(*p_deceptive);
                assert(name != ascii_bytes("nk-q"@));
                assert(name != ascii_bytes("nk-p"@));
            },
        }
    }
}

} // verus!
