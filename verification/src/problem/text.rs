//! Decimal numbers as ASCII text.

use vstd::prelude::*;
use vstd::string::{is_ascii, is_ascii_spec_bytes};

verus! {

/// The byte is an ASCII digit.
pub open spec fn is_digit(b: u8) -> bool {
    48 <= b <= 57
}

/// Every byte is an ASCII digit.
pub open spec fn all_digits(s: Seq<u8>) -> bool {
    forall|i: int| 0 <= i < s.len() ==> is_digit(#[trigger] s[i])
}

/// The number that a string of ASCII digits denotes in base ten.
pub open spec fn decimal_value(s: Seq<u8>) -> nat
    decreases s.len(),
{
    if s.len() == 0 {
        0
    } else {
        10 * decimal_value(s.drop_last()) + (s.last() - 48) as nat
    }
}

/// The digits of `n` in base ten, without leading zeros.
pub open spec fn decimal_digits(n: nat) -> Seq<u8>
    decreases n,
{
    if n < 10 {
        seq![(48 + n) as u8]
    } else {
        decimal_digits(n / 10).push((48 + n % 10) as u8)
    }
}

/// The digits of a number denote the number.
pub proof fn lemma_decimal_digits(n: nat)
    ensures
        decimal_digits(n).len() >= 1,
        all_digits(decimal_digits(n)),
        decimal_value(decimal_digits(n)) == n,
    decreases n,
{
    if n < 10 {
        let s = seq![(48 + n) as u8];
        assert(s.drop_last().len() == 0);
        assert(decimal_value(s.drop_last()) == 0);
        assert(s.last() == 48 + n);
    } else {
        lemma_decimal_digits(n / 10);
        let s = decimal_digits(n);
        assert(s.drop_last() =~= decimal_digits(n / 10));
        assert(s.last() == 48 + n % 10);
    }
}

pub proof fn lemma_decimal_value_push(s: Seq<u8>, b: u8)
    ensures
        decimal_value(s.push(b)) == 10 * decimal_value(s) + (b - 48) as nat,
{
    assert(s.push(b).drop_last() =~= s);
}

/// What a text denotes as an unsigned number, if anything: after an
/// optional plus sign, one digit or more.
pub open spec fn unsigned_value(s: Seq<u8>) -> Option<nat> {
    let digits = if s.len() > 0 && s[0] == 43 {
        s.subrange(1, s.len() as int)
    } else {
        s
    };
    if digits.len() > 0 && all_digits(digits) {
        Some(decimal_value(digits))
    } else {
        None
    }
}

/// What a text denotes as a 32-bit unsigned number, if anything.
pub open spec fn parsed_u32(s: Seq<u8>) -> Option<u32> {
    match unsigned_value(s) {
        Some(n) => if n <= u32::MAX {
            Some(n as u32)
        } else {
            None
        },
        None => None,
    }
}

pub proof fn lemma_decimal_value_monotonic(s: Seq<u8>, upto: int)
    requires
        all_digits(s),
        0 <= upto <= s.len(),
    ensures
        decimal_value(s.subrange(0, upto)) <= decimal_value(s),
    decreases s.len() - upto,
{
    if upto < s.len() {
        lemma_decimal_value_monotonic(s, upto + 1);
        let longer = s.subrange(0, upto + 1);
        assert(longer.drop_last() =~= s.subrange(0, upto));
        assert(is_digit(s[upto]));
    } else {
        assert(s.subrange(0, upto) =~= s);
    }
}

/// Reads a 32-bit unsigned number in base ten: an optional plus sign and
/// one digit or more, the number being no more than `u32::MAX`.
pub fn parse_u32(bytes: &[u8]) -> (number: Option<u32>)
    ensures
        number == parsed_u32(bytes@),
{
    let start: usize = if bytes.len() > 0 && bytes[0] == 43 {
        1
    } else {
        0
    };
    let ghost digits = bytes@.subrange(start as int, bytes@.len() as int);
    proof {
        if start == 0 {
            assert(digits =~= bytes@);
        }
    }
    if start == bytes.len() {
        return None;
    }
    let mut value: u64 = 0;
    let mut i: usize = start;
    proof {
        assert(digits.subrange(0, 0).len() == 0);
    }
    while i < bytes.len()
        invariant
            start <= i <= bytes@.len(),
            start < bytes@.len(),
            digits == bytes@.subrange(start as int, bytes@.len() as int),
            start == 0 ==> digits == bytes@,
            start == (if bytes@.len() > 0 && bytes@[0] == 43 {
                1int
            } else {
                0int
            }),
            all_digits(digits.subrange(0, i - start)),
            value == decimal_value(digits.subrange(0, i - start)),
            value <= u32::MAX,
        decreases bytes@.len() - i,
    {
        let b: u8 = bytes[i];
        if b < 48 || b > 57 {
            proof {
                assert(digits[i - start] == b);
                assert(!all_digits(digits));
            }
            return None;
        }
        proof {
            lemma_decimal_value_push(digits.subrange(0, i - start), b);
            assert(digits.subrange(0, i - start).push(b) =~= digits.subrange(0, i + 1 - start));
        }
        value = value * 10 + (b - 48) as u64;
        if value > u32::MAX as u64 {
            proof {
                if all_digits(digits) {
                    lemma_decimal_value_monotonic(digits, i + 1 - start);
                }
            }
            return None;
        }
        i = i + 1;
    }
    proof {
        assert(digits.subrange(0, i - start) =~= digits);
    }
    Some(value as u32)
}

/// Appends the digits of `n` in base ten to `buffer`.
pub fn push_decimal(buffer: &mut Vec<u8>, n: u128)
    ensures
        final(buffer)@ == old(buffer)@ + decimal_digits(n as nat),
{
    let mut reversed: Vec<u8> = Vec::new();
    let mut rest: u128 = n;
    while rest >= 10
        invariant
            decimal_digits(n as nat) == decimal_digits(rest as nat) + reversed@.reverse(),
        decreases rest,
    {
        let ghost before = reversed@;
        reversed.push(48 + (rest % 10) as u8);
        proof {
            let digit = (48 + rest % 10) as u8;
            assert(reversed@.reverse() =~= seq![digit] + before.reverse());
            assert(decimal_digits(rest as nat) == decimal_digits((rest / 10) as nat).push(digit));
            assert(decimal_digits((rest / 10) as nat).push(digit) + before.reverse() =~= decimal_digits(
                (rest / 10) as nat,
            ) + (seq![digit] + before.reverse()));
        }
        rest = rest / 10;
    }
    buffer.push(48 + rest as u8);
    let ghost base = buffer@;
    let ghost tail = reversed@.reverse();
    let mut i: usize = reversed.len();
    proof {
        assert(decimal_digits(rest as nat) =~= seq![(48 + rest) as u8]);
        assert(tail.subrange(0, 0) =~= Seq::<u8>::empty());
    }
    while i > 0
        invariant
            i <= reversed@.len(),
            tail == reversed@.reverse(),
            buffer@ == base + tail.subrange(0, reversed@.len() - i),
        decreases i,
    {
        i = i - 1;
        buffer.push(reversed[i]);
        proof {
            assert(tail[reversed@.len() - 1 - i] == reversed@[i as int]);
            assert(buffer@ =~= base + tail.subrange(0, reversed@.len() - i));
        }
    }
    proof {
        assert(tail.subrange(0, reversed@.len() as int) =~= tail);
        assert(buffer@ =~= old(buffer)@ + (decimal_digits(rest as nat) + tail));
    }
}

/// `i` is the first position of `s` that holds `b`, or the length of `s`
/// where no position holds it.
pub open spec fn is_first_index(s: Seq<u8>, b: u8, i: int) -> bool {
    &&& 0 <= i <= s.len()
    &&& i < s.len() ==> s[i] == b
    &&& forall|j: int| 0 <= j < i ==> s[j] != b
}

/// The first position of `s` that holds `b`, or the length of `s` where no
/// position holds it.
pub open spec fn first_index(s: Seq<u8>, b: u8) -> int {
    choose|i: int| is_first_index(s, b, i)
}

pub proof fn lemma_first_index(s: Seq<u8>, b: u8, i: int)
    requires
        is_first_index(s, b, i),
    ensures
        first_index(s, b) == i,
{
    let c = first_index(s, b);
    if c < i {
        assert(s[c] != b);
    } else if i < c {
        assert(s[i] != b);
    }
}

/// The parts of `s` between the occurrences of the separator.
pub open spec fn split_on(s: Seq<u8>, separator: u8) -> Seq<Seq<u8>>
    decreases s.len(),
{
    let i = first_index(s, separator);
    if 0 <= i < s.len() {
        seq![s.subrange(0, i)] + split_on(s.subrange(i + 1, s.len() as int), separator)
    } else {
        seq![s]
    }
}

/// The first position from `start` on that holds `b`, or the length of the
/// text.
pub fn find_from(bytes: &[u8], start: usize, b: u8) -> (position: usize)
    requires
        start <= bytes@.len(),
    ensures
        start <= position <= bytes@.len(),
        is_first_index(bytes@.subrange(start as int, bytes@.len() as int), b, position - start),
{
    let mut position: usize = start;
    while position < bytes.len() && bytes[position] != b
        invariant
            start <= position <= bytes@.len(),
            forall|j: int| start <= j < position ==> bytes@[j] != b,
        decreases bytes@.len() - position,
    {
        position = position + 1;
    }
    position
}

/// A copy of the bytes from `from` up to, but not including, `to`.
pub fn copy_range(bytes: &[u8], from: usize, to: usize) -> (copy: Vec<u8>)
    requires
        from <= to <= bytes@.len(),
    ensures
        copy@ == bytes@.subrange(from as int, to as int),
{
    let mut copy: Vec<u8> = Vec::new();
    let mut i: usize = from;
    while i < to
        invariant
            from <= i <= to <= bytes@.len(),
            copy@ == bytes@.subrange(from as int, i as int),
        decreases to - i,
    {
        copy.push(bytes[i]);
        proof {
            assert(copy@ =~= bytes@.subrange(from as int, i + 1));
        }
        i = i + 1;
    }
    copy
}

/// The views of the vectors in `v`.
pub open spec fn byte_rows(v: Seq<Vec<u8>>) -> Seq<Seq<u8>> {
    Seq::new(v.len(), |i: int| v[i]@)
}

/// The parts of the text between the occurrences of the separator: one
/// more than there are separators, some of them perhaps empty.
pub fn split(bytes: &[u8], separator: u8) -> (parts: Vec<Vec<u8>>)
    ensures
        byte_rows(parts@) == split_on(bytes@, separator),
{
    let mut parts: Vec<Vec<u8>> = Vec::new();
    let mut start: usize = 0;
    proof {
        assert(bytes@.subrange(0, bytes@.len() as int) =~= bytes@);
    }
    loop
        invariant
            start <= bytes@.len(),
            split_on(bytes@, separator) == byte_rows(parts@) + split_on(
                bytes@.subrange(start as int, bytes@.len() as int),
                separator,
            ),
        decreases bytes@.len() - start,
    {
        let ghost rest = bytes@.subrange(start as int, bytes@.len() as int);
        let end = find_from(bytes, start, separator);
        proof {
            lemma_first_index(rest, separator, end - start);
        }
        let part = copy_range(bytes, start, end);
        let ghost before = byte_rows(parts@);
        proof {
            assert(part@ =~= rest.subrange(0, end - start));
        }
        parts.push(part);
        proof {
            assert(byte_rows(parts@) =~= before + seq![rest.subrange(0, end - start)]);
        }
        if end == bytes.len() {
            proof {
                assert(rest.subrange(0, end - start) =~= rest);
                assert(split_on(rest, separator) =~= seq![rest]);
            }
            return parts;
        }
        proof {
            assert(rest.subrange(end - start + 1, rest.len() as int) =~= bytes@.subrange(
                end + 1,
                bytes@.len() as int,
            ));
            assert(before + (seq![rest.subrange(0, end - start)] + split_on(
                bytes@.subrange(end + 1, bytes@.len() as int),
                separator,
            )) =~= (before + seq![rest.subrange(0, end - start)]) + split_on(
                bytes@.subrange(end + 1, bytes@.len() as int),
                separator,
            ));
        }
        start = end + 1;
    }
}

/// The first line of a text that is not empty: what stands before the
/// first line feed, without a carriage return just before the line feed; the
/// whole text where it holds no line feed.
pub open spec fn first_line(s: Seq<u8>) -> Seq<u8> {
    let i = first_index(s, 10);
    if 0 <= i < s.len() {
        if i > 0 && s[i - 1] == 13 {
            s.subrange(0, i - 1)
        } else {
            s.subrange(0, i)
        }
    } else {
        s
    }
}

/// What follows the first line of a text.
pub open spec fn after_first_line(s: Seq<u8>) -> Seq<u8> {
    let i = first_index(s, 10);
    if 0 <= i < s.len() {
        s.subrange(i + 1, s.len() as int)
    } else {
        Seq::empty()
    }
}

/// The lines of a text. A line ends with a line feed, or with a carriage
/// return and a line feed; the last line need not end with either.
pub open spec fn lines_of(s: Seq<u8>) -> Seq<Seq<u8>>
    decreases s.len(),
{
    if s.len() == 0 {
        Seq::empty()
    } else {
        let i = first_index(s, 10);
        if 0 <= i < s.len() {
            seq![first_line(s)] + lines_of(s.subrange(i + 1, s.len() as int))
        } else {
            seq![s]
        }
    }
}

/// A cursor over the lines of a text.
pub struct Lines {
    pub text: Vec<u8>,
    pub position: usize,
}

impl Lines {
    /// The cursor stands within its text.
    pub open spec fn well_formed(&self) -> bool {
        self.position <= self.text@.len()
    }

    /// The part of the text that the cursor has not passed.
    pub open spec fn rest(&self) -> Seq<u8> {
        self.text@.subrange(self.position as int, self.text@.len() as int)
    }

    /// The lines that the cursor has not handed out.
    pub open spec fn remaining(&self) -> Seq<Seq<u8>> {
        lines_of(self.rest())
    }

    /// A cursor before the first line of the text.
    pub fn new(text: Vec<u8>) -> (lines: Lines)
        ensures
            lines.well_formed(),
            lines.rest() == text@,
            lines.text@ == text@,
    {
        proof {
            assert(text@.subrange(0, text@.len() as int) =~= text@);
        }
        Lines { text, position: 0 }
    }

    /// The next line, without its line ending, or `None` after the last
    /// line.
    pub fn next(&mut self) -> (line: Option<Vec<u8>>)
        requires
            old(self).well_formed(),
        ensures
            final(self).well_formed(),
            final(self).text@ == old(self).text@,
            old(self).rest().len() == 0 ==> line.is_none() && final(self).rest() == old(self).rest(),
            old(self).rest().len() > 0 ==> line.is_some() && line.unwrap()@ == first_line(old(self).rest())
                && final(self).rest() == after_first_line(old(self).rest()),
            match line {
                Some(l) => old(self).remaining() == seq![l@] + final(self).remaining(),
                None => old(self).remaining().len() == 0,
            },
    {
        let ghost rest = self.rest();
        if self.position == self.text.len() {
            return None;
        }
        let end = find_from(self.text.as_slice(), self.position, 10);
        proof {
            lemma_first_index(rest, 10, end - self.position);
        }
        if end == self.text.len() {
            let line = copy_range(self.text.as_slice(), self.position, end);
            self.position = end;
            proof {
                assert(line@ =~= rest);
                assert(self.rest() =~= Seq::<u8>::empty());
                assert(lines_of(Seq::<u8>::empty()) =~= Seq::<Seq<u8>>::empty());
                assert(seq![line@] + Seq::<Seq<u8>>::empty() =~= seq![line@]);
            }
            return Some(line);
        }
        let stop: usize = if end > self.position && self.text[end - 1] == 13 {
            end - 1
        } else {
            end
        };
        let line = copy_range(self.text.as_slice(), self.position, stop);
        proof {
            assert(line@ =~= first_line(rest));
            assert(self.text@.subrange(end + 1, self.text@.len() as int) =~= rest.subrange(
                end - self.position + 1,
                rest.len() as int,
            ));
        }
        self.position = end + 1;
        Some(line)
    }
}

/// The text can stand as one line: it holds no line feed and does not end
/// with a carriage return.
pub open spec fn is_line(s: Seq<u8>) -> bool {
    &&& forall|j: int| 0 <= j < s.len() ==> s[j] != 10
    &&& s.len() > 0 ==> s.last() != 13
}

/// The lines, each followed by a line feed.
pub open spec fn join_lines(lines: Seq<Seq<u8>>) -> Seq<u8>
    decreases lines.len(),
{
    if lines.len() == 0 {
        Seq::empty()
    } else {
        join_lines(lines.drop_last()) + lines.last() + seq![10u8]
    }
}

pub proof fn lemma_join_lines_prepend(first: Seq<u8>, lines: Seq<Seq<u8>>)
    ensures
        join_lines(seq![first] + lines) =~= first + seq![10u8] + join_lines(lines),
    decreases lines.len(),
{
    if lines.len() == 0 {
        assert(seq![first] + lines =~= seq![first]);
        assert(seq![first].drop_last() =~= Seq::<Seq<u8>>::empty());
        assert(join_lines(Seq::<Seq<u8>>::empty()) =~= Seq::<u8>::empty());
    } else {
        lemma_join_lines_prepend(first, lines.drop_last());
        assert((seq![first] + lines).drop_last() =~= seq![first] + lines.drop_last());
        assert((seq![first] + lines).last() == lines.last());
    }
}

/// A text made of lines, each followed by a line feed, has these lines.
pub proof fn lemma_lines_of_joined(lines: Seq<Seq<u8>>)
    requires
        forall|i: int| 0 <= i < lines.len() ==> is_line(#[trigger] lines[i]),
    ensures
        lines_of(join_lines(lines)) =~= lines,
    decreases lines.len(),
{
    if lines.len() == 0 {
        assert(join_lines(lines).len() == 0);
    } else {
        let first = lines[0];
        let others = lines.subrange(1, lines.len() as int);
        assert(lines =~= seq![first] + others);
        lemma_join_lines_prepend(first, others);
        let text = join_lines(lines);
        assert(text =~= first + seq![10u8] + join_lines(others));
        assert(is_line(first));
        assert(is_first_index(text, 10, first.len() as int)) by {
            assert(text[first.len() as int] == 10);
            assert forall|j: int| 0 <= j < first.len() implies text[j] != 10 by {
                assert(text[j] == first[j]);
            }
        }
        lemma_first_index(text, 10, first.len() as int);
        assert(text.subrange(first.len() as int + 1, text.len() as int) =~= join_lines(others));
        assert(first_line(text) =~= first) by {
            if first.len() > 0 {
                assert(text[first.len() - 1] == first.last());
            }
            assert(text.subrange(0, first.len() as int) =~= first);
        }
        assert forall|i: int| 0 <= i < others.len() implies is_line(#[trigger] others[i]) by {
            assert(others[i] == lines[i + 1]);
        }
        lemma_lines_of_joined(others);
    }
}

/// A text made of digits can stand as one line.
pub proof fn lemma_digits_are_line(s: Seq<u8>)
    requires
        all_digits(s),
    ensures
        is_line(s),
{
    assert forall|j: int| 0 <= j < s.len() implies s[j] != 10 by {
        assert(is_digit(s[j]));
    }
    if s.len() > 0 {
        assert(is_digit(s[s.len() - 1]));
    }
}

/// The bytes of a text of ASCII characters.
pub open spec fn ascii_bytes(chars: Seq<char>) -> Seq<u8> {
    Seq::new(chars.len(), |i: int| chars[i] as u8)
}

/// Appends a text of ASCII characters.
pub fn push_text(buffer: &mut Vec<u8>, text: &str)
    requires
        is_ascii(text),
    ensures
        final(buffer)@ == old(buffer)@ + ascii_bytes(text@),
{
    broadcast use is_ascii_spec_bytes;

    let bytes = text.as_bytes();
    let mut i: usize = 0;
    proof {
        assert(bytes@ =~= ascii_bytes(text@));
        assert(old(buffer)@ + bytes@.subrange(0, 0) =~= old(buffer)@);
    }
    while i < bytes.len()
        invariant
            i <= bytes@.len(),
            bytes@ == ascii_bytes(text@),
            buffer@ == old(buffer)@ + bytes@.subrange(0, i as int),
        decreases bytes@.len() - i,
    {
        buffer.push(bytes[i]);
        proof {
            assert(buffer@ =~= old(buffer)@ + bytes@.subrange(0, i + 1));
        }
        i = i + 1;
    }
    proof {
        assert(bytes@.subrange(0, i as int) =~= bytes@);
    }
}

/// The characters of a text of ASCII bytes.
pub open spec fn ascii_chars(bytes: Seq<u8>) -> Seq<char> {
    Seq::new(bytes.len(), |i: int| bytes[i] as char)
}

/// Makes a string of the bytes by `String::from_utf8`, which accepts all
/// valid UTF-8 and keeps the bytes as they are. Claimed of it: of bytes that
/// are all ASCII, the string holds one character per byte, with the byte's
/// code.
#[verifier::external_body]
pub(crate) fn string_from_ascii(bytes: Vec<u8>) -> (text: String)
    requires
        forall|i: int| 0 <= i < bytes@.len() ==> bytes@[i] < 128,
    ensures
        text@ == ascii_chars(bytes@),
{
    match String::from_utf8(bytes) {
        Ok(text) => text,
        Err(_) => String::new(),
    }
}

/// Whether the bytes are those of the text.
pub fn is_text(bytes: &[u8], text: &str) -> (same: bool)
    requires
        is_ascii(text),
    ensures
        same == (bytes@ == ascii_bytes(text@)),
{
    broadcast use is_ascii_spec_bytes;

    let other = text.as_bytes();
    proof {
        assert(other@ =~= ascii_bytes(text@));
    }
    if bytes.len() != other.len() {
        return false;
    }
    let mut i: usize = 0;
    while i < bytes.len()
        invariant
            i <= bytes@.len() == other@.len(),
            other@ == ascii_bytes(text@),
            forall|j: int| 0 <= j < i ==> bytes@[j] == other@[j],
        decreases bytes@.len() - i,
    {
        if bytes[i] != other[i] {
            return false;
        }
        i = i + 1;
    }
    proof {
        assert(bytes@ =~= other@);
    }
    true
}

/// The byte is a space, a tab, a line feed, a vertical tab, a form feed or
/// a carriage return.
pub open spec fn is_blank(b: u8) -> bool {
    b == 32 || (9 <= b <= 13)
}

/// `s` without the blanks at its end.
pub open spec fn trimmed_end(s: Seq<u8>) -> Seq<u8>
    decreases s.len(),
{
    if s.len() > 0 && is_blank(s.last()) {
        trimmed_end(s.drop_last())
    } else {
        s
    }
}

/// `s` without the blanks at its start.
pub open spec fn trimmed_start(s: Seq<u8>) -> Seq<u8>
    decreases s.len(),
{
    if s.len() > 0 && is_blank(s[0]) {
        trimmed_start(s.subrange(1, s.len() as int))
    } else {
        s
    }
}

/// `s` without the blanks at its start and at its end.
pub open spec fn trimmed(s: Seq<u8>) -> Seq<u8> {
    trimmed_end(trimmed_start(s))
}

/// A copy of the text without the blanks at its start and at its end.
pub fn trim(bytes: &[u8]) -> (inner: Vec<u8>)
    ensures
        inner@ == trimmed(bytes@),
{
    let mut from: usize = 0;
    proof {
        assert(bytes@.subrange(0, bytes@.len() as int) =~= bytes@);
    }
    while from < bytes.len() && (bytes[from] == 32 || (9 <= bytes[from] && bytes[from] <= 13))
        invariant
            from <= bytes@.len(),
            trimmed_start(bytes@) == trimmed_start(bytes@.subrange(from as int, bytes@.len() as int)),
        decreases bytes@.len() - from,
    {
        proof {
            let rest = bytes@.subrange(from as int, bytes@.len() as int);
            assert(rest[0] == bytes@[from as int]);
            assert(rest.subrange(1, rest.len() as int) =~= bytes@.subrange(from + 1, bytes@.len() as int));
        }
        from = from + 1;
    }
    let ghost started = bytes@.subrange(from as int, bytes@.len() as int);
    proof {
        if from < bytes@.len() {
            assert(started[0] == bytes@[from as int]);
        }
        assert(trimmed_start(bytes@) == started);
    }
    let mut to: usize = bytes.len();
    while to > from && (bytes[to - 1] == 32 || (9 <= bytes[to - 1] && bytes[to - 1] <= 13))
        invariant
            from <= to <= bytes@.len(),
            started == bytes@.subrange(from as int, bytes@.len() as int),
            trimmed_end(started) == trimmed_end(bytes@.subrange(from as int, to as int)),
        decreases to,
    {
        proof {
            let part = bytes@.subrange(from as int, to as int);
            assert(part.last() == bytes@[to - 1]);
            assert(part.drop_last() =~= bytes@.subrange(from as int, to - 1));
        }
        to = to - 1;
    }
    proof {
        let part = bytes@.subrange(from as int, to as int);
        if to > from {
            assert(part.last() == bytes@[to - 1]);
        }
    }
    copy_range(bytes, from, to)
}

/// What a text denotes as a 32-bit signed number, if anything: after an
/// optional sign, one digit or more, within the range of 32 bits.
pub open spec fn parsed_i32(s: Seq<u8>) -> Option<i32> {
    let negative = s.len() > 0 && s[0] == 45;
    let digits = if s.len() > 0 && (s[0] == 43 || s[0] == 45) {
        s.subrange(1, s.len() as int)
    } else {
        s
    };
    if digits.len() > 0 && all_digits(digits) {
        let magnitude = decimal_value(digits);
        if negative {
            if magnitude <= 0x8000_0000 {
                Some((-(magnitude as int)) as i32)
            } else {
                None
            }
        } else {
            if magnitude <= i32::MAX {
                Some(magnitude as i32)
            } else {
                None
            }
        }
    } else {
        None
    }
}

/// Reads a 32-bit signed number in base ten.
pub fn parse_i32(bytes: &[u8]) -> (number: Option<i32>)
    ensures
        number == parsed_i32(bytes@),
{
    let negative: bool = bytes.len() > 0 && bytes[0] == 45;
    let start: usize = if bytes.len() > 0 && (bytes[0] == 43 || bytes[0] == 45) {
        1
    } else {
        0
    };
    let ghost digits = bytes@.subrange(start as int, bytes@.len() as int);
    proof {
        if start == 0 {
            assert(digits =~= bytes@);
        }
    }
    if start == bytes.len() {
        return None;
    }
    let mut value: u64 = 0;
    let mut i: usize = start;
    proof {
        assert(digits.subrange(0, 0).len() == 0);
    }
    while i < bytes.len()
        invariant
            start <= i <= bytes@.len(),
            digits == bytes@.subrange(start as int, bytes@.len() as int),
            all_digits(digits.subrange(0, i - start)),
            value == decimal_value(digits.subrange(0, i - start)),
            value <= 0x8000_0000,
            start < bytes@.len(),
            start == 0 ==> digits == bytes@,
            start == (if bytes@.len() > 0 && (bytes@[0] == 43 || bytes@[0] == 45) {
                1int
            } else {
                0int
            }),
            negative == (bytes@.len() > 0 && bytes@[0] == 45),
        decreases bytes@.len() - i,
    {
        let b: u8 = bytes[i];
        if b < 48 || b > 57 {
            proof {
                assert(digits[i - start] == b);
                assert(!all_digits(digits));
            }
            return None;
        }
        proof {
            lemma_decimal_value_push(digits.subrange(0, i - start), b);
            assert(digits.subrange(0, i - start).push(b) =~= digits.subrange(0, i + 1 - start));
        }
        value = value * 10 + (b - 48) as u64;
        if value > 0x8000_0000 {
            proof {
                if all_digits(digits) {
                    lemma_decimal_value_monotonic(digits, i + 1 - start);
                }
            }
            return None;
        }
        i = i + 1;
    }
    proof {
        assert(digits.subrange(0, i - start) =~= digits);
    }
    if negative {
        if value == 0x8000_0000 {
            Some(i32::MIN)
        } else {
            Some(-(value as i32))
        }
    } else {
        if value > i32::MAX as u64 {
            None
        } else {
            Some(value as i32)
        }
    }
}

/// No byte of `s` is `b`.
pub open spec fn holds_no(s: Seq<u8>, b: u8) -> bool {
    forall|j: int| 0 <= j < s.len() ==> s[j] != b
}

/// A text without separator is its only part.
pub proof fn lemma_split_single(s: Seq<u8>, separator: u8)
    requires
        holds_no(s, separator),
    ensures
        split_on(s, separator) == seq![s],
{
    lemma_first_index(s, separator, s.len() as int);
}

/// The parts of a text that begins with a part without separator and a
/// separator are that part and the parts of the rest.
pub proof fn lemma_split_first(a: Seq<u8>, rest: Seq<u8>, separator: u8)
    requires
        holds_no(a, separator),
    ensures
        split_on(a + seq![separator] + rest, separator) == seq![a] + split_on(rest, separator),
{
    let s = a + seq![separator] + rest;
    assert(is_first_index(s, separator, a.len() as int)) by {
        assert(s[a.len() as int] == separator);
        assert forall|j: int| 0 <= j < a.len() implies s[j] != separator by {
            assert(s[j] == a[j]);
        }
    }
    lemma_first_index(s, separator, a.len() as int);
    assert(s.subrange(0, a.len() as int) =~= a);
    assert(s.subrange(a.len() as int + 1, s.len() as int) =~= rest);
}

/// Digits hold no byte that is no digit.
pub proof fn lemma_digits_hold_no(s: Seq<u8>, b: u8)
    requires
        all_digits(s),
        !is_digit(b),
    ensures
        holds_no(s, b),
{
    assert forall|j: int| 0 <= j < s.len() implies s[j] != b by {
        assert(is_digit(s[j]));
    }
}

/// The digits of a number that fits in 32 bits denote that number.
pub proof fn lemma_parsed_digits(n: u32)
    ensures
        parsed_u32(decimal_digits(n as nat)) == Some(n),
{
    let digits = decimal_digits(n as nat);
    lemma_decimal_digits(n as nat);
    assert(is_digit(digits[0]));
}

} // verus!
