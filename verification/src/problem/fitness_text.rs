//! Fitness values as decimal text. What is written is an optional minus
//! sign, the whole part, and where there is a fraction a point and up to
//! fifteen digits. What is read may also have a plus sign, a point before or
//! after all digits, more digits, and an exponent of ten.

use vstd::prelude::*;
use crate::problem::fitness::FITNESS_UNIT;
use crate::problem::text::{
    all_digits, copy_range, decimal_digits, decimal_value, first_index, is_digit, is_first_index, is_line,
    lemma_decimal_digits, lemma_decimal_value_push, lemma_first_index, push_decimal,
};

verus! {

/// Ten to the power `e`.
pub open spec fn pow10(e: nat) -> nat
    decreases e,
{
    if e == 0 {
        1
    } else {
        10 * pow10((e - 1) as nat)
    }
}

/// The last `width` digits of `n` in base ten.
pub open spec fn fixed_digits(n: nat, width: nat) -> Seq<u8>
    decreases width,
{
    if width == 0 {
        Seq::empty()
    } else {
        fixed_digits(n / 10, (width - 1) as nat).push((48 + n % 10) as u8)
    }
}

/// The last `width` digits of `n` in base ten, without the zeros at their
/// end.
pub open spec fn trimmed_digits(n: nat, width: nat) -> Seq<u8>
    decreases width,
{
    if width == 0 {
        Seq::empty()
    } else if n % 10 == 0 {
        trimmed_digits(n / 10, (width - 1) as nat)
    } else {
        fixed_digits(n, width)
    }
}

/// The number of fraction digits that a fitness value has.
pub const FRACTION_DIGITS: usize = 15;

/// The text of a fixed-point number: a minus sign where it is negative,
/// the digits of its whole part, and where it has a fraction a point and the
/// digits of the fraction, without zeros at the end.
pub open spec fn decimal_text(value: int) -> Seq<u8> {
    let magnitude = if value < 0 {
        (-value) as nat
    } else {
        value as nat
    };
    let sign = if value < 0 {
        seq![45u8]
    } else {
        Seq::<u8>::empty()
    };
    let whole = decimal_digits(magnitude / (FITNESS_UNIT as nat));
    let fraction = magnitude % (FITNESS_UNIT as nat);
    if fraction == 0 {
        sign + whole
    } else {
        sign + whole + seq![46u8] + trimmed_digits(fraction, FRACTION_DIGITS as nat)
    }
}

/// The text of a fitness value.
pub open spec fn fitness_text(value: i64) -> Seq<u8> {
    decimal_text(value as int)
}

/// The byte marks an exponent: `e` or `E`.
pub open spec fn is_mark(b: u8) -> bool {
    b == 101 || b == 69
}

/// `i` is the first position of `s` that holds an exponent mark, or the
/// length of `s` where no position holds one.
pub open spec fn is_first_mark(s: Seq<u8>, i: int) -> bool {
    &&& 0 <= i <= s.len()
    &&& i < s.len() ==> is_mark(s[i])
    &&& forall|j: int| 0 <= j < i ==> !is_mark(#[trigger] s[j])
}

/// The first position of `s` that holds an exponent mark, or the length of
/// `s` where no position holds one.
pub open spec fn first_mark(s: Seq<u8>) -> int {
    choose|i: int| is_first_mark(s, i)
}

/// The number of units that digits denote of which the first `places` stand
/// before the place of the unit `10^-15`: digits are added as zeros where
/// there are fewer, and where there are more, the digit after the last place
/// rounds up from five on.
pub open spec fn scaled_units(digits: Seq<u8>, places: int) -> nat {
    if places < 0 {
        0
    } else if places < digits.len() {
        decimal_value(digits.subrange(0, places)) + if digits[places] >= 53 {
            1nat
        } else {
            0nat
        }
    } else {
        decimal_value(digits) * pow10((places - digits.len()) as nat)
    }
}

/// The digits of a number without sign and exponent, and how many of them
/// stand before the point: digits, perhaps with one point before, between or
/// after them.
pub open spec fn mantissa_digits(text: Seq<u8>) -> Option<(Seq<u8>, int)> {
    let point = first_index(text, 46);
    let whole = text.subrange(0, point);
    let fraction = if point < text.len() {
        text.subrange(point + 1, text.len() as int)
    } else {
        Seq::empty()
    };
    if all_digits(whole) && all_digits(fraction) && whole.len() + fraction.len() > 0 {
        Some((whole + fraction, point))
    } else {
        None
    }
}

/// The exponent that a text denotes, if any: an optional sign and one digit
/// or more.
pub open spec fn exponent_value(text: Seq<u8>) -> Option<int> {
    let signed = text.len() > 0 && (text[0] == 43 || text[0] == 45);
    let digits = if signed {
        text.subrange(1, text.len() as int)
    } else {
        text
    };
    if digits.len() > 0 && all_digits(digits) {
        if text[0] == 45 {
            Some(-(decimal_value(digits) as int))
        } else {
            Some(decimal_value(digits) as int)
        }
    } else {
        None
    }
}

/// The magnitude, in units, that a text without sign denotes, if any:
/// digits with at most one point, and perhaps an exponent of ten after `e` or
/// `E`.
pub open spec fn magnitude_value(body: Seq<u8>) -> Option<nat> {
    let mark = first_mark(body);
    let exponent = if mark < body.len() {
        exponent_value(body.subrange(mark + 1, body.len() as int))
    } else {
        Some(0int)
    };
    match (mantissa_digits(body.subrange(0, mark)), exponent) {
        (Some((digits, whole)), Some(e)) => Some(scaled_units(digits, whole + FRACTION_DIGITS + e)),
        _ => None,
    }
}

/// The fitness value that a text denotes, if any: an optional sign and a
/// magnitude, within the range of 64 bits. What lies beyond the fifteenth
/// digit of the fraction is rounded away.
pub open spec fn fitness_value(s: Seq<u8>) -> Option<i64> {
    let negative = s.len() > 0 && s[0] == 45;
    let body = if s.len() > 0 && (s[0] == 45 || s[0] == 43) {
        s.subrange(1, s.len() as int)
    } else {
        s
    };
    match magnitude_value(body) {
        None => None,
        Some(magnitude) => if negative {
            if magnitude <= 0x8000_0000_0000_0000 {
                Some((-(magnitude as int)) as i64)
            } else {
                None
            }
        } else {
            if magnitude <= i64::MAX {
                Some(magnitude as i64)
            } else {
                None
            }
        },
    }
}

pub proof fn lemma_pow10_values()
    ensures
        pow10(0) == 1,
        pow10(1) == 10,
        pow10(2) == 100,
        pow10(3) == 1_000,
        pow10(4) == 10_000,
        pow10(5) == 100_000,
        pow10(6) == 1_000_000,
        pow10(7) == 10_000_000,
        pow10(8) == 100_000_000,
        pow10(9) == 1_000_000_000,
        pow10(10) == 10_000_000_000,
        pow10(11) == 100_000_000_000,
        pow10(12) == 1_000_000_000_000,
        pow10(13) == 10_000_000_000_000,
        pow10(14) == 100_000_000_000_000,
        pow10(15) == 1_000_000_000_000_000,
{
    reveal_with_fuel(pow10, 16);
}

pub proof fn lemma_fixed_digits(n: nat, width: nat)
    requires
        n < pow10(width),
    ensures
        fixed_digits(n, width).len() == width,
        all_digits(fixed_digits(n, width)),
        decimal_value(fixed_digits(n, width)) == n,
    decreases width,
{
    if width > 0 {
        lemma_fixed_digits(n / 10, (width - 1) as nat);
        lemma_decimal_value_push(fixed_digits(n / 10, (width - 1) as nat), (48 + n % 10) as u8);
    }
}

pub proof fn lemma_trimmed_digits(n: nat, width: nat)
    requires
        0 < n < pow10(width),
    ensures
        1 <= trimmed_digits(n, width).len() <= width,
        all_digits(trimmed_digits(n, width)),
        decimal_value(trimmed_digits(n, width)) * pow10((width - trimmed_digits(n, width).len()) as nat) == n,
    decreases width,
{
    if width > 0 {
        if n % 10 == 0 {
            lemma_trimmed_digits(n / 10, (width - 1) as nat);
            let t = trimmed_digits(n / 10, (width - 1) as nat);
            let v = decimal_value(t);
            let e = (width - 1 - t.len()) as nat;
            assert(pow10((width - t.len()) as nat) == 10 * pow10(e));
            assert(v * (10 * pow10(e)) == 10 * (v * pow10(e))) by (nonlinear_arith);
            assert(v * pow10(e) == n / 10);
            assert(trimmed_digits(n, width) == t);
        } else {
            lemma_fixed_digits(n, width);
            assert(pow10(0) == 1);
            let v = decimal_value(fixed_digits(n, width));
            assert(v * pow10(0) == v) by (nonlinear_arith)
                requires
                    pow10(0) == 1,
            ;
            assert(trimmed_digits(n, width) == fixed_digits(n, width));
        }
    }
}

pub proof fn lemma_decimal_value_bound(s: Seq<u8>)
    requires
        all_digits(s),
    ensures
        decimal_value(s) < pow10(s.len()),
    decreases s.len(),
{
    if s.len() > 0 {
        assert(all_digits(s.drop_last()));
        lemma_decimal_value_bound(s.drop_last());
        assert(is_digit(s.last()));
    }
}

pub proof fn lemma_decimal_value_prefix(s: Seq<u8>, upto: int)
    requires
        all_digits(s),
        0 <= upto <= s.len(),
    ensures
        decimal_value(s.subrange(0, upto)) <= decimal_value(s),
        all_digits(s.subrange(0, upto)),
{
    crate::problem::text::lemma_decimal_value_monotonic(s, upto);
}

/// Reads the digits from `from` up to, but not including, `to`, as a
/// number that is no more than `limit`.
pub fn read_digits(bytes: &[u8], from: usize, to: usize, limit: u128) -> (number: Option<u128>)
    requires
        from <= to <= bytes@.len(),
        limit <= 1_000_000_000_000_000_000_000_000_000_000_000_000,
    ensures
        match number {
            Some(n) => all_digits(bytes@.subrange(from as int, to as int)) && n == decimal_value(
                bytes@.subrange(from as int, to as int),
            ) && n <= limit,
            None => !all_digits(bytes@.subrange(from as int, to as int)) || decimal_value(
                bytes@.subrange(from as int, to as int),
            ) > limit,
        },
{
    let ghost digits = bytes@.subrange(from as int, to as int);
    let mut value: u128 = 0;
    let mut i: usize = from;
    proof {
        assert(digits.subrange(0, 0).len() == 0);
    }
    while i < to
        invariant
            from <= i <= to <= bytes@.len(),
            limit <= 1_000_000_000_000_000_000_000_000_000_000_000_000,
            digits == bytes@.subrange(from as int, to as int),
            all_digits(digits.subrange(0, i - from)),
            value == decimal_value(digits.subrange(0, i - from)),
            value <= limit,
        decreases to - i,
    {
        let b: u8 = bytes[i];
        if b < 48 || b > 57 {
            proof {
                assert(digits[i - from] == b);
            }
            return None;
        }
        proof {
            lemma_decimal_value_push(digits.subrange(0, i - from), b);
            assert(digits.subrange(0, i - from).push(b) =~= digits.subrange(0, i + 1 - from));
        }
        value = value * 10 + (b - 48) as u128;
        if value > limit {
            proof {
                if all_digits(digits) {
                    lemma_decimal_value_prefix(digits, i + 1 - from);
                }
            }
            return None;
        }
        i = i + 1;
    }
    proof {
        assert(digits.subrange(0, i - from) =~= digits);
    }
    Some(value)
}

/// Whether the bytes from `from` up to, but not including, `to` are digits.
pub fn check_digits(bytes: &[u8], from: usize, to: usize) -> (digits: bool)
    requires
        from <= to <= bytes@.len(),
    ensures
        digits == all_digits(bytes@.subrange(from as int, to as int)),
{
    let ghost part = bytes@.subrange(from as int, to as int);
    let mut i: usize = from;
    while i < to
        invariant
            from <= i <= to <= bytes@.len(),
            part == bytes@.subrange(from as int, to as int),
            forall|j: int| 0 <= j < i - from ==> is_digit(#[trigger] part[j]),
        decreases to - i,
    {
        if bytes[i] < 48 || bytes[i] > 57 {
            proof {
                assert(part[i - from] == bytes@[i as int]);
            }
            return false;
        }
        i = i + 1;
    }
    true
}

pub proof fn lemma_pow10_increases(a: nat, b: nat)
    requires
        a <= b,
    ensures
        pow10(a) <= pow10(b),
        pow10(a) >= 1,
    decreases b,
{
    if a < b {
        lemma_pow10_increases(a, (b - 1) as nat);
    } else if a > 0 {
        lemma_pow10_increases((a - 1) as nat, (a - 1) as nat);
    }
}

pub proof fn lemma_first_mark(s: Seq<u8>, i: int)
    requires
        is_first_mark(s, i),
    ensures
        first_mark(s) == i,
{
    let c = first_mark(s);
    if c < i {
        assert(!is_mark(s[c]));
    } else if i < c {
        assert(!is_mark(s[i]));
    }
}

/// The first position from `start` on that holds an exponent mark, or the
/// length of the text.
pub fn find_mark_from(bytes: &[u8], start: usize) -> (position: usize)
    requires
        start <= bytes@.len(),
    ensures
        start <= position <= bytes@.len(),
        is_first_mark(bytes@.subrange(start as int, bytes@.len() as int), position - start),
{
    let mut position: usize = start;
    while position < bytes.len() && bytes[position] != 101 && bytes[position] != 69
        invariant
            start <= position <= bytes@.len(),
            forall|j: int| start <= j < position ==> !is_mark(#[trigger] bytes@[j]),
        decreases bytes@.len() - position,
    {
        position = position + 1;
    }
    position
}

/// The first position from `from` up to, but not including, `to` that
/// holds `b`, or `to`.
pub fn find_within(bytes: &[u8], from: usize, to: usize, b: u8) -> (position: usize)
    requires
        from <= to <= bytes@.len(),
    ensures
        from <= position <= to,
        is_first_index(bytes@.subrange(from as int, to as int), b, position - from),
{
    let mut position: usize = from;
    while position < to && bytes[position] != b
        invariant
            from <= position <= to <= bytes@.len(),
            forall|j: int| from <= j < position ==> bytes@[j] != b,
        decreases to - position,
    {
        position = position + 1;
    }
    position
}

/// Reads the digits of a number without sign and exponent, and how many of
/// them stand before the point.
pub fn read_mantissa(bytes: &[u8], from: usize, to: usize) -> (mantissa: Option<(Vec<u8>, usize)>)
    requires
        from <= to <= bytes@.len(),
    ensures
        match mantissa_digits(bytes@.subrange(from as int, to as int)) {
            Some((digits, whole)) => mantissa.is_some() && mantissa.unwrap().0@ == digits && mantissa.unwrap().1
                == whole && all_digits(digits) && 0 <= whole <= digits.len(),
            None => mantissa.is_none(),
        },
{
    let ghost text = bytes@.subrange(from as int, to as int);
    let point = find_within(bytes, from, to, 46);
    proof {
        lemma_first_index(text, 46, point - from);
        assert(text.subrange(0, point - from) =~= bytes@.subrange(from as int, point as int));
    }
    let fraction_from: usize = if point < to {
        point + 1
    } else {
        to
    };
    let ghost whole = bytes@.subrange(from as int, point as int);
    let ghost fraction = bytes@.subrange(fraction_from as int, to as int);
    proof {
        if point < to {
            assert(text.subrange(point - from + 1, text.len() as int) =~= fraction);
        } else {
            assert(fraction =~= Seq::<u8>::empty());
        }
    }
    if !check_digits(bytes, from, point) {
        return None;
    }
    if !check_digits(bytes, fraction_from, to) {
        return None;
    }
    if point - from + (to - fraction_from) == 0 {
        return None;
    }
    let mut digits = copy_range(bytes, from, point);
    let mut i: usize = fraction_from;
    proof {
        assert(whole + fraction.subrange(0, 0) =~= whole);
    }
    while i < to
        invariant
            fraction_from <= i <= to <= bytes@.len(),
            fraction == bytes@.subrange(fraction_from as int, to as int),
            digits@ == whole + fraction.subrange(0, i - fraction_from),
        decreases to - i,
    {
        digits.push(bytes[i]);
        proof {
            assert(digits@ =~= whole + fraction.subrange(0, i + 1 - fraction_from));
        }
        i = i + 1;
    }
    proof {
        assert(fraction.subrange(0, to - fraction_from) =~= fraction);
        assert forall|j: int| 0 <= j < (whole + fraction).len() implies is_digit(#[trigger] (whole + fraction)[j]) by {
            if j < whole.len() {
                assert((whole + fraction)[j] == whole[j]);
            } else {
                assert((whole + fraction)[j] == fraction[j - whole.len()]);
            }
        }
    }
    Some((digits, point - from))
}

/// The largest magnitude of an exponent that is told apart from larger
/// ones: beyond it a number is 0 or out of range whatever its digits are.
pub const EXPONENT_CAP: i128 = 1_000_000_000_000_000_000_000_000_000_000;

/// `e`, but no further from 0 than the largest magnitude of an exponent.
pub open spec fn capped(e: int) -> int {
    if e > EXPONENT_CAP {
        EXPONENT_CAP as int
    } else if e < -EXPONENT_CAP {
        -EXPONENT_CAP
    } else {
        e
    }
}

/// Reads an exponent: an optional sign and one digit or more. Magnitudes
/// beyond the largest one are read as the largest.
pub fn read_exponent(bytes: &[u8], from: usize, to: usize) -> (exponent: Option<i128>)
    requires
        from <= to <= bytes@.len(),
    ensures
        match exponent_value(bytes@.subrange(from as int, to as int)) {
            Some(e) => exponent == Some(capped(e) as i128),
            None => exponent.is_none(),
        },
{
    let ghost text = bytes@.subrange(from as int, to as int);
    let negative: bool = from < to && bytes[from] == 45;
    let start: usize = if from < to && (bytes[from] == 43 || bytes[from] == 45) {
        from + 1
    } else {
        from
    };
    let ghost digits = bytes@.subrange(start as int, to as int);
    proof {
        if from < to {
            assert(text[0] == bytes@[from as int]);
        }
        if start == from {
            assert(digits =~= text);
        } else {
            assert(digits =~= text.subrange(1, text.len() as int));
        }
    }
    if start == to {
        return None;
    }
    if !check_digits(bytes, start, to) {
        return None;
    }
    let mut value: i128 = 0;
    let mut i: usize = start;
    proof {
        assert(digits.subrange(0, 0).len() == 0);
    }
    while i < to
        invariant
            start <= i <= to <= bytes@.len(),
            digits == bytes@.subrange(start as int, to as int),
            all_digits(digits),
            0 <= value <= EXPONENT_CAP,
            value == capped(decimal_value(digits.subrange(0, i - start)) as int),
        decreases to - i,
    {
        let b: u8 = bytes[i];
        proof {
            assert(digits[i - start] == b);
            assert(is_digit(digits[i - start]));
            lemma_decimal_value_push(digits.subrange(0, i - start), b);
            assert(digits.subrange(0, i - start).push(b) =~= digits.subrange(0, i + 1 - start));
        }
        if value < EXPONENT_CAP {
            value = value * 10 + (b - 48) as i128;
            if value > EXPONENT_CAP {
                value = EXPONENT_CAP;
            }
        }
        i = i + 1;
    }
    proof {
        assert(digits.subrange(0, i - start) =~= digits);
    }
    if negative {
        Some(-value)
    } else {
        Some(value)
    }
}

/// The largest magnitude of a fitness value in units, `2^63`.
pub const UNITS_LIMIT: u128 = 0x8000_0000_0000_0000;

pub proof fn lemma_pow10_twenty()
    ensures
        pow10(20) == 100_000_000_000_000_000_000,
{
    lemma_pow10_values();
    lemma_pow10_adds(5, 15);
}

/// The number of units that digits denote of which the first `places`
/// stand before the place of the unit, where it is no more than `2^63`.
pub fn scale_digits(digits: &Vec<u8>, places: i128) -> (units: Option<u64>)
    requires
        all_digits(digits@),
    ensures
        match units {
            Some(u) => u == scaled_units(digits@, places as int) && u <= UNITS_LIMIT,
            None => scaled_units(digits@, places as int) > UNITS_LIMIT,
        },
{
    if places < 0 {
        return Some(0);
    }
    let length: usize = digits.len();
    if places < length as i128 {
        let count: usize = places as usize;
        proof {
            lemma_decimal_value_prefix(digits@, count as int);
        }
        let kept = match read_digits(digits.as_slice(), 0, count, UNITS_LIMIT) {
            Some(kept) => kept,
            None => {
                return None;
            },
        };
        let units: u128 = if digits[count] >= 53 {
            kept + 1
        } else {
            kept
        };
        if units > UNITS_LIMIT {
            return None;
        }
        Some(units as u64)
    } else {
        proof {
            assert(digits@.subrange(0, length as int) =~= digits@);
            lemma_pow10_increases(0, (places - length) as nat);
        }
        let value = match read_digits(digits.as_slice(), 0, length, UNITS_LIMIT) {
            Some(value) => value,
            None => {
                proof {
                    let v = decimal_value(digits@);
                    let f = pow10((places - length) as nat);
                    assert(v * f >= v) by (nonlinear_arith)
                        requires
                            f >= 1,
                            v >= 0,
                    ;
                }
                return None;
            },
        };
        if value == 0 {
            proof {
                assert(0 * pow10((places - length) as nat) == 0);
            }
            return Some(0);
        }
        let extra: i128 = places - length as i128;
        let mut units: u128 = value;
        let mut done: i128 = 0;
        proof {
            assert(pow10(0) == 1);
            assert(value * pow10(0) == value) by (nonlinear_arith)
                requires
                    pow10(0) == 1,
            ;
        }
        while done < extra
            invariant
                0 <= done <= extra,
                extra == places - length,
                length == digits@.len(),
                value == decimal_value(digits@),
                value >= 1,
                units == value * pow10(done as nat),
                units <= UNITS_LIMIT,
            decreases extra - done,
        {
            proof {
                let f = pow10(done as nat);
                assert(pow10((done + 1) as nat) == 10 * f);
                assert(value * (10 * f) == 10 * (value * f)) by (nonlinear_arith);
            }
            units = units * 10;
            proof {
                assert(units == value * pow10((done + 1) as nat));
            }
            if units > UNITS_LIMIT {
                proof {
                    lemma_pow10_increases((done + 1) as nat, extra as nat);
                    let f1 = pow10((done + 1) as nat);
                    let f2 = pow10(extra as nat);
                    assert(value * f2 >= value * f1) by (nonlinear_arith)
                        requires
                            f1 <= f2,
                            value >= 1,
                    ;
                    assert(scaled_units(digits@, places as int) == value * f2);
                }
                return None;
            }
            done = done + 1;
        }
        Some(units as u64)
    }
}

/// An exponent beyond the largest magnitude gives the same number as the
/// largest one: 0, or a number out of range.
pub proof fn lemma_capped_exponent(digits: Seq<u8>, whole: int, e: int)
    requires
        all_digits(digits),
        0 <= whole <= digits.len() <= usize::MAX,
    ensures
        scaled_units(digits, whole + FRACTION_DIGITS + e) == scaled_units(
            digits,
            whole + FRACTION_DIGITS + capped(e),
        ) || (scaled_units(digits, whole + FRACTION_DIGITS + e) > UNITS_LIMIT && scaled_units(
            digits,
            whole + FRACTION_DIGITS + capped(e),
        ) > UNITS_LIMIT),
{
    let v = decimal_value(digits);
    if e > EXPONENT_CAP {
        let k1 = (whole + FRACTION_DIGITS + e - digits.len()) as nat;
        let k2 = (whole + FRACTION_DIGITS + capped(e) - digits.len()) as nat;
        lemma_pow10_twenty();
        lemma_pow10_increases(20, k1);
        lemma_pow10_increases(20, k2);
        if v == 0 {
            assert(0 * pow10(k1) == 0);
            assert(0 * pow10(k2) == 0);
        } else {
            assert(v * pow10(k1) >= pow10(k1)) by (nonlinear_arith)
                requires
                    v >= 1,
                    pow10(k1) >= 1,
            ;
            assert(v * pow10(k2) >= pow10(k2)) by (nonlinear_arith)
                requires
                    v >= 1,
                    pow10(k2) >= 1,
            ;
        }
    }
}

/// Reads the magnitude, in units, of a number without sign from `start`
/// on, where it is no more than `2^63`.
pub fn read_magnitude(bytes: &[u8], start: usize) -> (magnitude: Option<u64>)
    requires
        start <= bytes@.len(),
    ensures
        match magnitude {
            Some(units) => magnitude_value(bytes@.subrange(start as int, bytes@.len() as int)) == Some(
                units as nat,
            ) && units <= UNITS_LIMIT,
            None => match magnitude_value(bytes@.subrange(start as int, bytes@.len() as int)) {
                Some(units) => units > UNITS_LIMIT,
                None => true,
            },
        },
{
    let ghost body = bytes@.subrange(start as int, bytes@.len() as int);
    let mark = find_mark_from(bytes, start);
    proof {
        lemma_first_mark(body, mark - start);
        assert(body.subrange(0, mark - start) =~= bytes@.subrange(start as int, mark as int));
        if mark < bytes@.len() {
            assert(body.subrange(mark - start + 1, body.len() as int) =~= bytes@.subrange(
                mark + 1,
                bytes@.len() as int,
            ));
        }
    }
    let (digits, whole) = match read_mantissa(bytes, start, mark) {
        Some(mantissa) => mantissa,
        None => {
            return None;
        },
    };
    let length: usize = digits.len();
    let exponent: i128 = if mark < bytes.len() {
        match read_exponent(bytes, mark + 1, bytes.len()) {
            Some(exponent) => exponent,
            None => {
                return None;
            },
        }
    } else {
        0
    };
    let ghost true_exponent: int = if mark < bytes@.len() {
        exponent_value(bytes@.subrange(mark + 1, bytes@.len() as int)).unwrap()
    } else {
        0
    };
    proof {
        assert(exponent == capped(true_exponent));
        assert(0 <= whole <= length);
        lemma_capped_exponent(digits@, whole as int, true_exponent);
        assert(mantissa_digits(body.subrange(0, mark - start)) == Some((digits@, whole as int)));
        assert(magnitude_value(body) == Some(
            scaled_units(digits@, whole + FRACTION_DIGITS + true_exponent),
        ));
    }
    let places: i128 = whole as i128 + FRACTION_DIGITS as i128 + exponent;
    scale_digits(&digits, places)
}

/// Reads a fitness value from its text: an optional sign, digits with at
/// most one point before, between or after them, and perhaps an exponent of
/// ten after `e` or `E`. What lies beyond the fifteenth digit of the fraction
/// is rounded away.
pub fn parse_fitness(bytes: &[u8]) -> (value: Option<i64>)
    ensures
        value == fitness_value(bytes@),
{
    let negative: bool = bytes.len() > 0 && bytes[0] == 45;
    let start: usize = if bytes.len() > 0 && (bytes[0] == 45 || bytes[0] == 43) {
        1
    } else {
        0
    };
    proof {
        if start == 0 {
            assert(bytes@.subrange(0, bytes@.len() as int) =~= bytes@);
        }
    }
    let magnitude: u64 = match read_magnitude(bytes, start) {
        Some(magnitude) => magnitude,
        None => {
            return None;
        },
    };
    if negative {
        if magnitude == 0x8000_0000_0000_0000 {
            return Some(i64::MIN);
        }
        Some(-(magnitude as i64))
    } else {
        if magnitude > i64::MAX as u64 {
            return None;
        }
        Some(magnitude as i64)
    }
}

pub proof fn lemma_pow10_adds(a: nat, b: nat)
    ensures
        pow10(a) * pow10(b) == pow10(a + b),
    decreases a,
{
    if a > 0 {
        lemma_pow10_adds((a - 1) as nat, b);
        assert(10 * pow10((a - 1) as nat) * pow10(b) == 10 * (pow10((a - 1) as nat) * pow10(b))) by (nonlinear_arith);
    } else {
        assert(1 * pow10(b) == pow10(b));
    }
}

/// Appends the last `width` digits of `n`.
pub fn push_fixed(buffer: &mut Vec<u8>, n: u64, width: usize)
    ensures
        final(buffer)@ == old(buffer)@ + fixed_digits(n as nat, width as nat),
{
    let mut reversed: Vec<u8> = Vec::new();
    let mut rest: u64 = n;
    let mut left: usize = width;
    proof {
        assert(reversed@.reverse() =~= Seq::<u8>::empty());
        assert(fixed_digits(n as nat, width as nat) + Seq::<u8>::empty() =~= fixed_digits(n as nat, width as nat));
    }
    while left > 0
        invariant
            left <= width,
            fixed_digits(n as nat, width as nat) == fixed_digits(rest as nat, left as nat) + reversed@.reverse(),
        decreases left,
    {
        let ghost before = reversed@;
        reversed.push(48 + (rest % 10) as u8);
        proof {
            let digit = (48 + rest % 10) as u8;
            assert(reversed@.reverse() =~= seq![digit] + before.reverse());
            assert(fixed_digits(rest as nat, left as nat) == fixed_digits((rest / 10) as nat, (left - 1) as nat).push(
                digit,
            ));
            assert(fixed_digits((rest / 10) as nat, (left - 1) as nat).push(digit) + before.reverse()
                =~= fixed_digits((rest / 10) as nat, (left - 1) as nat) + (seq![digit] + before.reverse()));
        }
        rest = rest / 10;
        left = left - 1;
    }
    let ghost base = buffer@;
    let ghost tail = reversed@.reverse();
    let mut i: usize = reversed.len();
    proof {
        assert(fixed_digits(rest as nat, 0) =~= Seq::<u8>::empty());
        assert(tail.subrange(0, 0) =~= Seq::<u8>::empty());
        assert(base + Seq::<u8>::empty() =~= base);
    }
    while i > 0
        invariant
            i <= reversed@.len(),
            tail == reversed@.reverse(),
            buffer@ == base + tail.subrange(0, reversed@.len() - i),
        decreases i,
    {
        i = i - 1;
        buffer.push(reversed[i]);
        proof {
            assert(tail[reversed@.len() - 1 - i] == reversed@[i as int]);
            assert(buffer@ =~= base + tail.subrange(0, reversed@.len() - i));
        }
    }
    proof {
        assert(tail.subrange(0, reversed@.len() as int) =~= tail);
        assert(Seq::<u8>::empty() + tail =~= tail);
    }
}

/// Appends the last `width` digits of `n`, without the zeros at their end.
pub fn push_trimmed(buffer: &mut Vec<u8>, n: u64, width: usize)
    ensures
        final(buffer)@ == old(buffer)@ + trimmed_digits(n as nat, width as nat),
{
    let mut rest: u64 = n;
    let mut left: usize = width;
    while left > 0 && rest % 10 == 0
        invariant
            left <= width,
            trimmed_digits(n as nat, width as nat) == trimmed_digits(rest as nat, left as nat),
        decreases left,
    {
        rest = rest / 10;
        left = left - 1;
    }
    proof {
        if left == 0 {
            assert(fixed_digits(rest as nat, 0) =~= trimmed_digits(rest as nat, 0));
        }
    }
    push_fixed(buffer, rest, left);
}

/// Appends the text of a total of fitness values.
pub fn push_total(buffer: &mut Vec<u8>, value: i128)
    requires
        value > i128::MIN,
    ensures
        final(buffer)@ == old(buffer)@ + decimal_text(value as int),
{
    let magnitude: u128 = if value < 0 {
        (-value) as u128
    } else {
        value as u128
    };
    let ghost sign = if value < 0 {
        seq![45u8]
    } else {
        Seq::<u8>::empty()
    };
    if value < 0 {
        buffer.push(45);
    }
    proof {
        assert(buffer@ =~= old(buffer)@ + sign);
    }
    push_decimal(buffer, magnitude / (FITNESS_UNIT as u128));
    let fraction: u64 = (magnitude % (FITNESS_UNIT as u128)) as u64;
    if fraction != 0 {
        buffer.push(46);
        push_trimmed(buffer, fraction, FRACTION_DIGITS);
    }
    proof {
        assert(buffer@ =~= old(buffer)@ + decimal_text(value as int));
    }
}

/// Appends the text of a fitness value.
pub fn push_fitness(buffer: &mut Vec<u8>, value: i64)
    ensures
        final(buffer)@ == old(buffer)@ + fitness_text(value),
{
    push_total(buffer, value as i128);
}

/// A text made of digits holds neither a sign nor a point.
pub proof fn lemma_digits_hold_no_mark(s: Seq<u8>, mark: u8)
    requires
        all_digits(s),
        !is_digit(mark),
    ensures
        is_first_index(s, mark, s.len() as int),
{
    assert forall|j: int| 0 <= j < s.len() implies s[j] != mark by {
        assert(is_digit(s[j]));
    }
}

/// The value of digits followed by more digits.
pub proof fn lemma_decimal_value_concat(a: Seq<u8>, b: Seq<u8>)
    ensures
        decimal_value(a + b) == decimal_value(a) * pow10(b.len()) + decimal_value(b),
    decreases b.len(),
{
    if b.len() == 0 {
        assert(a + b =~= a);
        assert(decimal_value(a) * pow10(0) == decimal_value(a)) by (nonlinear_arith)
            requires
                pow10(0) == 1,
        ;
    } else {
        lemma_decimal_value_concat(a, b.drop_last());
        assert((a + b).drop_last() =~= a + b.drop_last());
        assert((a + b).last() == b.last());
        let va = decimal_value(a) as int;
        let f = pow10((b.len() - 1) as nat) as int;
        assert(pow10(b.len()) == 10 * f);
        assert(10 * (va * f) == va * (10 * f)) by (nonlinear_arith);
    }
}

/// Digits hold no exponent mark and no sign.
pub proof fn lemma_plain_text_holds_no_mark(body: Seq<u8>)
    requires
        forall|j: int| 0 <= j < body.len() ==> is_digit(#[trigger] body[j]) || body[j] == 46,
    ensures
        first_mark(body) == body.len(),
{
    assert(is_first_mark(body, body.len() as int)) by {
        assert forall|j: int| 0 <= j < body.len() implies !is_mark(#[trigger] body[j]) by {
            assert(is_digit(body[j]) || body[j] == 46);
        }
    }
    lemma_first_mark(body, body.len() as int);
}

/// The units of digits before the point and of up to fifteen digits after
/// it.
pub proof fn lemma_scaled_plain(whole: Seq<u8>, fraction: Seq<u8>)
    requires
        fraction.len() <= FRACTION_DIGITS,
    ensures
        scaled_units(whole + fraction, whole.len() + FRACTION_DIGITS) == decimal_value(whole) * pow10(15)
            + decimal_value(fraction) * pow10((FRACTION_DIGITS - fraction.len()) as nat),
{
    lemma_decimal_value_concat(whole, fraction);
    let rest = (FRACTION_DIGITS - fraction.len()) as nat;
    lemma_pow10_adds(fraction.len(), rest);
    let w = decimal_value(whole) as int;
    let f = decimal_value(fraction) as int;
    let high = pow10(fraction.len()) as int;
    let low = pow10(rest) as int;
    assert((w * high + f) * low == w * (high * low) + f * low) by (nonlinear_arith);
    assert((whole + fraction).len() == whole.len() + fraction.len());
}

/// The magnitude that digits without a point denote.
pub proof fn lemma_whole_magnitude(whole: Seq<u8>)
    requires
        all_digits(whole),
        whole.len() >= 1,
    ensures
        magnitude_value(whole) == Some(decimal_value(whole) * pow10(15)),
{
    assert forall|j: int| 0 <= j < whole.len() implies is_digit(#[trigger] whole[j]) || whole[j] == 46 by {}
    lemma_plain_text_holds_no_mark(whole);
    assert(whole.subrange(0, whole.len() as int) =~= whole);
    lemma_digits_hold_no_mark(whole, 46);
    lemma_first_index(whole, 46, whole.len() as int);
    assert(whole + Seq::<u8>::empty() =~= whole);
    assert(mantissa_digits(whole) == Some((whole, whole.len() as int)));
    lemma_scaled_plain(whole, Seq::<u8>::empty());
    assert(decimal_value(Seq::<u8>::empty()) == 0);
    assert(0 * pow10(15) == 0);
}

/// The magnitude that digits, a point and up to fifteen more digits denote.
pub proof fn lemma_pointed_magnitude(whole: Seq<u8>, fraction: Seq<u8>)
    requires
        all_digits(whole),
        all_digits(fraction),
        whole.len() >= 1,
        1 <= fraction.len() <= FRACTION_DIGITS,
    ensures
        magnitude_value(whole + seq![46u8] + fraction) == Some(
            decimal_value(whole) * pow10(15) + decimal_value(fraction) * pow10(
                (FRACTION_DIGITS - fraction.len()) as nat,
            ),
        ),
{
    let body = whole + seq![46u8] + fraction;
    let point = whole.len() as int;
    assert forall|j: int| 0 <= j < body.len() implies is_digit(#[trigger] body[j]) || body[j] == 46 by {
        if j < point {
            assert(body[j] == whole[j]);
        } else if j > point {
            assert(body[j] == fraction[j - point - 1]);
        }
    }
    lemma_plain_text_holds_no_mark(body);
    assert(body.subrange(0, body.len() as int) =~= body);
    assert(is_first_index(body, 46, point)) by {
        assert(body[point] == 46);
        assert forall|j: int| 0 <= j < point implies body[j] != 46 by {
            assert(body[j] == whole[j]);
            assert(is_digit(whole[j]));
        }
    }
    lemma_first_index(body, 46, point);
    assert(body.subrange(0, point) =~= whole);
    assert(body.subrange(point + 1, body.len() as int) =~= fraction);
    assert(mantissa_digits(body) == Some((whole + fraction, point)));
    lemma_scaled_plain(whole, fraction);
}

/// The text of a fitness value denotes that value.
pub proof fn lemma_fitness_text_round_trip(value: i64)
    ensures
        fitness_value(fitness_text(value)) == Some(value),
{
    let unit = FITNESS_UNIT as nat;
    let magnitude = if value < 0 {
        (-value) as nat
    } else {
        value as nat
    };
    let whole_number = magnitude / unit;
    let fraction = magnitude % unit;
    let whole = decimal_digits(whole_number);
    lemma_decimal_digits(whole_number);
    lemma_pow10_values();
    let text = fitness_text(value);
    let body = if fraction == 0 {
        whole
    } else {
        whole + seq![46u8] + trimmed_digits(fraction, FRACTION_DIGITS as nat)
    };
    assert(is_digit(whole[0]));
    if value < 0 {
        assert(text =~= seq![45u8] + body);
        assert(text[0] == 45);
        assert(text.subrange(1, text.len() as int) =~= body);
    } else {
        assert(text =~= body);
        assert(body[0] == whole[0]);
    }
    assert(magnitude == whole_number * unit + fraction) by {
        vstd::arithmetic::div_mod::lemma_fundamental_div_mod(magnitude as int, unit as int);
        assert(unit * whole_number == whole_number * unit) by (nonlinear_arith);
    }
    if fraction == 0 {
        lemma_whole_magnitude(whole);
    } else {
        lemma_trimmed_digits(fraction, FRACTION_DIGITS as nat);
        lemma_pointed_magnitude(whole, trimmed_digits(fraction, FRACTION_DIGITS as nat));
    }
    assert(magnitude_value(body) == Some(magnitude));
}

/// The text of a fitness value can stand as one line.
pub proof fn lemma_fitness_text_is_line(value: i64)
    ensures
        is_line(fitness_text(value)),
        fitness_text(value).len() >= 1,
{
    lemma_decimal_text_is_line(value as int);
}

/// The text of a fixed-point number can stand as one line.
pub proof fn lemma_decimal_text_is_line(value: int)
    ensures
        is_line(decimal_text(value)),
        decimal_text(value).len() >= 1,
{
    let unit = FITNESS_UNIT as nat;
    let magnitude = if value < 0 {
        (-value) as nat
    } else {
        value as nat
    };
    let whole = decimal_digits(magnitude / unit);
    let fraction = magnitude % unit;
    lemma_decimal_digits(magnitude / unit);
    lemma_pow10_values();
    let sign = if value < 0 {
        seq![45u8]
    } else {
        Seq::<u8>::empty()
    };
    let text = decimal_text(value);
    if fraction == 0 {
        assert(text =~= sign + whole);
        assert forall|j: int| 0 <= j < text.len() implies text[j] != 10 by {
            if j >= sign.len() {
                assert(text[j] == whole[j - sign.len()]);
                assert(is_digit(whole[j - sign.len()]));
            }
        }
        assert(text.last() == whole.last());
        assert(is_digit(whole[whole.len() - 1]));
    } else {
        let digits = trimmed_digits(fraction, FRACTION_DIGITS as nat);
        lemma_trimmed_digits(fraction, FRACTION_DIGITS as nat);
        assert(text =~= sign + whole + seq![46u8] + digits);
        let before = sign.len() + whole.len() + 1;
        assert forall|j: int| 0 <= j < text.len() implies text[j] != 10 by {
            if j >= before {
                assert(text[j] == digits[j - before]);
                assert(is_digit(digits[j - before]));
            } else if j >= sign.len() && j < sign.len() + whole.len() {
                assert(text[j] == whole[j - sign.len()]);
                assert(is_digit(whole[j - sign.len()]));
            }
        }
        assert(text.last() == digits.last());
        assert(is_digit(digits[digits.len() - 1]));
    }
}

/// The text of a fixed-point number is made of ASCII characters.
pub proof fn lemma_decimal_text_is_ascii(value: int)
    ensures
        forall|i: int| 0 <= i < decimal_text(value).len() ==> (#[trigger] decimal_text(value)[i]) < 128,
{
    let unit = FITNESS_UNIT as nat;
    let magnitude = if value < 0 {
        (-value) as nat
    } else {
        value as nat
    };
    let whole = decimal_digits(magnitude / unit);
    let fraction = magnitude % unit;
    lemma_decimal_digits(magnitude / unit);
    lemma_pow10_values();
    let sign = if value < 0 {
        seq![45u8]
    } else {
        Seq::<u8>::empty()
    };
    let text = decimal_text(value);
    if fraction == 0 {
        assert(text =~= sign + whole);
        assert forall|j: int| 0 <= j < text.len() implies (#[trigger] text[j]) < 128 by {
            if j >= sign.len() {
                assert(text[j] == whole[j - sign.len()]);
                assert(is_digit(whole[j - sign.len()]));
            }
        }
    } else {
        let digits = trimmed_digits(fraction, FRACTION_DIGITS as nat);
        lemma_trimmed_digits(fraction, FRACTION_DIGITS as nat);
        assert(text =~= sign + whole + seq![46u8] + digits);
        let before = sign.len() + whole.len() + 1;
        assert forall|j: int| 0 <= j < text.len() implies (#[trigger] text[j]) < 128 by {
            if j >= before {
                assert(text[j] == digits[j - before]);
                assert(is_digit(digits[j - before]));
            } else if j >= sign.len() && j < sign.len() + whole.len() {
                assert(text[j] == whole[j - sign.len()]);
                assert(is_digit(whole[j - sign.len()]));
            }
        }
    }
}

/// The text of a fixed-point number holds no space.
pub proof fn lemma_decimal_text_holds_no_space(value: int)
    ensures
        crate::problem::text::holds_no(decimal_text(value), 32),
{
    lemma_decimal_text_bytes(value);
}

/// The text of a fixed-point number is made of digits, minus signs and
/// points.
pub proof fn lemma_decimal_text_bytes(value: int)
    ensures
        forall|j: int|
            0 <= j < decimal_text(value).len() ==> is_digit(#[trigger] decimal_text(value)[j]) || decimal_text(
                value,
            )[j] == 45 || decimal_text(value)[j] == 46,
{
    let unit = FITNESS_UNIT as nat;
    let magnitude = if value < 0 {
        (-value) as nat
    } else {
        value as nat
    };
    let whole = decimal_digits(magnitude / unit);
    let fraction = magnitude % unit;
    lemma_decimal_digits(magnitude / unit);
    lemma_pow10_values();
    let sign = if value < 0 {
        seq![45u8]
    } else {
        Seq::<u8>::empty()
    };
    let text = decimal_text(value);
    if fraction == 0 {
        assert(text =~= sign + whole);
        assert forall|j: int| 0 <= j < text.len() implies is_digit(#[trigger] text[j]) || text[j] == 45 || text[j]
            == 46 by {
            if j >= sign.len() {
                assert(text[j] == whole[j - sign.len()]);
                assert(is_digit(whole[j - sign.len()]));
            }
        }
    } else {
        let digits = trimmed_digits(fraction, FRACTION_DIGITS as nat);
        lemma_trimmed_digits(fraction, FRACTION_DIGITS as nat);
        assert(text =~= sign + whole + seq![46u8] + digits);
        let before = sign.len() + whole.len() + 1;
        assert forall|j: int| 0 <= j < text.len() implies is_digit(#[trigger] text[j]) || text[j] == 45 || text[j]
            == 46 by {
            if j >= before {
                assert(text[j] == digits[j - before]);
                assert(is_digit(digits[j - before]));
            } else if j >= sign.len() && j < sign.len() + whole.len() {
                assert(text[j] == whole[j - sign.len()]);
                assert(is_digit(whole[j - sign.len()]));
            }
        }
    }
}

} // verus!
