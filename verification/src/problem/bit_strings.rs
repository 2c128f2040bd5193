//! Bit strings and their packing into table indices.
//!
//! A bit string is a sequence of `u32` values that are 0 or 1. Its value as a
//! table index reads the first element as the most significant bit.

use vstd::prelude::*;
use vstd::arithmetic::power2::{
    pow2, lemma_pow2_pos, lemma_pow2_unfold, lemma_pow2_strictly_increases, lemma2_to64,
};
use vstd::arithmetic::div_mod::{
    lemma_div_denominator, lemma_fundamental_div_mod, lemma_fundamental_div_mod_converse,
};

verus! {

/// Every element of the sequence is 0 or 1.
pub open spec fn is_bits(s: Seq<u32>) -> bool {
    forall|i: int| 0 <= i < s.len() ==> #[trigger] s[i] <= 1
}

/// The number whose binary digits, most significant first, are `bits`.
pub open spec fn bits_value(bits: Seq<u32>) -> nat
    decreases bits.len(),
{
    if bits.len() == 0 {
        0
    } else {
        2 * bits_value(bits.drop_last()) + bits.last() as nat
    }
}

/// The digit of `x` at position `pos` of a `width`-digit binary numeral,
/// position 0 being the most significant.
pub open spec fn bit_at(x: nat, width: nat, pos: int) -> u32 {
    ((x / pow2((width - 1 - pos) as nat)) % 2) as u32
}

/// The `width` lowest binary digits of `x`, most significant first.
pub open spec fn bits_of(x: nat, width: nat) -> Seq<u32> {
    Seq::new(width, |pos: int| bit_at(x, width, pos))
}

/// The elements of `values` at the positions listed in `positions`.
pub open spec fn gather(values: Seq<u32>, positions: Seq<u32>) -> Seq<u32> {
    Seq::new(positions.len(), |j: int| values[positions[j] as int])
}

/// The elements of `values` at the positions listed in `positions`, read as
/// a binary numeral.
pub open spec fn gathered_value(values: Seq<u32>, positions: Seq<u32>) -> nat {
    bits_value(gather(values, positions))
}

pub proof fn lemma_bits_of_is_bits(x: nat, width: nat)
    ensures
        is_bits(bits_of(x, width)),
        bits_of(x, width).len() == width,
{
}

pub proof fn lemma_bits_of_drop_last(x: nat, width: nat)
    requires
        width > 0,
    ensures
        bits_of(x, width).drop_last() =~= bits_of(x / 2, (width - 1) as nat),
        bits_of(x, width).last() == (x % 2) as u32,
{
    lemma2_to64();
    let a = bits_of(x, width).drop_last();
    let b = bits_of(x / 2, (width - 1) as nat);
    assert forall|pos: int| 0 <= pos < width - 1 implies a[pos] == b[pos] by {
        let e = (width - 2 - pos) as nat;
        lemma_pow2_unfold(e + 1);
        lemma_pow2_pos(e);
        lemma_div_denominator(x as int, 2, pow2(e) as int);
        assert(a[pos] == bit_at(x, width, pos));
        assert(b[pos] == bit_at(x / 2, (width - 1) as nat, pos));
        assert((width - 1 - pos) as nat == e + 1);
        assert(pow2(e + 1) == 2 * pow2(e));
        assert(x as int / (2 * (pow2(e) as int)) == (x as int / 2) / (pow2(e) as int));
    }
    assert(bits_of(x, width).last() == bit_at(x, width, width - 1));
    assert(pow2(0) == 1);
    assert(x as int / 1 == x);
}

/// Reading back the digits of `x` gives `x` modulo `2^width`.
pub proof fn lemma_bits_value_of_bits_of(x: nat, width: nat)
    ensures
        bits_value(bits_of(x, width)) == x % pow2(width),
    decreases width,
{
    lemma2_to64();
    if width == 0 {
        assert(bits_of(x, width).len() == 0);
    } else {
        let w1 = (width - 1) as nat;
        lemma_bits_of_drop_last(x, width);
        lemma_bits_value_of_bits_of(x / 2, w1);
        lemma_pow2_unfold(width);
        lemma_pow2_pos(w1);
        let p = pow2(w1) as int;
        let h = (x / 2) as int;
        let q = h / p;
        let r = h % p;
        lemma_fundamental_div_mod(h, p);
        lemma_fundamental_div_mod(x as int, 2);
        assert(x == (2 * p) * q + (2 * r + x % 2)) by (nonlinear_arith)
            requires
                x == 2 * h + x % 2,
                h == p * q + r,
        ;
        lemma_fundamental_div_mod_converse(x as int, 2 * p, q, 2 * r + (x % 2) as int);
    }
}

/// A bit string of length `len` has a value below `2^len`.
pub proof fn lemma_bits_value_bound(bits: Seq<u32>)
    requires
        is_bits(bits),
    ensures
        bits_value(bits) < pow2(bits.len()),
    decreases bits.len(),
{
    lemma2_to64();
    if bits.len() > 0 {
        assert(is_bits(bits.drop_last()));
        lemma_bits_value_bound(bits.drop_last());
        lemma_pow2_unfold(bits.len());
    }
}

/// The digits of a bit string's value are the bit string.
pub proof fn lemma_bits_of_bits_value(bits: Seq<u32>)
    requires
        is_bits(bits),
    ensures
        bits_of(bits_value(bits), bits.len()) =~= bits,
    decreases bits.len(),
{
    if bits.len() > 0 {
        let w = bits.len();
        let init = bits.drop_last();
        let x = bits_value(bits);
        assert(is_bits(init));
        lemma_bits_of_bits_value(init);
        lemma_bits_of_drop_last(x, w);
        assert(x / 2 == bits_value(init) && x % 2 == bits.last());
        assert(bits_of(x, w).drop_last() =~= init);
        assert(bits_of(x, w).last() == bits.last());
        assert forall|pos: int| 0 <= pos < w implies bits_of(x, w)[pos] == bits[pos] by {
            if pos < w - 1 {
                assert(bits_of(x, w).drop_last()[pos] == init[pos]);
            }
        }
    }
}

/// The value of a concatenation: the first part is shifted left by the
/// length of the second.
pub proof fn lemma_bits_value_concat(a: Seq<u32>, b: Seq<u32>)
    ensures
        bits_value(a + b) == bits_value(a) * pow2(b.len()) + bits_value(b),
    decreases b.len(),
{
    lemma2_to64();
    if b.len() == 0 {
        assert(a + b =~= a);
    } else {
        lemma_bits_value_concat(a, b.drop_last());
        assert((a + b).drop_last() =~= a + b.drop_last());
        lemma_pow2_unfold(b.len());
        let va = bits_value(a) as int;
        let p = pow2((b.len() - 1) as nat) as int;
        assert(2 * (va * p) == va * (2 * p)) by (nonlinear_arith);
    }
}

/// Two bit strings of one length with the same value are equal.
pub proof fn lemma_bits_value_injective(a: Seq<u32>, b: Seq<u32>)
    requires
        is_bits(a),
        is_bits(b),
        a.len() == b.len(),
        bits_value(a) == bits_value(b),
    ensures
        a =~= b,
{
    lemma_bits_of_bits_value(a);
    lemma_bits_of_bits_value(b);
}

/// `2^exponent` as a machine integer.
pub fn power_of_two(exponent: u32) -> (result: u64)
    requires
        exponent < 64,
    ensures
        result == pow2(exponent as nat),
{
    let mut result: u64 = 1;
    let mut done: u32 = 0;
    proof {
        lemma2_to64();
    }
    while done < exponent
        invariant
            done <= exponent < 64,
            result == pow2(done as nat),
        decreases exponent - done,
    {
        proof {
            lemma_pow2_unfold((done + 1) as nat);
            if done + 1 < 63 {
                lemma_pow2_strictly_increases((done + 1) as nat, 63);
            }
            lemma2_to64_rest_63();
        }
        result = result * 2;
        done = done + 1;
    }
    result
}

proof fn lemma2_to64_rest_63()
    ensures
        pow2(63) == 0x8000000000000000,
{
    vstd::arithmetic::power2::lemma2_to64_rest();
}

/// The table index that a bit string denotes, its first element being the
/// most significant bit.
pub fn transform_substring_vector_to_index(substring: &[u32]) -> (index: u32)
    requires
        substring@.len() <= 32,
        is_bits(substring@),
    ensures
        index == bits_value(substring@),
{
    let mut sum: u32 = 0;
    let mut i: usize = 0;
    proof {
        lemma2_to64();
        assert(substring@.subrange(0, 0).len() == 0);
    }
    while i < substring.len()
        invariant
            i <= substring@.len() <= 32,
            is_bits(substring@),
            sum == bits_value(substring@.subrange(0, i as int)),
            sum < pow2(i as nat),
        decreases substring@.len() - i,
    {
        proof {
            let next = substring@.subrange(0, i + 1);
            assert(next.drop_last() =~= substring@.subrange(0, i as int));
            assert(next.last() == substring@[i as int]);
            lemma_pow2_unfold((i + 1) as nat);
            if i < 31 {
                lemma_pow2_strictly_increases(i as nat, 31);
            }
            lemma2_to64();
            assert(sum < 0x80000000);
        }
        sum = sum * 2 + substring[i];
        i = i + 1;
    }
    proof {
        assert(substring@.subrange(0, i as int) =~= substring@);
    }
    sum
}

/// The bit string of length `length` that denotes `index`.
pub fn index_to_substring(index: u32, length: u32) -> (substring: Vec<u32>)
    requires
        length <= 32,
    ensures
        substring@ == bits_of(index as nat, length as nat),
{
    let mut reversed: Vec<u32> = Vec::new();
    let mut rest: u32 = index;
    let mut taken: u32 = 0;
    proof {
        lemma2_to64();
    }
    // Collect the digits from the least significant end.
    while taken < length
        invariant
            taken <= length <= 32,
            reversed@.len() == taken,
            rest == index as nat / pow2(taken as nat),
            forall|j: int|
                0 <= j < taken ==> #[trigger] reversed@[j] == bit_at(
                    index as nat,
                    length as nat,
                    length - 1 - j,
                ),
        decreases length - taken,
    {
        proof {
            lemma_pow2_unfold((taken + 1) as nat);
            lemma_pow2_pos(taken as nat);
            lemma_div_denominator(index as int, pow2(taken as nat) as int, 2);
            assert(pow2(taken as nat) * 2 == pow2((taken + 1) as nat));
        }
        reversed.push(rest % 2);
        rest = rest / 2;
        taken = taken + 1;
    }
    let mut substring: Vec<u32> = Vec::new();
    let mut pos: u32 = 0;
    while pos < length
        invariant
            pos <= length <= 32,
            reversed@.len() == length,
            substring@.len() == pos,
            forall|j: int|
                0 <= j < length ==> #[trigger] reversed@[j] == bit_at(
                    index as nat,
                    length as nat,
                    length - 1 - j,
                ),
            forall|j: int| 0 <= j < pos ==> #[trigger] substring@[j] == bit_at(index as nat, length as nat, j),
        decreases length - pos,
    {
        substring.push(reversed[(length - 1 - pos) as usize]);
        pos = pos + 1;
    }
    proof {
        assert(substring@ =~= bits_of(index as nat, length as nat));
    }
    substring
}

/// All bit strings of the given length, in the order of the indices that
/// they denote.
pub fn get_possible_substrings(length: u32) -> (substrings: Vec<Vec<u32>>)
    requires
        length < 32,
    ensures
        substrings@.len() == pow2(length as nat),
        forall|index: int|
            0 <= index < substrings@.len() ==> (#[trigger] substrings@[index])@ == bits_of(
                index as nat,
                length as nat,
            ),
{
    let count: u64 = power_of_two(length);
    proof {
        lemma2_to64();
        lemma_pow2_strictly_increases(length as nat, 32);
    }
    let mut substrings: Vec<Vec<u32>> = Vec::new();
    let mut index: u32 = 0;
    while (index as u64) < count
        invariant
            length < 32,
            count == pow2(length as nat),
            count < 0x100000000,
            index <= count,
            substrings@.len() == index,
            forall|x: int| 0 <= x < index ==> (#[trigger] substrings@[x])@ == bits_of(x as nat, length as nat),
        decreases count - index,
    {
        substrings.push(index_to_substring(index, length));
        index = index + 1;
    }
    substrings
}

/// A cursor over all bit strings of one length, in index order.
pub struct PossibleSubstrings {
    pub length: u32,
    pub next_index: u64,
}

impl PossibleSubstrings {
    /// The next bit string, or `None` when all `2^length` have been handed
    /// out.
    pub fn next(&mut self) -> (item: Option<Vec<u32>>)
        requires
            old(self).length < 32,
        ensures
            final(self).length == old(self).length,
            old(self).next_index < pow2(old(self).length as nat) ==> final(self).next_index == old(self).next_index + 1
                && item.is_some() && item.unwrap()@ == bits_of(old(self).next_index as nat, old(self).length as nat),
            old(self).next_index >= pow2(old(self).length as nat) ==> item.is_none()
                && final(self).next_index == old(self).next_index,
    {
        let count: u64 = power_of_two(self.length);
        proof {
            lemma2_to64();
            lemma_pow2_strictly_increases(self.length as nat, 32);
        }
        if self.next_index < count {
            let substring = index_to_substring(self.next_index as u32, self.length);
            self.next_index = self.next_index + 1;
            Some(substring)
        } else {
            None
        }
    }
}

/// A cursor that hands out all bit strings of the given length, in the order
/// of the indices that they denote.
pub fn get_possible_substrings_iter(length: u32) -> (cursor: PossibleSubstrings)
    requires
        length < 32,
    ensures
        cursor.length == length,
        cursor.next_index == 0,
{
    PossibleSubstrings { length, next_index: 0 }
}

} // verus!
