//! The classes of subfunctions from which value tables are generated.

use vstd::prelude::*;
use vstd::arithmetic::power2::{pow2, lemma_pow2_strictly_increases, lemma2_to64};
use rand::distributions::{Distribution, Uniform};
use rand_chacha::ChaChaRng;
use crate::problem::bit_strings::{bits_of, get_possible_substrings, is_bits, power_of_two};
use crate::problem::clique_tree::InputParameters;
use crate::problem::construction::{ascending, lemma_rearranged_ascending, shuffle};
use crate::problem::fitness::FITNESS_UNIT;

verus! {

/// The class of subfunctions that gave a landscape its value tables.
/// Probabilities are fixed-point numbers in the units of fitness values.
#[derive(Debug, PartialEq, Eq, Clone, Copy, Structural)]
pub enum CodomainFunction {
    Random,
    Trap,
    DeceptiveTrap,
    NKq { q: u32 },
    NKp { p: i64 },
    /// Each clique is a deceptive trap with probability `p_deceptive`, and
    /// random otherwise.
    RandomDeceptiveTrap { p_deceptive: i64 },
    Unknown,
}

/// Draws a number below `bound` by `rand::distributions::Uniform` over the
/// range from 0 up to, but not including, `bound`, which refuses an empty
/// range. Claimed of it: the number drawn lies in that range.
#[verifier::external_body]
fn sample_below(bound: u32, rng: &mut ChaChaRng) -> (value: u32)
    requires
        bound > 0,
    ensures
        value < bound,
{
    Uniform::from(0..bound).sample(rng)
}

/// The number of positions at which two bit strings of one length differ.
pub open spec fn hamming_distance(a: Seq<u32>, b: Seq<u32>) -> nat
    decreases a.len(),
{
    if a.len() == 0 {
        0
    } else {
        hamming_distance(a.drop_last(), b.drop_last()) + if a.last() != b.last() {
            1nat
        } else {
            0nat
        }
    }
}

/// The fitness 0.9 in fixed-point units.
pub const DECEPTIVE_ATTRACTOR_VALUE: i64 = 900_000_000_000_000;

/// The value of a deceptive trap of `k` variables at the distance
/// `distance` from its deceptive attractor: 1 at the local optimum, which is
/// the inverse of the attractor, and else 0.9 less the distance times the
/// `k`-th part of 0.9.
pub open spec fn deceptive_trap_value(k: int, distance: int) -> int {
    if distance == k {
        FITNESS_UNIT as int
    } else {
        DECEPTIVE_ATTRACTOR_VALUE - distance * (DECEPTIVE_ATTRACTOR_VALUE as int / k)
    }
}

/// The value table of the deceptive trap with the given attractor.
pub open spec fn deceptive_trap_table(deceptor: Seq<u32>) -> Seq<i64> {
    Seq::new(
        pow2(deceptor.len()),
        |index: int|
            deceptive_trap_value(
                deceptor.len() as int,
                hamming_distance(deceptor, bits_of(index as nat, deceptor.len())) as int,
            ) as i64,
    )
}

/// The table is that of a deceptive trap of `k` variables.
pub open spec fn is_deceptive_trap_table(table: Seq<i64>, k: int) -> bool {
    exists|deceptor: Seq<u32>|
        deceptor.len() == k && is_bits(deceptor) && table == #[trigger] deceptive_trap_table(deceptor)
}

/// The number of positions at which two solutions differ.
pub fn get_hamming_distance_to_solution(target_solution: &Vec<u32>, solution: &Vec<u32>) -> (distance: u32)
    requires
        target_solution@.len() == solution@.len(),
        solution@.len() <= u32::MAX,
    ensures
        distance == hamming_distance(target_solution@, solution@),
        distance <= solution@.len(),
{
    let mut distance: u32 = 0;
    let mut i: usize = 0;
    proof {
        assert(target_solution@.subrange(0, 0).len() == 0);
    }
    while i < solution.len()
        invariant
            i <= solution@.len() == target_solution@.len(),
            solution@.len() <= u32::MAX,
            distance == hamming_distance(target_solution@.subrange(0, i as int), solution@.subrange(0, i as int)),
            distance <= i,
        decreases solution@.len() - i,
    {
        proof {
            let a = target_solution@.subrange(0, i + 1);
            let b = solution@.subrange(0, i + 1);
            assert(a.drop_last() =~= target_solution@.subrange(0, i as int));
            assert(b.drop_last() =~= solution@.subrange(0, i as int));
        }
        if target_solution[i] != solution[i] {
            distance = distance + 1;
        }
        i = i + 1;
    }
    proof {
        assert(target_solution@.subrange(0, i as int) =~= target_solution@);
        assert(solution@.subrange(0, i as int) =~= solution@);
    }
    distance
}

/// A random assignment to `problem_size` variables.
pub fn get_random_solution(problem_size: u32, rng: &mut ChaChaRng) -> (solution: Vec<u32>)
    ensures
        solution@.len() == problem_size,
        is_bits(solution@),
{
    let mut solution: Vec<u32> = Vec::new();
    let mut i: u32 = 0;
    while i < problem_size
        invariant
            i <= problem_size,
            solution@.len() == i,
            is_bits(solution@),
        decreases problem_size - i,
    {
        let bit = sample_below(2, rng);
        solution.push(bit);
        i = i + 1;
    }
    solution
}

/// The value table of the deceptive trap with the attractor
/// `local_deceptor`.
pub fn deceptive_trap_clique(local_deceptor: &Vec<u32>, possible_clique_substrings: &Vec<Vec<u32>>) -> (table: Vec<
    i64,
>)
    requires
        local_deceptor@.len() < 32,
        possible_clique_substrings@.len() == pow2(local_deceptor@.len()),
        forall|index: int|
            0 <= index < possible_clique_substrings@.len() ==> (#[trigger] possible_clique_substrings@[index])@
                == bits_of(index as nat, local_deceptor@.len()),
    ensures
        table@ == deceptive_trap_table(local_deceptor@),
{
    let k: u32 = local_deceptor.len() as u32;
    let count: usize = possible_clique_substrings.len();
    let mut codomain_clique: Vec<i64> = Vec::new();
    let mut j: usize = 0;
    while j < count
        invariant
            k == local_deceptor@.len(),
            k < 32,
            count == possible_clique_substrings@.len(),
            count == pow2(local_deceptor@.len()),
            forall|index: int|
                0 <= index < possible_clique_substrings@.len() ==> (#[trigger] possible_clique_substrings@[index])@
                    == bits_of(index as nat, local_deceptor@.len()),
            j <= count,
            codomain_clique@.len() == j,
            forall|index: int|
                0 <= index < j ==> #[trigger] codomain_clique@[index] == deceptive_trap_table(
                    local_deceptor@,
                )[index],
        decreases count - j,
    {
        let distance_to_deceptor = get_hamming_distance_to_solution(
            local_deceptor,
            &possible_clique_substrings[j],
        );
        let value: i64 = if distance_to_deceptor == k {
            FITNESS_UNIT
        } else {
            let step: i64 = DECEPTIVE_ATTRACTOR_VALUE / (k as i64);
            proof {
                assert(0 <= distance_to_deceptor * step <= DECEPTIVE_ATTRACTOR_VALUE) by (nonlinear_arith)
                    requires
                        0 <= distance_to_deceptor < k,
                        step == DECEPTIVE_ATTRACTOR_VALUE as int / (k as int),
                        k > 0,
                ;
            }
            DECEPTIVE_ATTRACTOR_VALUE - (distance_to_deceptor as i64) * step
        };
        codomain_clique.push(value);
        j = j + 1;
    }
    proof {
        assert(codomain_clique@ =~= deceptive_trap_table(local_deceptor@));
    }
    codomain_clique
}

/// Value tables of deceptive traps: for every clique a random attractor is
/// drawn, and the clique gets the table of the trap with that attractor.
pub fn generate_trap_general(input_parameters: &InputParameters, rng: &mut ChaChaRng) -> (codomain: Vec<
    Vec<i64>,
>)
    requires
        input_parameters.k < 32,
    ensures
        codomain@.len() == input_parameters.m,
        forall|i: int|
            0 <= i < codomain@.len() ==> is_deceptive_trap_table(
                (#[trigger] codomain@[i])@,
                input_parameters.k as int,
            ),
{
    let m: u32 = input_parameters.m;
    let k: u32 = input_parameters.k;
    let possible_clique_substrings = get_possible_substrings(k);
    let mut codomain: Vec<Vec<i64>> = Vec::new();
    let mut i: u32 = 0;
    while i < m
        invariant
            m == input_parameters.m,
            k == input_parameters.k,
            k < 32,
            possible_clique_substrings@.len() == pow2(k as nat),
            forall|index: int|
                0 <= index < possible_clique_substrings@.len() ==> (#[trigger] possible_clique_substrings@[index])@
                    == bits_of(index as nat, k as nat),
            i <= m,
            codomain@.len() == i,
            forall|e: int| 0 <= e < i ==> is_deceptive_trap_table((#[trigger] codomain@[e])@, k as int),
        decreases m - i,
    {
        let local_deceptor = get_random_solution(k, rng);
        let codomain_clique = deceptive_trap_clique(&local_deceptor, &possible_clique_substrings);
        proof {
            assert(codomain_clique@ == deceptive_trap_table(local_deceptor@));
        }
        codomain.push(codomain_clique);
        i = i + 1;
    }
    codomain
}

/// A random fitness from 0 up to, but not including, 1: one of the
/// `10^15` values of that range, made of two draws.
pub fn random_fitness(rng: &mut ChaChaRng) -> (value: i64)
    ensures
        0 <= value < FITNESS_UNIT,
{
    let high = sample_below(1_000_000_000, rng);
    let low = sample_below(1_000_000, rng);
    fitness_of_draws(high, low)
}

/// The fitness made of two draws: the first, below `10^9`, gives the nine
/// leading digits of the fraction, the second, below `10^6`, the six that
/// follow.
pub fn fitness_of_draws(high: u32, low: u32) -> (value: i64)
    requires
        high < 1_000_000_000,
        low < 1_000_000,
    ensures
        value == high * 1_000_000 + low,
        0 <= value < FITNESS_UNIT,
{
    (high as i64) * 1_000_000 + (low as i64)
}

/// The table has `size` values, all of them from 0 up to, but not
/// including, 1.
pub open spec fn is_unit_table(table: Seq<i64>, size: int) -> bool {
    &&& table.len() == size
    &&& forall|x: int| 0 <= x < size ==> 0 <= #[trigger] table[x] < FITNESS_UNIT
}

/// A table of `size` random values from 0 up to, but not including, 1.
pub fn random_clique(size: usize, rng: &mut ChaChaRng) -> (table: Vec<i64>)
    ensures
        is_unit_table(table@, size as int),
{
    let mut codomain_clique: Vec<i64> = Vec::new();
    let mut j: usize = 0;
    while j < size
        invariant
            j <= size,
            is_unit_table(codomain_clique@, j as int),
        decreases size - j,
    {
        let value = random_fitness(rng);
        codomain_clique.push(value);
        j = j + 1;
    }
    codomain_clique
}

/// Random value tables: every value is drawn from 0 up to, but not
/// including, 1.
pub fn generate_random(input_parameters: &InputParameters, rng: &mut ChaChaRng) -> (codomain: Vec<Vec<i64>>)
    requires
        input_parameters.k < 32,
    ensures
        codomain@.len() == input_parameters.m,
        forall|i: int|
            0 <= i < codomain@.len() ==> is_unit_table(
                (#[trigger] codomain@[i])@,
                pow2(input_parameters.k as nat) as int,
            ),
{
    let m: u32 = input_parameters.m;
    let size: usize = power_of_two(input_parameters.k) as usize;
    proof {
        lemma2_to64();
        lemma_pow2_strictly_increases(input_parameters.k as nat, 32);
    }
    let mut codomain_tree: Vec<Vec<i64>> = Vec::new();
    let mut i: u32 = 0;
    while i < m
        invariant
            m == input_parameters.m,
            size == pow2(input_parameters.k as nat),
            i <= m,
            codomain_tree@.len() == i,
            forall|e: int| 0 <= e < i ==> is_unit_table((#[trigger] codomain_tree@[e])@, size as int),
        decreases m - i,
    {
        let codomain_clique = random_clique(size, rng);
        codomain_tree.push(codomain_clique);
        i = i + 1;
    }
    codomain_tree
}

/// The number of ones among the `k` lowest binary digits of `index`.
pub open spec fn ones_among(k: nat, index: nat) -> nat
    decreases k,
{
    if k == 0 {
        0
    } else {
        ones_among((k - 1) as nat, index / 2) + index % 2
    }
}

/// The number of ones among the `k` lowest binary digits of `index`.
pub fn count_ones(k: u32, index: u32) -> (ones: u32)
    ensures
        ones == ones_among(k as nat, index as nat),
        ones <= k,
{
    let mut sum: u32 = 0;
    let mut rest: u32 = index;
    let mut left: u32 = k;
    while left > 0
        invariant
            left <= k,
            sum <= k - left,
            sum + ones_among(left as nat, rest as nat) == ones_among(k as nat, index as nat),
        decreases left,
    {
        sum = sum + rest % 2;
        rest = rest / 2;
        left = left - 1;
    }
    sum
}

/// The slope of the trap: `k - d` divided by `k - 1`, rounded towards 0.
pub open spec fn trap_slope(k: int, d: int) -> int {
    let base = k * FITNESS_UNIT - d;
    if base >= 0 {
        base / (k - 1)
    } else {
        -((-base) / (k - 1))
    }
}

/// The value of the trap of `k` variables with the parameter `d` at an
/// index with `ones` ones: `k` where all variables are 1, and else `k - d`
/// less `ones` times the slope.
pub open spec fn trap_value(k: int, d: int, ones: int) -> int {
    if ones == k {
        k * FITNESS_UNIT
    } else {
        (k * FITNESS_UNIT - d) - trap_slope(k, d) * ones
    }
}

/// Value tables of traps: all cliques get the same table, in which the
/// value changes with the number of ones by the slope, but is `k` where all
/// variables are 1. The value without ones, `k - d`, has to be a table value.
pub fn generate_trap(input_parameters: &InputParameters, d: i64) -> (codomain: Vec<Vec<i64>>)
    requires
        2 <= input_parameters.k < 32,
        input_parameters.k * FITNESS_UNIT - d <= i64::MAX,
    ensures
        codomain@.len() == input_parameters.m,
        forall|i: int|
            0 <= i < codomain@.len() ==> (#[trigger] codomain@[i])@.len() == pow2(input_parameters.k as nat),
        forall|i: int, x: int|
            0 <= i < codomain@.len() && 0 <= x < pow2(input_parameters.k as nat) ==> (#[trigger] codomain@[i]@[x])
                == trap_value(
                input_parameters.k as int,
                d as int,
                ones_among(input_parameters.k as nat, x as nat) as int,
            ),
{
    let m: u32 = input_parameters.m;
    let k: u32 = input_parameters.k;
    let size: u32 = power_of_two(k) as u32;
    proof {
        lemma2_to64();
        lemma_pow2_strictly_increases(k as nat, 32);
    }
    let top: i64 = (k as i64) * FITNESS_UNIT;
    let base: i128 = (top as i128) - (d as i128);
    let multiplication_factor: i128 = if base >= 0 {
        base / ((k - 1) as i128)
    } else {
        -((-base) / ((k - 1) as i128))
    };
    let mut codomain: Vec<Vec<i64>> = Vec::new();
    let mut i: u32 = 0;
    while i < m
        invariant
            m == input_parameters.m,
            k == input_parameters.k,
            2 <= k < 32,
            size == pow2(k as nat),
            top == k * FITNESS_UNIT,
            base == top - d,
            i64::MIN <= base <= i64::MAX,
            multiplication_factor == trap_slope(k as int, d as int),
            i <= m,
            codomain@.len() == i,
            forall|e: int| 0 <= e < i ==> (#[trigger] codomain@[e])@.len() == size,
            forall|e: int, x: int|
                0 <= e < i && 0 <= x < size ==> (#[trigger] codomain@[e]@[x]) == trap_value(
                    k as int,
                    d as int,
                    ones_among(k as nat, x as nat) as int,
                ),
        decreases m - i,
    {
        let mut codomain_clique: Vec<i64> = Vec::new();
        let mut x: u32 = 0;
        while x < size
            invariant
                k == input_parameters.k,
                2 <= k < 32,
                size == pow2(k as nat),
                top == k * FITNESS_UNIT,
                base == top - d,
                i64::MIN <= base <= i64::MAX,
                multiplication_factor == trap_slope(k as int, d as int),
                x <= size,
                codomain_clique@.len() == x,
                forall|e: int|
                    0 <= e < x ==> #[trigger] codomain_clique@[e] == trap_value(
                        k as int,
                        d as int,
                        ones_among(k as nat, e as nat) as int,
                    ),
            decreases size - x,
        {
            let ones = count_ones(k, x);
            if ones == k {
                codomain_clique.push(top);
            } else {
                proof {
                    lemma_slope_stays_within(base as int, k as int, ones as int);
                }
                let value: i128 = base - multiplication_factor * (ones as i128);
                codomain_clique.push(value as i64);
            }
            x = x + 1;
        }
        codomain.push(codomain_clique);
        i = i + 1;
    }
    codomain
}

/// The slope times a number of ones below `k` takes the value `k - d`
/// towards 0, and not beyond it.
pub proof fn lemma_slope_stays_within(base: int, k: int, ones: int)
    requires
        k >= 2,
        0 <= ones < k,
    ensures
        base >= 0 ==> 0 <= (base / (k - 1)) * ones <= base,
        base < 0 ==> base <= -((-base) / (k - 1)) * ones <= 0,
{
    let magnitude: int = if base >= 0 {
        base
    } else {
        -base
    };
    let quotient = magnitude / (k - 1);
    vstd::arithmetic::div_mod::lemma_fundamental_div_mod(magnitude, k - 1);
    vstd::arithmetic::div_mod::lemma_mod_bound(magnitude, k - 1);
    assert(0 <= quotient * ones <= magnitude) by (nonlinear_arith)
        requires
            magnitude == (k - 1) * quotient + magnitude % (k - 1),
            0 <= magnitude % (k - 1),
            magnitude >= 0,
            0 <= ones <= k - 1,
            quotient >= 0 || magnitude < 0,
            quotient * (k - 1) <= magnitude,
    ;
    assert(-quotient * ones == -(quotient * ones)) by (nonlinear_arith);
}

/// The value at the step `step` of the `q` values from 0 to 1 in equal
/// steps.
pub open spec fn stepped_value(step: int, q: int) -> int {
    step * (FITNESS_UNIT as int) / (q - 1)
}

/// The value is one of the `q` values from 0 to 1 in equal steps.
pub open spec fn is_stepped(value: i64, q: int) -> bool {
    exists|step: int| 0 <= step < q && value == #[trigger] stepped_value(step, q)
}

/// The table has `size` values, each of them one of the `q` values from 0
/// to 1 in equal steps.
pub open spec fn is_stepped_table(table: Seq<i64>, size: int, q: int) -> bool {
    &&& table.len() == size
    &&& forall|x: int| 0 <= x < size ==> is_stepped(#[trigger] table[x], q)
}

/// Value tables with `q` different values: every value is drawn from the
/// `q` values from 0 to 1 in equal steps.
pub fn generate_nk_q(input_parameters: &InputParameters, q: u32, rng: &mut ChaChaRng) -> (codomain: Vec<
    Vec<i64>,
>)
    requires
        input_parameters.k < 32,
        q >= 2,
    ensures
        codomain@.len() == input_parameters.m,
        forall|i: int|
            0 <= i < codomain@.len() ==> is_stepped_table(
                (#[trigger] codomain@[i])@,
                pow2(input_parameters.k as nat) as int,
                q as int,
            ),
{
    let m: u32 = input_parameters.m;
    let size: usize = power_of_two(input_parameters.k) as usize;
    proof {
        lemma2_to64();
        lemma_pow2_strictly_increases(input_parameters.k as nat, 32);
    }
    let mut codomain: Vec<Vec<i64>> = Vec::new();
    let mut i: u32 = 0;
    while i < m
        invariant
            m == input_parameters.m,
            size == pow2(input_parameters.k as nat),
            q >= 2,
            i <= m,
            codomain@.len() == i,
            forall|e: int| 0 <= e < i ==> is_stepped_table((#[trigger] codomain@[e])@, size as int, q as int),
        decreases m - i,
    {
        let mut codomain_clique: Vec<i64> = Vec::new();
        let mut x: usize = 0;
        while x < size
            invariant
                q >= 2,
                x <= size,
                is_stepped_table(codomain_clique@, x as int, q as int),
            decreases size - x,
        {
            let step = sample_below(q, rng);
            proof {
                assert(0 <= step * (FITNESS_UNIT as int) <= (q - 1) * (FITNESS_UNIT as int)) by (nonlinear_arith)
                    requires
                        0 <= step <= q - 1,
                ;
                assert((q - 1) * (FITNESS_UNIT as int) <= 0xffff_ffff * (FITNESS_UNIT as int)) by (nonlinear_arith)
                    requires
                        q - 1 <= 0xffff_ffff,
                ;
                assert(0 <= step * (FITNESS_UNIT as int) / (q - 1) <= FITNESS_UNIT) by (nonlinear_arith)
                    requires
                        0 <= step * (FITNESS_UNIT as int) <= (q - 1) * (FITNESS_UNIT as int),
                        q - 1 >= 1,
                ;
            }
            let value: i64 = (((step as i128) * (FITNESS_UNIT as i128)) / ((q - 1) as i128)) as i64;
            let ghost before = codomain_clique@;
            codomain_clique.push(value);
            proof {
                assert(value == stepped_value(step as int, q as int));
                assert forall|e: int| 0 <= e < x + 1 implies is_stepped(#[trigger] codomain_clique@[e], q as int) by {
                    if e < x {
                        assert(codomain_clique@[e] == before[e]);
                    }
                }
            }
            x = x + 1;
        }
        codomain.push(codomain_clique);
        i = i + 1;
    }
    codomain
}

/// Whether `values` holds `wanted` among its first `count` elements.
pub fn holds_among_first(values: &Vec<u32>, count: usize, wanted: u32) -> (held: bool)
    requires
        count <= values@.len(),
    ensures
        held == values@.subrange(0, count as int).contains(wanted),
{
    let ghost part = values@.subrange(0, count as int);
    let mut i: usize = 0;
    while i < count
        invariant
            i <= count <= values@.len(),
            part == values@.subrange(0, count as int),
            forall|j: int| 0 <= j < i ==> part[j] != wanted,
        decreases count - i,
    {
        if values[i] == wanted {
            proof {
                assert(part[i as int] == wanted);
            }
            return true;
        }
        i = i + 1;
    }
    false
}

/// The number of table values that are forced to 0 where the part `p` of
/// `size` values is: `p` times `size`, rounded to the nearest whole number.
pub open spec fn forced_zeros(p: int, size: int) -> int {
    (p * size + FITNESS_UNIT / 2) / (FITNESS_UNIT as int)
}

/// The table has `size` values from 0 up to, but not including, 1, and is
/// 0 at `zeros` different indices at least.
pub open spec fn is_sparse_table(table: Seq<i64>, size: int, zeros: int) -> bool {
    &&& is_unit_table(table, size)
    &&& exists|indices: Seq<u32>|
        #![trigger indices.no_duplicates()]
        indices.len() == zeros && indices.no_duplicates() && forall|j: int|
            0 <= j < zeros ==> indices[j] < size && table[indices[j] as int] == 0
}

/// Value tables in which the part `p` of the values is 0: in every clique
/// that many indices, chosen by shuffling, get the value 0, and the others a
/// random value from 0 up to, but not including, 1.
pub fn generate_nk_p(input_parameters: &InputParameters, p: i64, rng: &mut ChaChaRng) -> (codomain: Vec<
    Vec<i64>,
>)
    requires
        input_parameters.k < 32,
        0 <= p <= FITNESS_UNIT,
    ensures
        codomain@.len() == input_parameters.m,
        forall|i: int|
            0 <= i < codomain@.len() ==> is_sparse_table(
                (#[trigger] codomain@[i])@,
                pow2(input_parameters.k as nat) as int,
                forced_zeros(p as int, pow2(input_parameters.k as nat) as int),
            ),
{
    let m: u32 = input_parameters.m;
    let size: u32 = power_of_two(input_parameters.k) as u32;
    proof {
        lemma2_to64();
        lemma_pow2_strictly_increases(input_parameters.k as nat, 32);
        assert(0 <= p * size <= FITNESS_UNIT * 0x8000_0000) by (nonlinear_arith)
            requires
                0 <= p <= FITNESS_UNIT,
                0 <= size <= 0x8000_0000,
        ;
    }
    let scaled: i128 = (p as i128) * (size as i128) + (FITNESS_UNIT / 2) as i128;
    let num_zeroes: u32 = (scaled / (FITNESS_UNIT as i128)) as u32;
    proof {
        assert(num_zeroes == forced_zeros(p as int, size as int));
        assert(num_zeroes <= size) by (nonlinear_arith)
            requires
                num_zeroes == (p * size + FITNESS_UNIT / 2) / (FITNESS_UNIT as int),
                0 <= p <= FITNESS_UNIT,
                size >= 1,
                FITNESS_UNIT == 1_000_000_000_000_000,
        ;
    }
    let mut codomain_clique_indices: Vec<u32> = Vec::new();
    let mut next: u32 = 0;
    while next < size
        invariant
            next <= size,
            codomain_clique_indices@ =~= ascending(next as int),
        decreases size - next,
    {
        codomain_clique_indices.push(next);
        next = next + 1;
    }
    let ghost unshuffled = codomain_clique_indices@;
    let mut codomain: Vec<Vec<i64>> = Vec::new();
    let mut i: u32 = 0;
    while i < m
        invariant
            m == input_parameters.m,
            size == pow2(input_parameters.k as nat),
            num_zeroes <= size,
            num_zeroes == forced_zeros(p as int, size as int),
            unshuffled == ascending(size as int),
            codomain_clique_indices@.to_multiset() == unshuffled.to_multiset(),
            i <= m,
            codomain@.len() == i,
            forall|e: int|
                0 <= e < i ==> is_sparse_table((#[trigger] codomain@[e])@, size as int, num_zeroes as int),
        decreases m - i,
    {
        shuffle(&mut codomain_clique_indices, rng);
        proof {
            lemma_rearranged_ascending(codomain_clique_indices@, size as int);
        }
        let ghost zero_indices = codomain_clique_indices@.subrange(0, num_zeroes as int);
        let mut codomain_clique: Vec<i64> = Vec::new();
        let mut x: u32 = 0;
        while x < size
            invariant
                size == codomain_clique_indices@.len(),
                num_zeroes <= size,
                zero_indices == codomain_clique_indices@.subrange(0, num_zeroes as int),
                x <= size,
                is_unit_table(codomain_clique@, x as int),
                forall|e: int| 0 <= e < x && zero_indices.contains(e as u32) ==> codomain_clique@[e] == 0,
            decreases size - x,
        {
            if holds_among_first(&codomain_clique_indices, num_zeroes as usize, x) {
                codomain_clique.push(0);
            } else {
                let value = random_fitness(rng);
                codomain_clique.push(value);
            }
            x = x + 1;
        }
        proof {
            assert(zero_indices.no_duplicates());
            assert forall|j: int| 0 <= j < num_zeroes implies zero_indices[j] < size && codomain_clique@[zero_indices[j] as int]
                == 0 by {
                assert(zero_indices[j] == codomain_clique_indices@[j]);
                assert(zero_indices.contains(zero_indices[j]));
            }
        }
        codomain.push(codomain_clique);
        i = i + 1;
    }
    codomain
}

/// Value tables of which each is, with the probability `p_deceptive`, that
/// of a deceptive trap with a random attractor, and else random.
pub fn generate_random_trap(
    input_parameters: &InputParameters,
    p_deceptive: i64,
    rng: &mut ChaChaRng,
) -> (codomain: Vec<Vec<i64>>)
    requires
        input_parameters.k < 32,
    ensures
        codomain@.len() == input_parameters.m,
        forall|i: int|
            0 <= i < codomain@.len() ==> is_deceptive_trap_table(
                (#[trigger] codomain@[i])@,
                input_parameters.k as int,
            ) || is_unit_table(codomain@[i]@, pow2(input_parameters.k as nat) as int),
{
    let m: u32 = input_parameters.m;
    let k: u32 = input_parameters.k;
    let size: usize = power_of_two(k) as usize;
    proof {
        lemma2_to64();
        lemma_pow2_strictly_increases(k as nat, 32);
    }
    let possible_clique_substrings = get_possible_substrings(k);
    let mut codomain_tree: Vec<Vec<i64>> = Vec::new();
    let mut i: u32 = 0;
    while i < m
        invariant
            m == input_parameters.m,
            k == input_parameters.k,
            k < 32,
            size == pow2(k as nat),
            possible_clique_substrings@.len() == pow2(k as nat),
            forall|index: int|
                0 <= index < possible_clique_substrings@.len() ==> (#[trigger] possible_clique_substrings@[index])@
                    == bits_of(index as nat, k as nat),
            i <= m,
            codomain_tree@.len() == i,
            forall|e: int|
                0 <= e < i ==> is_deceptive_trap_table((#[trigger] codomain_tree@[e])@, k as int)
                    || is_unit_table(codomain_tree@[e]@, size as int),
        decreases m - i,
    {
        let draw = random_fitness(rng);
        if draw > p_deceptive {
            let codomain_clique = random_clique(size, rng);
            codomain_tree.push(codomain_clique);
        } else {
            let local_deceptor = get_random_solution(k, rng);
            let codomain_clique = deceptive_trap_clique(&local_deceptor, &possible_clique_substrings);
            proof {
                assert(codomain_clique@ == deceptive_trap_table(local_deceptor@));
            }
            codomain_tree.push(codomain_clique);
        }
        i = i + 1;
    }
    codomain_tree
}

} // verus!
