//! A probability as it is stored: the bits of the IEEE-754 double nearest to
//! `count / total`, computed and read back in integer arithmetic.

use vstd::arithmetic::div_mod::{
    lemma_fundamental_div_mod,
    lemma_fundamental_div_mod_converse_div,
    lemma_mod_bound,
};
use vstd::prelude::*;

verus! {

/// Two to the power `e`.
pub open spec fn pow2(e: nat) -> nat
    decreases e,
{
    if e == 0 {
        1
    } else {
        2 * pow2((e - 1) as nat)
    }
}

/// How often `count` must be doubled to reach `total`: the negated binary
/// exponent of `count / total`.
pub open spec fn doublings(count: nat, total: nat) -> nat
    decreases total - count,
{
    if count == 0 || count >= total {
        0
    } else if 2 * count >= total {
        1
    } else {
        1 + doublings(2 * count, total)
    }
}

/// The 53-bit significand of the double nearest to `count / total`: the
/// quotient scaled into `[2^52, 2^53)` and rounded to the nearest integer.
/// No quotient of two numbers below `2^32` lies halfway between two
/// doubles, so no tie has to be broken.
pub open spec fn significand(count: nat, total: nat) -> nat {
    (count * pow2(doublings(count, total) + 53) + total) / (2 * total)
}

/// The bits of the double nearest to `count / total`, for
/// `1 <= count <= total`: sign zero, the biased exponent in the bits from 52
/// on, and below them the significand without its leading one.
pub open spec fn probability_bits(count: nat, total: nat) -> int {
    (1022 - doublings(count, total)) * pow2(52) + significand(count, total)
}

/// Whether `bits` is the probability of some count out of `total`.
pub open spec fn is_probability(bits: int, total: nat) -> bool {
    exists|count: nat| 1 <= count <= total && #[trigger] probability_bits(count, total) == bits
}

/// The count whose probability out of `total` has the bits `bits`.
/// Meaningful when `is_probability` is true.
pub open spec fn count_of_bits(bits: int, total: nat) -> nat {
    choose|count: nat| 1 <= count <= total && #[trigger] probability_bits(count, total) == bits
}

/// The count that a significand and an exponent stand for out of `total`:
/// the double times the total, rounded to the nearest integer.
pub open spec fn rounded_count(significand: nat, shift: nat, total: nat) -> nat {
    (significand * total + pow2(shift + 51)) / pow2(shift + 52)
}

/// The powers of two that bound the parts of a double.
pub proof fn lemma_pow2_values()
    ensures
        pow2(0) == 1,
        pow2(32) == 0x1_0000_0000,
        pow2(33) == 0x2_0000_0000,
        pow2(51) == 0x8_0000_0000_0000,
        pow2(52) == 0x10_0000_0000_0000,
        pow2(53) == 0x20_0000_0000_0000,
{
    reveal_with_fuel(pow2, 54);
}

/// Powers of two multiply by adding their exponents.
pub proof fn lemma_pow2_adds(a: nat, b: nat)
    ensures
        pow2(a + b) == pow2(a) * pow2(b),
        pow2(a) >= 1,
    decreases a,
{
    if a == 0 {
        assert(pow2(0 + b) == 1 * pow2(b));
    } else {
        lemma_pow2_adds((a - 1) as nat, b);
        assert(pow2(a + b) == 2 * pow2((a - 1 + b) as nat));
        assert(2 * (pow2((a - 1) as nat) * pow2(b)) == (2 * pow2((a - 1) as nat)) * pow2(b))
            by (nonlinear_arith);
    }
}

/// A greater exponent gives no smaller power of two.
pub proof fn lemma_pow2_monotonic(a: nat, b: nat)
    requires
        a <= b,
    ensures
        pow2(a) <= pow2(b),
    decreases b,
{
    if a < b {
        lemma_pow2_monotonic(a, (b - 1) as nat);
    }
}

/// Doubling `count` as often as `doublings` says lands in `[total, 2 * total)`.
pub proof fn lemma_doublings(count: nat, total: nat)
    requires
        1 <= count <= total,
    ensures
        total <= count * pow2(doublings(count, total)) < 2 * total,
        total < pow2(32) ==> doublings(count, total) <= 32,
    decreases total - count,
{
    let s = doublings(count, total);
    if count >= total {
        assert(count * pow2(0) == count) by (nonlinear_arith)
            requires
                pow2(0) == 1,
        ;
    } else if 2 * count >= total {
        assert(s == 1);
        assert(pow2(1) == 2) by {
            reveal_with_fuel(pow2, 2);
        }
        assert(count * 2 == 2 * count);
    } else {
        lemma_doublings(2 * count, total);
        let inner = doublings(2 * count, total);
        assert(count * pow2(inner + 1) == (2 * count) * pow2(inner)) by (nonlinear_arith)
            requires
                pow2(inner + 1) == 2 * pow2(inner),
        ;
    }
    if total < pow2(32) && s > 32 {
        lemma_pow2_monotonic(33, s);
        lemma_pow2_values();
        assert(count * pow2(s) >= pow2(s)) by (nonlinear_arith)
            requires
                count >= 1,
        ;
    }
}

/// A quotient is `q` exactly when the dividend lies in the `q`-th block of
/// the divisor.
pub proof fn lemma_quotient_is(a: int, d: int, q: int)
    requires
        d > 0,
        q * d <= a < q * d + d,
    ensures
        a / d == q,
{
    lemma_fundamental_div_mod_converse_div(a, d, q, a - q * d);
    assert(d * q == q * d) by (nonlinear_arith);
}

/// The block of the divisor in which a dividend lies.
pub proof fn lemma_quotient_block(a: int, d: int)
    requires
        d > 0,
    ensures
        (a / d) * d <= a < (a / d) * d + d,
{
    lemma_fundamental_div_mod(a, d);
    lemma_mod_bound(a, d);
    assert(d * (a / d) == (a / d) * d) by (nonlinear_arith);
}

/// The shape of a probability: the significand has its leading one at bit
/// 52, so the exponent and the significand can be read off the bits, and the
/// count is the double times the total, rounded.
pub proof fn lemma_probability_shape(count: nat, total: nat)
    requires
        1 <= count <= total,
        total < pow2(32),
    ensures
        doublings(count, total) <= 32,
        pow2(52) <= significand(count, total) < pow2(53),
        probability_bits(count, total) / (pow2(52) as int) == 1023 - doublings(count, total),
        probability_bits(count, total) % (pow2(52) as int) == significand(count, total) - pow2(52),
        rounded_count(significand(count, total), doublings(count, total), total) == count,
        probability_bits(count, total) < 0x4000_0000_0000_0000,
{
    let s = doublings(count, total);
    let m = significand(count, total);
    let scaled = count * pow2(s);
    lemma_doublings(count, total);
    lemma_pow2_values();
    lemma_pow2_adds(s, 53);
    lemma_pow2_adds(s, 52);
    lemma_pow2_adds(s, 51);
    let p52 = pow2(52) as int;
    let p53 = pow2(53) as int;
    let t = total as int;
    let numerator = count * pow2(s + 53) + total;
    assert(count * pow2(s + 53) == scaled * p53) by (nonlinear_arith)
        requires
            pow2(s + 53) == pow2(s) * pow2(53),
            scaled == count * pow2(s),
            p53 == pow2(53),
    ;
    lemma_quotient_block(numerator as int, 2 * t);
    assert(p52 * (2 * t) <= scaled * p53 + t) by (nonlinear_arith)
        requires
            t <= scaled,
            p53 == 2 * p52,
            p52 >= 0,
            t >= 0,
    ;
    assert(scaled * p53 + t < p53 * (2 * t)) by (nonlinear_arith)
        requires
            scaled <= 2 * t - 1,
            t < p53,
            p53 > 0,
    ;
    assert(p52 <= m) by (nonlinear_arith)
        requires
            p52 * (2 * t) <= numerator,
            numerator < m * (2 * t) + 2 * t,
            t >= 1,
    ;
    assert(m < p53) by (nonlinear_arith)
        requires
            m * (2 * t) <= numerator,
            numerator < p53 * (2 * t),
            t >= 1,
    ;
    // Reading the exponent and the significand off the bits.
    let bits = probability_bits(count, total);
    assert(bits == (1023 - s) * p52 + (m - p52)) by (nonlinear_arith)
        requires
            bits == (1022 - s) * p52 + m,
    ;
    lemma_quotient_is(bits, p52, 1023 - s);
    lemma_fundamental_div_mod(bits, p52);
    assert(p52 * (1023 - s) == (1023 - s) * p52) by (nonlinear_arith);
    assert(bits < 0x4000_0000_0000_0000) by (nonlinear_arith)
        requires
            bits == (1023 - s) * p52 + (m - p52),
            m - p52 < p52,
            0 <= s,
            p52 == 0x10_0000_0000_0000,
    ;
    // The rounding back to the count.
    let whole = pow2(s + 52) as int;
    let half = pow2(s + 51) as int;
    assert(whole == 2 * half);
    assert(whole >= p52) by (nonlinear_arith)
        requires
            whole == pow2(s) * p52,
            pow2(s) >= 1,
            p52 >= 0,
    ;
    let x = m * t;
    let y = count * whole;
    assert(2 * y == scaled * p53) by (nonlinear_arith)
        requires
            y == count * whole,
            whole == pow2(s) * p52,
            scaled == count * pow2(s),
            p53 == 2 * p52,
    ;
    assert(m * (2 * t) == 2 * x) by (nonlinear_arith)
        requires
            x == m * t,
    ;
    assert(y <= x + half < y + whole);
    lemma_quotient_is(x + half, whole, count as int);
}

/// The probability of the whole is one: the double 1.0.
pub proof fn lemma_probability_one(total: nat)
    requires
        total >= 1,
    ensures
        probability_bits(total, total) == 0x3FF0_0000_0000_0000,
{
    lemma_pow2_values();
    let t = total as int;
    assert(doublings(total, total) == 0);
    assert(pow2(53) == 0x20_0000_0000_0000);
    assert(0x10_0000_0000_0000 * (2 * t) <= t * 0x20_0000_0000_0000 + t < 0x10_0000_0000_0000
        * (2 * t) + 2 * t) by (nonlinear_arith)
        requires
            t >= 1,
    ;
    lemma_quotient_is(t * 0x20_0000_0000_0000 + t, 2 * t, 0x10_0000_0000_0000);
    assert(total * pow2(53) == t * 0x20_0000_0000_0000);
}

/// Two counts with the same probability out of one total are the same count.
pub proof fn lemma_probability_injective(a: nat, b: nat, total: nat)
    requires
        1 <= a <= total,
        1 <= b <= total,
        total < pow2(32),
        probability_bits(a, total) == probability_bits(b, total),
    ensures
        a == b,
{
    lemma_probability_shape(a, total);
    lemma_probability_shape(b, total);
}

/// The count of a probability is the count that it was computed from.
pub proof fn lemma_count_of_bits(count: nat, total: nat)
    requires
        1 <= count <= total,
        total < pow2(32),
    ensures
        is_probability(probability_bits(count, total), total),
        count_of_bits(probability_bits(count, total), total) == count,
{
    let bits = probability_bits(count, total);
    let found = count_of_bits(bits, total);
    lemma_probability_injective(count, found, total);
}

/// The bits of the double nearest to `count / total`.
pub fn probability_of(count: u32, total: u32) -> (bits: u64)
    requires
        1 <= count <= total,
    ensures
        bits == probability_bits(count as nat, total as nat),
{
    let mut scaled: u64 = count as u64;
    let mut shift: u64 = 0;
    proof {
        lemma_pow2_values();
        lemma_probability_shape(count as nat, total as nat);
        assert(count * pow2(0) == count) by (nonlinear_arith)
            requires
                pow2(0) == 1,
        ;
    }
    while scaled < total as u64
        invariant
            1 <= scaled < 2 * total,
            shift <= doublings(count as nat, total as nat) <= 32,
            scaled == count * pow2(shift as nat),
            doublings(count as nat, total as nat) == shift + doublings(scaled as nat, total as nat),
        decreases 2 * total - scaled,
    {
        proof {
            assert(count * pow2(shift as nat + 1) == 2 * (count * pow2(shift as nat)))
                by (nonlinear_arith)
                requires
                    pow2(shift as nat + 1) == 2 * pow2(shift as nat),
            ;
        }
        scaled = 2 * scaled;
        shift = shift + 1;
    }
    proof {
        let s = shift as nat;
        lemma_pow2_adds(s, 53);
        assert(count * pow2(s + 53) == scaled * 0x20_0000_0000_0000) by (nonlinear_arith)
            requires
                pow2(s + 53) == pow2(s) * 0x20_0000_0000_0000,
                scaled == count * pow2(s),
        ;
    }
    let numerator: u128 = (scaled as u128) * 0x20_0000_0000_0000u128 + total as u128;
    let significand: u64 = (numerator / (2 * (total as u128))) as u64;
    (1022 - shift) * 0x10_0000_0000_0000u64 + significand
}

/// Reads a probability back: the count out of `total` that has these bits,
/// or nothing when no count has them.
pub fn count_from_bits(bits: u64, total: u32) -> (result: Option<u32>)
    ensures
        result is Some <==> is_probability(bits as int, total as nat),
        result is Some ==> {
            &&& result->Some_0 == count_of_bits(bits as int, total as nat)
            &&& 1 <= result->Some_0 <= total
            &&& probability_bits(result->Some_0 as nat, total as nat) == bits
        },
{
    proof {
        lemma_pow2_values();
        if is_probability(bits as int, total as nat) {
            let c = count_of_bits(bits as int, total as nat);
            lemma_probability_shape(c, total as nat);
        }
    }
    if total == 0 {
        return None;
    }
    let exponent: u64 = bits / 0x10_0000_0000_0000u64;
    if exponent > 1023 || exponent < 991 {
        return None;
    }
    let shift: u64 = 1023 - exponent;
    let significand: u64 = 0x10_0000_0000_0000u64 + bits % 0x10_0000_0000_0000u64;
    let mut scale: u64 = 1;
    let mut done: u64 = 0;
    while done < shift
        invariant
            done <= shift <= 32,
            scale == pow2(done as nat),
            scale <= 0x1_0000_0000,
        decreases shift - done,
    {
        proof {
            lemma_pow2_monotonic(done as nat + 1, 32);
            lemma_pow2_values();
        }
        scale = 2 * scale;
        done = done + 1;
    }
    proof {
        lemma_pow2_adds(shift as nat, 51);
        lemma_pow2_adds(shift as nat, 52);
        assert(significand * total <= 0x20_0000_0000_0000 * 0x1_0000_0000) by (nonlinear_arith)
            requires
                significand <= 0x20_0000_0000_0000,
                total <= 0x1_0000_0000,
        ;
        assert(scale * 0x8_0000_0000_0000 <= 0x1_0000_0000 * 0x8_0000_0000_0000)
            by (nonlinear_arith)
            requires
                scale <= 0x1_0000_0000,
        ;
    }
    let half: u128 = (scale as u128) * 0x8_0000_0000_0000u128;
    let whole: u128 = 2 * half;
    let product: u128 = (significand as u128) * (total as u128);
    let candidate: u128 = (product + half) / whole;
    proof {
        assert(candidate == rounded_count(significand as nat, shift as nat, total as nat));
    }
    if candidate < 1 || candidate > total as u128 {
        return None;
    }
    let count: u32 = candidate as u32;
    if probability_of(count, total) != bits {
        return None;
    }
    proof {
        lemma_count_of_bits(count as nat, total as nat);
    }
    Some(count)
}

} // verus!
