//! Rounding a decimal to the nearest binary64 number.
//!
//! A positive decimal `n / 10^p` lies in one binade: there is a least
//! exponent `e`, not below the one of the subnormal numbers, for which
//! the decimal divided by `2^e` is below `2^53`. The whole part of that
//! quotient, rounded half to even by what is left over, is the
//! significand of the nearest binary64 number, and `e` is its exponent.
//! All of it is integer arithmetic on decimal digits: doubling multiplies
//! the digits by two, and halving multiplies them by five and moves the
//! decimal point one place.

use vstd::prelude::*;
use vstd::arithmetic::div_mod::lemma_fundamental_div_mod;
use vstd::arithmetic::div_mod::lemma_fundamental_div_mod_converse;
use vstd::arithmetic::power2::lemma2_to64_rest;
use vstd::arithmetic::power2::lemma_pow2;
use vstd::arithmetic::power::lemma_pow0;
use vstd::arithmetic::power::lemma_pow1;
use vstd::arithmetic::power::lemma_pow_adds;
use vstd::arithmetic::power::lemma_pow_increases;
use vstd::arithmetic::power::lemma_pow_positive;
use vstd::arithmetic::power::pow;
use crate::digits::all_digits;
use crate::digits::canonical_digits;
use crate::digits::digits_value;
use crate::digits::high_digits;
use crate::digits::lemma_pow_18;
use crate::digits::lemma_value_bound;
use crate::digits::lemma_value_canonical;
use crate::digits::lemma_value_div;
use crate::digits::lemma_value_take;
use crate::digits::low_digits_zero;
use crate::digits::mul_small;
use crate::digits::shift_up;

verus! {

/// Two to the fifty-second: the least significand of a normal number.
pub const TWO_52: u64 = 0x10_0000_0000_0000;

/// Two to the fifty-third: the bound of every significand.
pub const TWO_53: u64 = 0x20_0000_0000_0000;

/// The bit pattern of plus infinity, above that of every finite number
/// that is not below zero.
pub const INFINITY_BITS: u64 = 0x7FF0_0000_0000_0000;

/// The exponent of the subnormal numbers and of the least normal ones.
pub const LEAST_EXPONENT: i64 = -1074;

/// The first exponent that no finite number has.
pub const PAST_EXPONENT: i64 = 972;

/// Numerator of `n / 10^p / 2^e` as a fraction of natural numbers.
pub open spec fn scaled_num(n: nat, e: int) -> nat {
    if e < 0 {
        (n * pow(2, (-e) as nat)) as nat
    } else {
        n
    }
}

/// Denominator of `n / 10^p / 2^e` as a fraction of natural numbers.
pub open spec fn scaled_den(p: nat, e: int) -> nat {
    if e > 0 {
        (pow(10, p) * pow(2, e as nat)) as nat
    } else {
        pow(10, p) as nat
    }
}

/// The whole part of `n / 10^p / 2^e`.
pub open spec fn quotient(n: nat, p: nat, e: int) -> nat {
    scaled_num(n, e) / scaled_den(p, e)
}

/// The least exponent from `e` on at which the quotient is below `2^53`,
/// or the first exponent past the finite numbers where there is none.
pub open spec fn binade_from(n: nat, p: nat, e: int) -> int
    decreases PAST_EXPONENT - e,
{
    if e >= PAST_EXPONENT || quotient(n, p, e) < TWO_53 {
        e
    } else {
        binade_from(n, p, e + 1)
    }
}

/// The exponent of the binade in which `n / 10^p` lies.
pub open spec fn binade(n: nat, p: nat) -> int {
    binade_from(n, p, LEAST_EXPONENT as int)
}

/// The fraction `num / den` rounded to the nearest whole number, and to
/// the even one of the two where it lies halfway between them.
pub open spec fn round_half_even(num: nat, den: nat) -> nat {
    let q = num / den;
    let r = num % den;
    if 2 * r < den {
        q
    } else if 2 * r > den {
        q + 1
    } else if q % 2 == 0 {
        q
    } else {
        q + 1
    }
}

/// The bit pattern of the binary64 number nearest to `n / 10^p`, ties
/// going to the even significand. Where rounding leaves the finite
/// numbers, it is the pattern of plus infinity.
pub open spec fn nearest_bits(n: nat, p: nat) -> u64 {
    if n == 0 {
        0
    } else {
        let e = binade(n, p);
        if e >= PAST_EXPONENT {
            INFINITY_BITS
        } else {
            let m = round_half_even(scaled_num(n, e), scaled_den(p, e));
            let bits = (e - LEAST_EXPONENT) * TWO_52 + m;
            if bits >= INFINITY_BITS {
                INFINITY_BITS
            } else {
                bits as u64
            }
        }
    }
}

/// Both parts of the scaled fraction are natural numbers as written, and
/// the denominator is not zero.
pub proof fn lemma_scaled_parts(n: nat, p: nat, e: int)
    ensures
        scaled_den(p, e) > 0,
        e < 0 ==> scaled_num(n, e) == n * pow(2, (-e) as nat),
        e > 0 ==> scaled_den(p, e) == pow(10, p) * pow(2, e as nat),
        e <= 0 ==> scaled_den(p, e) == pow(10, p),
{
    lemma_pow_positive(10, p);
    if e > 0 {
        lemma_pow_positive(2, e as nat);
        assert(pow(10, p) * pow(2, e as nat) > 0) by (nonlinear_arith)
            requires
                pow(10, p) > 0,
                pow(2, e as nat) > 0,
        ;
    }
    if e < 0 {
        lemma_pow_positive(2, (-e) as nat);
        assert(n * pow(2, (-e) as nat) >= 0) by (nonlinear_arith)
            requires
                n >= 0,
                pow(2, (-e) as nat) > 0,
        ;
    }
}

/// Multiplying both parts of a fraction by the same number changes
/// neither its whole part nor its rounding, and multiplies what is left
/// over by that number.
pub proof fn lemma_common_factor(a: nat, b: nat, c: nat)
    requires
        b > 0,
        c > 0,
    ensures
        (a * c) / (b * c) == a / b,
        (a * c) % (b * c) == (a % b) * c,
        round_half_even(a * c, b * c) == round_half_even(a, b),
{
    let q = (a / b) as int;
    let r = (a % b) as int;
    lemma_fundamental_div_mod(a as int, b as int);
    assert(a * c == q * (b * c) + r * c) by (nonlinear_arith)
        requires
            a == b * q + r,
    ;
    assert(0 <= r * c < b * c) by (nonlinear_arith)
        requires
            0 <= r < b,
            c > 0,
    ;
    lemma_fundamental_div_mod_converse((a * c) as int, (b * c) as int, q, r * c);
    assert(2 * (r * c) < b * c <==> 2 * r < b) by (nonlinear_arith)
        requires
            c > 0,
    ;
    assert(2 * (r * c) > b * c <==> 2 * r > b) by (nonlinear_arith)
        requires
            c > 0,
    ;
}

/// Doubling a fraction doubles its whole part, and may add one.
pub proof fn lemma_double(a: nat, b: nat)
    requires
        b > 0,
    ensures
        2 * (a / b) <= (2 * a) / b <= 2 * (a / b) + 1,
{
    let q = (a / b) as int;
    let r = (a % b) as int;
    lemma_fundamental_div_mod(a as int, b as int);
    if 2 * r < b {
        assert(2 * a == (2 * q) * b + 2 * r) by (nonlinear_arith)
            requires
                a == b * q + r,
        ;
        lemma_fundamental_div_mod_converse((2 * a) as int, b as int, 2 * q, 2 * r);
    } else {
        assert(2 * a == (2 * q + 1) * b + (2 * r - b)) by (nonlinear_arith)
            requires
                a == b * q + r,
        ;
        lemma_fundamental_div_mod_converse((2 * a) as int, b as int, 2 * q + 1, 2 * r - b);
    }
}

/// Halving a fraction halves its whole part, rounding down.
pub proof fn lemma_halve(a: nat, b: nat)
    requires
        b > 0,
    ensures
        2 * (a / (2 * b)) <= a / b <= 2 * (a / (2 * b)) + 1,
{
    let q = (a / (2 * b)) as int;
    let r = (a % (2 * b)) as int;
    lemma_fundamental_div_mod(a as int, (2 * b) as int);
    if r < b {
        assert(a == (2 * q) * b + r) by (nonlinear_arith)
            requires
                a == (2 * b) * q + r,
        ;
        lemma_fundamental_div_mod_converse(a as int, b as int, 2 * q, r);
    } else {
        assert(a == (2 * q + 1) * b + (r - b)) by (nonlinear_arith)
            requires
                a == (2 * b) * q + r,
        ;
        lemma_fundamental_div_mod_converse(a as int, b as int, 2 * q + 1, r - b);
    }
}

/// One exponent lower, the quotient is twice as large, or one more.
pub proof fn lemma_quotient_step(n: nat, p: nat, e: int)
    ensures
        2 * quotient(n, p, e) <= quotient(n, p, e - 1) <= 2 * quotient(n, p, e) + 1,
{
    lemma_scaled_parts(n, p, e);
    lemma_scaled_parts(n, p, e - 1);
    if e <= 0 {
        let k = (-e) as nat;
        lemma_pow_adds(2, k, 1);
        lemma_pow1(2);
        lemma_pow0(2);
        let a = scaled_num(n, e);
        assert(scaled_num(n, e - 1) == 2 * a) by {
            if e == 0 {
                assert(pow(2, 1) == 2);
                assert(n * 2 == 2 * n);
            } else {
                assert(n * (pow(2, k) * 2) == 2 * (n * pow(2, k))) by (nonlinear_arith);
            }
        }
        lemma_double(a, scaled_den(p, e));
    } else {
        let k = (e - 1) as nat;
        lemma_pow_adds(2, k, 1);
        lemma_pow1(2);
        lemma_pow0(2);
        let b = scaled_den(p, e - 1);
        assert(scaled_den(p, e) == 2 * b) by {
            if e == 1 {
                assert(pow(10, p) * 2 == 2 * pow(10, p));
            } else {
                assert(pow(10, p) * (pow(2, k) * 2) == 2 * (pow(10, p) * pow(2, k)))
                    by (nonlinear_arith);
            }
        }
        lemma_halve(scaled_num(n, e), b);
    }
}

/// The quotient does not grow with the exponent.
pub proof fn lemma_quotient_falls(n: nat, p: nat, low: int, high: int)
    requires
        low <= high,
    ensures
        quotient(n, p, low) >= quotient(n, p, high),
    decreases high - low,
{
    if low < high {
        lemma_quotient_falls(n, p, low + 1, high);
        lemma_quotient_step(n, p, low + 1);
    }
}

/// An exponent is the binade's if the quotient is below `2^53` there, or
/// it is the one past the finite numbers, and the quotient is not below
/// `2^53` one exponent lower, unless it is the search's first.
pub proof fn lemma_binade_found(n: nat, p: nat, start: int, e: int)
    requires
        start <= e <= PAST_EXPONENT,
        e == PAST_EXPONENT || quotient(n, p, e) < TWO_53,
        e > start ==> quotient(n, p, e - 1) >= TWO_53,
    ensures
        binade_from(n, p, start) == e,
    decreases e - start,
{
    if start < e {
        lemma_quotient_falls(n, p, start, e - 1);
        lemma_binade_found(n, p, start + 1, e);
    }
}

/// What the search for the binade finds: an exponent from the start up
/// to the one past the finite numbers; unless it is that one, the
/// quotient is below `2^53` there; and unless it is the start, the
/// quotient is at least `2^53` one exponent lower, and so at least `2^52`
/// at the exponent itself.
pub proof fn lemma_binade_from(n: nat, p: nat, start: int)
    requires
        start <= PAST_EXPONENT,
    ensures
        start <= binade_from(n, p, start) <= PAST_EXPONENT,
        binade_from(n, p, start) < PAST_EXPONENT ==> quotient(n, p, binade_from(n, p, start))
            < TWO_53,
        binade_from(n, p, start) > start ==> quotient(n, p, binade_from(n, p, start) - 1)
            >= TWO_53 && quotient(n, p, binade_from(n, p, start)) >= TWO_52,
    decreases PAST_EXPONENT - start,
{
    if !(start >= PAST_EXPONENT || quotient(n, p, start) < TWO_53) {
        lemma_binade_from(n, p, start + 1);
        lemma_quotient_step(n, p, binade_from(n, p, start));
    }
}

/// Rounding moves a fraction by half a unit at most: twice the distance
/// between `num` and the rounded quotient times `den` is at most `den`.
/// The rounded quotient is the whole part of the fraction or one more.
pub proof fn lemma_round_half_even(num: nat, den: nat)
    requires
        den > 0,
    ensures
        num / den <= round_half_even(num, den) <= num / den + 1,
        2 * (num - round_half_even(num, den) * den) <= den,
        2 * (round_half_even(num, den) * den - num) <= den,
{
    let q = (num / den) as int;
    let r = (num % den) as int;
    lemma_fundamental_div_mod(num as int, den as int);
    assert(num - q * den == r) by (nonlinear_arith)
        requires
            num == den * q + r,
    ;
    assert((q + 1) * den - num == den - r) by (nonlinear_arith)
        requires
            num == den * q + r,
    ;
}

/// The distance between two numbers.
pub open spec fn apart(a: int, b: int) -> nat {
    if a >= b {
        (a - b) as nat
    } else {
        (b - a) as nat
    }
}

/// The distance between `n / 10^p` and `y * 2^x`, for an exponent `x` not
/// below the least one, in units of `1 / (10^p * 2^1074)`: in that unit
/// both numbers are whole.
pub open spec fn distance(n: nat, p: nat, y: nat, x: int) -> nat {
    apart(n * pow(2, 1074), y * pow(2, (x - LEAST_EXPONENT) as nat) * pow(10, p))
}

/// The rounded quotient is the whole number nearest to the fraction.
pub proof fn lemma_nearest_whole(num: nat, den: nat, k: nat)
    requires
        den > 0,
    ensures
        apart(num as int, (round_half_even(num, den) * den) as int) <= apart(num as int, (k * den) as int),
{
    let q = (num / den) as int;
    let r = (num % den) as int;
    let m = round_half_even(num, den) as int;
    lemma_fundamental_div_mod(num as int, den as int);
    assert(num - q * den == r) by (nonlinear_arith)
        requires
            num == den * q + r,
    ;
    assert((q + 1) * den - num == den - r) by (nonlinear_arith)
        requires
            num == den * q + r,
    ;
    if k <= q {
        assert(num - k * den >= r) by (nonlinear_arith)
            requires
                num == den * q + r,
                k <= q,
                den > 0,
        ;
    } else {
        assert(k * den - num >= den - r) by (nonlinear_arith)
            requires
                num == den * q + r,
                k >= q + 1,
                den > 0,
        ;
    }
}

/// At the exponent `e`, the distance to `k * 2^e` is the distance between
/// the scaled numerator and `k` times the scaled denominator, times a
/// power of two that depends on `e` alone.
pub proof fn lemma_distance_scaled(n: nat, p: nat, k: nat, e: int)
    requires
        LEAST_EXPONENT <= e,
    ensures
        distance(n, p, k, e) == pow(2, (if e < 0 { e - LEAST_EXPONENT } else { 1074 }) as nat)
            * apart(scaled_num(n, e) as int, (k * scaled_den(p, e)) as int),
        n * pow(2, 1074) == pow(2, (if e < 0 { e - LEAST_EXPONENT } else { 1074 }) as nat)
            * scaled_num(n, e),
        k * pow(2, (e - LEAST_EXPONENT) as nat) * pow(10, p) == pow(
            2,
            (if e < 0 { e - LEAST_EXPONENT } else { 1074 }) as nat,
        ) * (k * scaled_den(p, e)),
        pow(2, (if e < 0 { e - LEAST_EXPONENT } else { 1074 }) as nat) > 0,
{
    lemma_scaled_parts(n, p, e);
    let ten = pow(10, p);
    lemma_pow_positive(10, p);
    if e < 0 {
        let up = (e - LEAST_EXPONENT) as nat;
        let u = pow(2, up);
        let down = pow(2, (-e) as nat);
        lemma_pow_adds(2, (-e) as nat, up);
        lemma_pow_positive(2, up);
        assert(n * (down * u) == u * (n * down)) by (nonlinear_arith);
        assert(k * u * ten == u * (k * ten)) by (nonlinear_arith);
        lemma_apart_times(u, n * down, k * ten);
    } else {
        let u = pow(2, 1074);
        let w = pow(2, e as nat);
        lemma_pow_adds(2, e as nat, 1074);
        lemma_pow_positive(2, 1074);
        lemma_pow0(2);
        assert(n * u == u * n) by (nonlinear_arith);
        if e > 0 {
            assert(k * (w * u) * ten == u * (k * (ten * w))) by (nonlinear_arith);
        } else {
            assert(k * (1 * u) * ten == u * (k * ten)) by (nonlinear_arith);
        }
        lemma_apart_times(u, n as int, (k * scaled_den(p, e)) as int);
    }
}

/// Distances scale with a common factor.
proof fn lemma_apart_times(u: int, a: int, b: int)
    requires
        u > 0,
    ensures
        apart(u * a, u * b) == u * apart(a, b),
{
    if a >= b {
        assert(u * a - u * b == u * (a - b)) by (nonlinear_arith);
        assert(u * a >= u * b) by (nonlinear_arith)
            requires
                u > 0,
                a >= b,
        ;
    } else {
        assert(u * b - u * a == u * (b - a)) by (nonlinear_arith);
        assert(u * a < u * b) by (nonlinear_arith)
            requires
                u > 0,
                a < b,
        ;
    }
}

/// A number written with a higher exponent is the same number written
/// with a lower one and a significand that many times doubled.
pub proof fn lemma_distance_same(n: nat, p: nat, y: nat, x: int, e: int)
    requires
        LEAST_EXPONENT <= e <= x,
    ensures
        distance(n, p, y, x) == distance(n, p, (y * pow(2, (x - e) as nat)) as nat, e),
        y * pow(2, (x - e) as nat) >= 0,
{
    let d = pow(2, (x - e) as nat);
    let u = pow(2, (e - LEAST_EXPONENT) as nat);
    lemma_pow_adds(2, (x - e) as nat, (e - LEAST_EXPONENT) as nat);
    lemma_pow_positive(2, (x - e) as nat);
    assert(y * d >= 0) by (nonlinear_arith)
        requires
            y >= 0,
            d > 0,
    ;
    assert(y * (d * u) == (y * d) * u) by (nonlinear_arith);
}

/// No binary64 number lies nearer: with `e` the binade of `n / 10^p` and
/// `m` the rounded significand, `m * 2^e` is at most as far from
/// `n / 10^p` as `y * 2^x` is, whatever the significand `y` below `2^53`
/// and the exponent `x` not below the least one.
pub proof fn lemma_none_nearer(n: nat, p: nat, y: nat, x: int)
    requires
        n > 0,
        binade(n, p) < PAST_EXPONENT,
        y < TWO_53,
        LEAST_EXPONENT <= x,
    ensures
        distance(
            n,
            p,
            round_half_even(scaled_num(n, binade(n, p)), scaled_den(p, binade(n, p))),
            binade(n, p),
        ) <= distance(n, p, y, x),
{
    let e = binade(n, p);
    let num = scaled_num(n, e);
    let den = scaled_den(p, e);
    let m = round_half_even(num, den);
    lemma_binade_from(n, p, LEAST_EXPONENT as int);
    lemma_scaled_parts(n, p, e);
    lemma_distance_scaled(n, p, m, e);
    let u = pow(2, (if e < 0 { e - LEAST_EXPONENT } else { 1074 }) as nat);
    if x >= e {
        let k = (y * pow(2, (x - e) as nat)) as nat;
        lemma_distance_same(n, p, y, x, e);
        lemma_distance_scaled(n, p, k, e);
        lemma_nearest_whole(num, den, k);
        assert(u * apart(num as int, (m * den) as int) <= u * apart(num as int, (k * den) as int))
            by (nonlinear_arith)
            requires
                u > 0,
                apart(num as int, (m * den) as int) <= apart(num as int, (k * den) as int),
        ;
    } else {
        let q = num / den;
        lemma_distance_scaled(n, p, q, e);
        lemma_nearest_whole(num, den, q);
        assert(u * apart(num as int, (m * den) as int) <= u * apart(num as int, (q * den) as int))
            by (nonlinear_arith)
            requires
                u > 0,
                apart(num as int, (m * den) as int) <= apart(num as int, (q * den) as int),
        ;
        // y * 2^x lies below q * 2^e, which is not above the decimal
        let ten = pow(10, p);
        let low = pow(2, (x - LEAST_EXPONENT) as nat);
        let high = pow(2, (e - LEAST_EXPONENT) as nat);
        let step = pow(2, (e - x) as nat);
        lemma_pow_positive(10, p);
        lemma_pow_positive(2, (x - LEAST_EXPONENT) as nat);
        lemma_pow_adds(2, (e - x) as nat, (x - LEAST_EXPONENT) as nat);
        lemma_pow_increases(2, 1, (e - x) as nat);
        lemma_pow1(2);
        assert(y * low * ten <= q * high * ten) by (nonlinear_arith)
            requires
                y < TWO_53,
                q >= TWO_52,
                high == step * low,
                step >= 2,
                low > 0,
                ten > 0,
        ;
        lemma_fundamental_div_mod(num as int, den as int);
        assert(q * den <= num) by (nonlinear_arith)
            requires
                num == den * q + (num as int % den as int),
                0 <= num as int % den as int,
        ;
        assert(n * pow(2, 1074) >= q * high * ten) by {
            assert(u * num >= u * (q * den)) by (nonlinear_arith)
                requires
                    u > 0,
                    num >= q * den,
            ;
        }
    }
}

/// The numerator of the decimal `unscaled / 10^scale` once a negative
/// scale is multiplied in.
pub open spec fn decimal_numerator(unscaled: nat, scale: int) -> nat {
    if scale < 0 {
        (unscaled * pow(10, (-scale) as nat)) as nat
    } else {
        unscaled
    }
}

/// The number of decimal places of the decimal `unscaled / 10^scale`
/// once a negative scale is multiplied in.
pub open spec fn decimal_places(scale: int) -> nat {
    if scale > 0 {
        scale as nat
    } else {
        0
    }
}

/// The bit pattern of the binary64 number nearest to the decimal
/// `unscaled / 10^scale`, or that of plus infinity where rounding leaves
/// the finite numbers.
pub open spec fn nearest_binary64(unscaled: nat, scale: int) -> u64 {
    nearest_bits(decimal_numerator(unscaled, scale), decimal_places(scale))
}

/// How twice the remainder of a division stands to the divisor.
#[derive(Clone, Copy, Debug, PartialEq, Eq, Structural)]
pub enum Half {
    /// Less than half is left over.
    Below,
    /// Exactly half is left over.
    Exactly,
    /// More than half is left over.
    Above,
}

/// How twice `num % den` stands to `den`.
pub open spec fn half_of(num: nat, den: nat) -> Half {
    let r = num % den;
    if 2 * r < den {
        Half::Below
    } else if 2 * r == den {
        Half::Exactly
    } else {
        Half::Above
    }
}

/// The whole part of the number divided by `10^places`, or `None` where
/// it has more than sixteen digits and so is not below `2^53`.
fn whole_part(digits: &Vec<u8>, places: u64) -> (whole: Option<u64>)
    requires
        canonical_digits(digits@),
    ensures
        match whole {
            Some(q) => q == digits_value(digits@) / pow(10, places as nat) as nat,
            None => digits_value(digits@) / pow(10, places as nat) as nat >= TWO_53,
        },
{
    proof {
        lemma_value_div(digits@, places as nat);
    }
    let n = digits.len();
    if places >= n as u64 {
        return Some(0);
    }
    let place: usize = places as usize;
    if n - place > 16 {
        proof {
            let high = digits@.skip(place as int);
            assert(high.last() == digits@.last());
            assert(all_digits(high)) by {
                assert forall|k: int| 0 <= k < high.len() implies #[trigger] high[k] < 10 by {
                    assert(high[k] == digits@[k + place]);
                }
            }
            lemma_value_canonical(high);
            lemma_pow_increases(10, 16, (high.len() - 1) as nat);
            lemma_pow_18();
        }
        return None;
    }
    Some(high_digits(digits, place))
}

/// How twice what is left over, when the number is divided by
/// `10^places`, stands to `10^places`.
fn left_over(digits: &Vec<u8>, places: u64) -> (half: Half)
    requires
        all_digits(digits@),
    ensures
        half == half_of(digits_value(digits@), pow(10, places as nat) as nat),
{
    let n = digits.len();
    proof {
        lemma_value_div(digits@, places as nat);
        lemma_pow_positive(10, places as nat);
        lemma_pow0(10);
    }
    if places == 0 {
        proof {
            assert(digits@.take(0) =~= Seq::<u8>::empty());
            assert(digits_value(digits@.take(0)) == 0);
        }
        return Half::Below;
    }
    proof {
        lemma_pow_adds(10, (places - 1) as nat, 1);
        lemma_pow1(10);
        lemma_pow_positive(10, (places - 1) as nat);
    }
    if places > n as u64 {
        proof {
            lemma_value_bound(digits@);
            lemma_pow_increases(10, n as nat, (places - 1) as nat);
        }
        return Half::Below;
    }
    let place: usize = (places - 1) as usize;
    let top: u8 = digits[place];
    let rest_zero = low_digits_zero(digits, place);
    proof {
        lemma_value_take(digits@, place as int);
        let low = digits@.take(place as int);
        assert(all_digits(low)) by {
            assert forall|k: int| 0 <= k < low.len() implies #[trigger] low[k] < 10 by {
                assert(low[k] == digits@[k]);
            }
        }
        lemma_value_bound(low);
        let unit = pow(10, place as nat);
        let rest = digits_value(low) as int;
        let r = digits_value(digits@.take(places as int)) as int;
        let x = top as int;
        assert(r == rest + x * unit);
        assert(x >= 6 ==> 2 * (x * unit) >= 12 * unit) by (nonlinear_arith)
            requires
                unit > 0,
        ;
        assert(x <= 4 ==> 2 * (x * unit) <= 8 * unit) by (nonlinear_arith)
            requires
                unit > 0,
        ;
        assert(x == 5 ==> 2 * (x * unit) == 10 * unit) by (nonlinear_arith);
    }
    if top > 5 || (top == 5 && !rest_zero) {
        Half::Above
    } else if top == 5 {
        Half::Exactly
    } else {
        Half::Below
    }
}

/// Ten to the `k` is at least two to the `3k`.
proof fn lemma_ten_over_eight(k: nat)
    ensures
        pow(10, k) >= pow(2, 3 * k),
    decreases k,
{
    if k == 0 {
        lemma_pow0(10);
        lemma_pow0(2);
    } else {
        let j = (k - 1) as nat;
        lemma_ten_over_eight(j);
        lemma_pow_adds(10, j, 1);
        lemma_pow1(10);
        lemma_pow_adds(2, 3 * j, 3);
        lemma_pow1(2);
        lemma_pow_adds(2, 1, 1);
        lemma_pow_adds(2, 2, 1);
        assert(pow(2, 3) == 8);
        lemma_pow_positive(2, 3 * j);
        assert(pow(10, j) * 10 >= pow(2, 3 * j) * 8) by (nonlinear_arith)
            requires
                pow(10, j) >= pow(2, 3 * j),
                pow(2, 3 * j) > 0,
        ;
    }
}

/// Two to the fifty-third, as a power.
proof fn lemma_two_53()
    ensures
        pow(2, 53) == TWO_53,
        pow(2, 52) == TWO_52,
{
    lemma2_to64_rest();
    lemma_pow2(53);
    lemma_pow2(52);
}

/// A whole number with more than four hundred zeros behind it lies
/// beyond the finite binary64 numbers.
proof fn lemma_beyond_range(unscaled: nat, zeros: nat)
    requires
        unscaled >= 1,
        zeros > 400,
    ensures
        nearest_bits((unscaled * pow(10, zeros)) as nat, 0) == INFINITY_BITS,
{
    let n = (unscaled * pow(10, zeros)) as nat;
    lemma_ten_over_eight(zeros);
    lemma_pow_increases(2, 1024, 3 * zeros);
    lemma_pow_adds(2, 53, 971);
    lemma_two_53();
    lemma_pow_positive(2, 971);
    lemma_pow_positive(10, zeros);
    lemma_pow0(10);
    let d = pow(2, 971);
    assert(unscaled * pow(10, zeros) >= pow(10, zeros)) by (nonlinear_arith)
        requires
            unscaled >= 1,
            pow(10, zeros) > 0,
    ;
    assert(n >= TWO_53 * d);
    lemma_scaled_parts(n, 0, 971);
    assert(scaled_den(0, 971) == d) by {
        assert(1 * d == d);
    }
    let q = (n / (d as nat)) as int;
    lemma_fundamental_div_mod(n as int, d);
    assert(q >= TWO_53) by (nonlinear_arith)
        requires
            n == d * q + (n as int % d),
            0 <= n as int % d < d,
            n >= TWO_53 * d,
            d > 0,
    ;
    lemma_binade_found(n, 0, LEAST_EXPONENT as int, PAST_EXPONENT as int);
}

/// The bit pattern of the binary64 number nearest to the decimal written
/// by the digits with `scale` of them behind the point; ties go to the
/// even significand. Where rounding leaves the finite numbers, it is the
/// pattern of plus infinity.
pub fn nearest(digits: &Vec<u8>, scale: i32) -> (bits: u64)
    requires
        canonical_digits(digits@),
    ensures
        bits == nearest_binary64(digits_value(digits@), scale as int),
{
    let ghost n = decimal_numerator(digits_value(digits@), scale as int);
    let ghost p = decimal_places(scale as int);
    proof {
        lemma_value_canonical(digits@);
        lemma_pow_positive(10, (-scale) as nat);
    }
    if digits.len() == 1 && digits[0] == 0 {
        proof {
            assert(digits@ =~= seq![0u8]);
            assert(0 * pow(10, (-scale) as nat) == 0) by (nonlinear_arith);
        }
        return 0;
    }
    assert(digits_value(digits@) > 0) by {
        if digits@.len() == 1 {
            assert(digits@ =~= seq![digits@[0]]);
        }
    }
    assert(n > 0) by {
        assert(digits_value(digits@) * pow(10, (-scale) as nat) > 0) by (nonlinear_arith)
            requires
                digits_value(digits@) > 0,
                pow(10, (-scale) as nat) > 0,
        ;
    }
    if scale < -400 {
        proof {
            lemma_beyond_range(digits_value(digits@), (-scale) as nat);
        }
        return INFINITY_BITS;
    }
    // The decimal divided by `2^e` is held as the digits `w` with `t` of
    // them behind the point. Both parts of that fraction are the scaled
    // numerator and denominator at `e`, times a common factor `c`.
    let mut w: Vec<u8> = if scale < 0 {
        shift_up(digits, (-scale) as usize)
    } else {
        shift_up(digits, 0)
    };
    let mut t: u64 = if scale > 0 {
        scale as u64
    } else {
        0
    };
    let mut e: i64 = 0;
    let ghost mut c: nat = 1;
    proof {
        lemma_pow0(10);
        lemma_scaled_parts(n, p, 0);
        assert(digits_value(w@) == n * 1) by (nonlinear_arith)
            requires
                digits_value(w@) == n,
        ;
        assert(pow(10, p) == pow(10, p) * 1) by (nonlinear_arith);
    }
    // While the whole part is not below `2^53`, halve: times five, and the
    // point one place to the left.
    let mut whole = whole_part(&w, t);
    proof {
        lemma_common_factor(scaled_num(n, 0), scaled_den(p, 0), c);
    }
    while whole.is_none() || whole.unwrap() >= TWO_53
        invariant
            canonical_digits(w@),
            n == decimal_numerator(digits_value(digits@), scale as int),
            p == decimal_places(scale as int),
            n > 0,
            c > 0,
            0 <= e < PAST_EXPONENT,
            t == p + e,
            p <= i32::MAX,
            digits_value(w@) == scaled_num(n, e as int) * c,
            pow(10, t as nat) == scaled_den(p, e as int) * c,
            e > 0 ==> quotient(n, p, e - 1) >= TWO_53,
            match whole {
                Some(q) => q == quotient(n, p, e as int),
                None => quotient(n, p, e as int) >= TWO_53,
            },
        decreases PAST_EXPONENT - e,
    {
        if e == PAST_EXPONENT - 1 {
            proof {
                lemma_binade_found(n, p, LEAST_EXPONENT as int, PAST_EXPONENT as int);
            }
            return INFINITY_BITS;
        }
        let ghost num = scaled_num(n, e as int);
        let ghost den = scaled_den(p, e as int);
        proof {
            lemma_scaled_parts(n, p, e as int);
            lemma_scaled_parts(n, p, e + 1);
            lemma_pow_adds(10, t as nat, 1);
            lemma_pow1(10);
            lemma_pow_adds(2, e as nat, 1);
            lemma_pow1(2);
            lemma_pow0(2);
            assert(scaled_den(p, e + 1) == den * 2) by {
                if e > 0 {
                    assert(pow(10, p) * (pow(2, e as nat) * 2) == (pow(10, p) * pow(2, e as nat))
                        * 2) by (nonlinear_arith);
                }
            }
            assert(5 * (num * c) == num * (c * 5)) by (nonlinear_arith);
            assert((den * c) * 10 == (den * 2) * (c * 5)) by (nonlinear_arith);
        }
        mul_small(&mut w, 5);
        t = t + 1;
        e = e + 1;
        proof {
            c = c * 5;
            lemma_common_factor(scaled_num(n, e as int), scaled_den(p, e as int), c);
        }
        whole = whole_part(&w, t);
    }
    // While the whole part is below `2^52` and the exponent is not yet the
    // least one, double.
    let mut q: u64 = whole.unwrap();
    while e <= 0 && e > LEAST_EXPONENT && q < TWO_52
        invariant
            canonical_digits(w@),
            n == decimal_numerator(digits_value(digits@), scale as int),
            p == decimal_places(scale as int),
            n > 0,
            c > 0,
            LEAST_EXPONENT <= e < PAST_EXPONENT,
            digits_value(w@) == scaled_num(n, e as int) * c,
            pow(10, t as nat) == scaled_den(p, e as int) * c,
            e > 0 ==> quotient(n, p, e - 1) >= TWO_53,
            q == quotient(n, p, e as int),
            q < TWO_53,
        decreases e - LEAST_EXPONENT,
    {
        let ghost num = scaled_num(n, e as int);
        proof {
            lemma_scaled_parts(n, p, e as int);
            lemma_scaled_parts(n, p, e - 1);
            lemma_quotient_step(n, p, e as int);
            lemma_pow_adds(2, (-e) as nat, 1);
            lemma_pow1(2);
            lemma_pow0(2);
            assert(scaled_num(n, e - 1) == 2 * num) by {
                if e < 0 {
                    assert(n * (pow(2, (-e) as nat) * 2) == 2 * (n * pow(2, (-e) as nat)))
                        by (nonlinear_arith);
                }
            }
            assert(2 * (num * c) == (2 * num) * c) by (nonlinear_arith);
        }
        mul_small(&mut w, 2);
        e = e - 1;
        proof {
            lemma_common_factor(scaled_num(n, e as int), scaled_den(p, e as int), c);
        }
        match whole_part(&w, t) {
            Some(next) => {
                q = next;
            },
            None => {
                // not reached: twice a number below `2^52`, or one more,
                // is below `2^53`
                return INFINITY_BITS;
            },
        }
    }
    // Round the whole part by what is left over, and put the bits
    // together: the exponent field counts binades from the least one, and
    // a significand that reached `2^53` carries into it.
    let half = left_over(&w, t);
    proof {
        lemma_scaled_parts(n, p, e as int);
        lemma_common_factor(scaled_num(n, e as int), scaled_den(p, e as int), c);
        if e > LEAST_EXPONENT && e <= 0 {
            lemma_quotient_step(n, p, e as int);
        }
        lemma_binade_found(n, p, LEAST_EXPONENT as int, e as int);
    }
    let m: u64 = match half {
        Half::Above => q + 1,
        Half::Exactly => if q % 2 == 0 {
            q
        } else {
            q + 1
        },
        Half::Below => q,
    };
    let bits: u64 = ((e - LEAST_EXPONENT) as u64) * TWO_52 + m;
    if bits >= INFINITY_BITS {
        INFINITY_BITS
    } else {
        bits
    }
}

} // verus!
