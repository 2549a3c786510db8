//! The price codec.
//!
//! A transport price is an IEEE 754 binary64 number, handled here as its
//! 64-bit pattern. A stored price is a non-negative decimal number held
//! without rounding: an unscaled natural number in base ten, and a scale
//! that says how many of its digits stand behind the decimal point.
//!
//! Going to storage is exact: every finite binary64 number is a decimal
//! fraction, and `to_storage` writes that fraction out in full. Going back
//! rounds to the nearest binary64 number, and to plus infinity where the
//! decimal lies beyond the finite ones. A price that came from a
//! transport number therefore goes back to that very number, while a
//! decimal with more digits than a binary64 number holds, or with no
//! finite binary form at all, such as one tenth, comes back as its
//! nearest neighbour and not as itself.

use vstd::prelude::*;
use vstd::arithmetic::div_mod::lemma_fundamental_div_mod_converse;
use vstd::arithmetic::power::lemma_pow0;
use vstd::arithmetic::power::lemma_pow1;
use vstd::arithmetic::power::lemma_pow_adds;
use vstd::arithmetic::power::lemma_pow_distributes;
use vstd::arithmetic::power::lemma_pow_positive;
use vstd::arithmetic::power::pow;
use crate::digits::canonical_digits;
use crate::digits::digits_of;
use crate::digits::digits_value;
use crate::digits::lemma_value_canonical;
use crate::digits::mul_power;
use crate::nearest::INFINITY_BITS;
use crate::nearest::LEAST_EXPONENT;
use crate::nearest::PAST_EXPONENT;
use crate::nearest::TWO_52;
use crate::nearest::TWO_53;
use crate::nearest::binade;
use crate::nearest::decimal_numerator;
use crate::nearest::decimal_places;
use crate::nearest::distance;
use crate::nearest::lemma_binade_found;
use crate::nearest::lemma_binade_from;
use crate::nearest::lemma_distance_same;
use crate::nearest::lemma_none_nearer;
use crate::nearest::lemma_quotient_step;
use crate::nearest::lemma_round_half_even;
use crate::nearest::lemma_scaled_parts;
use crate::nearest::nearest;
use crate::nearest::nearest_binary64;
use crate::nearest::nearest_bits;
use crate::nearest::quotient;
use crate::nearest::round_half_even;
use crate::nearest::scaled_den;
use crate::nearest::scaled_num;

verus! {

/// Two to the fifty-second: the weight of the lowest exponent bit.
pub const HIDDEN_BIT: u64 = 0x10_0000_0000_0000;

/// The sign bit alone.
pub const SIGN_BIT: u64 = 0x8000_0000_0000_0000;

/// The exponent field with every bit set, which marks infinities and NaN.
pub const EXPONENT_ALL_ONES: u64 = 0x7FF;

/// The sign bit is set.
pub open spec fn sign_set(bits: u64) -> bool {
    bits >= SIGN_BIT
}

/// The eleven-bit exponent field.
pub open spec fn biased_exponent(bits: u64) -> int {
    (bits as int / HIDDEN_BIT as int) % 0x800
}

/// The fifty-two-bit fraction field.
pub open spec fn fraction(bits: u64) -> int {
    bits as int % HIDDEN_BIT as int
}

/// The pattern is not a number.
pub open spec fn is_nan(bits: u64) -> bool {
    biased_exponent(bits) == EXPONENT_ALL_ONES && fraction(bits) != 0
}

/// The pattern is plus or minus infinity.
pub open spec fn is_infinite(bits: u64) -> bool {
    biased_exponent(bits) == EXPONENT_ALL_ONES && fraction(bits) == 0
}

/// The pattern is plus or minus zero.
pub open spec fn is_zero(bits: u64) -> bool {
    biased_exponent(bits) == 0 && fraction(bits) == 0
}

/// The pattern is a number below zero. Minus zero is not below zero.
pub open spec fn is_negative(bits: u64) -> bool {
    sign_set(bits) && !is_nan(bits) && !is_zero(bits)
}

/// The integer `m` of a finite pattern, whose magnitude is `m * 2^e`.
pub open spec fn significand(bits: u64) -> nat {
    if biased_exponent(bits) == 0 {
        fraction(bits) as nat
    } else {
        (fraction(bits) + HIDDEN_BIT) as nat
    }
}

/// The integer `e` of a finite pattern, whose magnitude is `m * 2^e`.
pub open spec fn exponent2(bits: u64) -> int {
    if biased_exponent(bits) == 0 {
        -1074
    } else {
        biased_exponent(bits) - 1075
    }
}

/// Why a number is not a price.
#[derive(Clone, Copy, Debug, PartialEq, Eq, Structural)]
pub enum InvalidPrice {
    /// It is not a number.
    NotANumber,
    /// It is infinite.
    Infinite,
    /// It is below zero.
    Negative,
}

/// The reason a transport number is refused as a price, if it is.
pub open spec fn price_fault(bits: u64) -> Option<InvalidPrice> {
    if is_nan(bits) {
        Some(InvalidPrice::NotANumber)
    } else if is_infinite(bits) {
        Some(InvalidPrice::Infinite)
    } else if is_negative(bits) {
        Some(InvalidPrice::Negative)
    } else {
        None
    }
}

/// What a [`Decimal`] stands for: the number `unscaled / 10^scale`.
pub struct DecimalView {
    pub unscaled: nat,
    pub scale: int,
}

/// The decimal form of `m / 2^k` with the least scale: halve `m` while it
/// is even and `k` is not used up, then trade each remaining halving for
/// a factor of five and one more decimal place.
pub open spec fn binary_fraction(m: nat, k: nat) -> DecimalView
    decreases k,
{
    if k == 0 || m % 2 != 0 {
        DecimalView { unscaled: (m * pow(5, k)) as nat, scale: k as int }
    } else {
        binary_fraction(m / 2, (k - 1) as nat)
    }
}

/// The decimal that equals the magnitude of a finite transport number.
/// A normal number is written with the least scale that holds it; a
/// subnormal one, which has no hidden bit, with all of its 1074 places.
pub open spec fn exact_decimal(bits: u64) -> DecimalView {
    let m = significand(bits);
    let e = exponent2(bits);
    if m == 0 {
        DecimalView { unscaled: 0, scale: 0 }
    } else if biased_exponent(bits) == 0 {
        DecimalView { unscaled: (m * pow(5, 1074)) as nat, scale: 1074 }
    } else if e >= 0 {
        DecimalView { unscaled: (m * pow(2, e as nat)) as nat, scale: 0 }
    } else {
        binary_fraction(m, (-e) as nat)
    }
}

/// `binary_fraction(m, k)` equals `m / 2^k`: cross-multiplied,
/// `unscaled * 2^k == m * 10^scale`. Its scale is at most `k`, and it is
/// the least one: the unscaled value ends in no zero unless the scale is
/// zero or the value itself is.
pub proof fn lemma_binary_fraction_exact(m: nat, k: nat)
    ensures
        binary_fraction(m, k).unscaled * pow(2, k) == m * pow(
            10,
            binary_fraction(m, k).scale as nat,
        ),
        0 <= binary_fraction(m, k).scale <= k,
        m > 0 && binary_fraction(m, k).scale > 0 ==> binary_fraction(m, k).unscaled % 2 == 1,
    decreases k,
{
    if k == 0 || m % 2 != 0 {
        let fives = pow(5, k);
        let twos = pow(2, k);
        lemma_pow_distributes(5, 2, k);
        lemma_pow_positive(5, k);
        assert(pow(10, k) == fives * twos);
        assert((m * fives) * twos == m * (fives * twos)) by (nonlinear_arith);
        assert(m * fives >= 0) by (nonlinear_arith)
            requires
                m >= 0,
                fives > 0,
        ;
        if k > 0 {
            lemma_pow5_odd(k);
            lemma_odd_product(m as int, fives);
        }
    } else {
        let half = m / 2;
        let j = (k - 1) as nat;
        lemma_binary_fraction_exact(half, j);
        let d = binary_fraction(half, j);
        lemma_pow_adds(2, j, 1);
        lemma_pow1(2);
        let twos = pow(2, j);
        let tens = pow(10, d.scale as nat);
        assert(d.unscaled * (twos * 2) == m * tens) by (nonlinear_arith)
            requires
                d.unscaled * twos == half * tens,
                m == half * 2,
        ;
    }
}

/// Every power of five is odd.
proof fn lemma_pow5_odd(k: nat)
    ensures
        pow(5, k) % 2 == 1,
        pow(5, k) > 0,
    decreases k,
{
    lemma_pow_positive(5, k);
    if k == 0 {
        lemma_pow0(5);
    } else {
        lemma_pow5_odd((k - 1) as nat);
        lemma_pow_adds(5, (k - 1) as nat, 1);
        lemma_pow1(5);
        lemma_odd_product(pow(5, (k - 1) as nat), 5);
    }
}

/// The product of two odd numbers is odd.
proof fn lemma_odd_product(a: int, b: int)
    requires
        a >= 0,
        b >= 0,
        a % 2 == 1,
        b % 2 == 1,
    ensures
        (a * b) % 2 == 1,
{
    let x = a / 2;
    let y = b / 2;
    let q = 2 * x * y + x + y;
    assert(a * b == 2 * q + 1) by (nonlinear_arith)
        requires
            a == 2 * x + 1,
            b == 2 * y + 1,
            q == 2 * x * y + x + y,
    ;
}

/// The stored decimal of a finite transport number equals the number:
/// with magnitude `m * 2^e`, cross-multiplied,
/// `unscaled * 2^max(-e, 0) == m * 2^max(e, 0) * 10^scale`.
pub proof fn lemma_exact_decimal(bits: u64)
    requires
        biased_exponent(bits) != EXPONENT_ALL_ONES,
    ensures
        0 <= exact_decimal(bits).scale <= 1074,
        exponent2(bits) >= 0 ==> exact_decimal(bits).scale == 0 && exact_decimal(bits).unscaled
            == significand(bits) * pow(2, exponent2(bits) as nat),
        exponent2(bits) < 0 ==> exact_decimal(bits).unscaled * pow(2, (-exponent2(bits)) as nat)
            == significand(bits) * pow(10, exact_decimal(bits).scale as nat),
{
    let m = significand(bits);
    let e = exponent2(bits);
    if m == 0 {
        lemma_pow0(10);
        assert(0 * pow(2, (-e) as nat) == 0) by (nonlinear_arith);
        if e >= 0 {
            assert(0 * pow(2, e as nat) == 0) by (nonlinear_arith);
        }
    } else if biased_exponent(bits) == 0 {
        let fives = pow(5, 1074);
        let twos = pow(2, 1074);
        lemma_pow_distributes(5, 2, 1074);
        lemma_pow_positive(5, 1074);
        assert((m * fives) * twos == m * (fives * twos)) by (nonlinear_arith);
        assert(m * fives >= 0) by (nonlinear_arith)
            requires
                m >= 0,
                fives > 0,
        ;
    } else if e >= 0 {
        lemma_pow_positive(2, e as nat);
        assert(m * pow(2, e as nat) >= 0) by (nonlinear_arith)
            requires
                m >= 0,
                pow(2, e as nat) > 0,
        ;
    } else {
        lemma_binary_fraction_exact(m, (-e) as nat);
    }
}

/// A non-negative exact decimal number.
#[derive(Debug, PartialEq, Eq)]
pub struct Decimal {
    /// Base-ten digits of the unscaled value, least significant first.
    digits: Vec<u8>,
    /// Number of digits behind the decimal point.
    scale: i32,
}

impl View for Decimal {
    type V = DecimalView;

    closed spec fn view(&self) -> DecimalView {
        DecimalView { unscaled: digits_value(self.digits@), scale: self.scale as int }
    }
}

impl Decimal {
    /// The digits are the canonical ones.
    #[verifier::type_invariant]
    spec fn canonical(&self) -> bool {
        canonical_digits(self.digits@)
    }

    /// The digits of the unscaled value, least significant first.
    pub closed spec fn digits(&self) -> Seq<u8> {
        self.digits@
    }

    /// The decimal made of canonical digits, least significant first, and
    /// a scale; `None` where the digits are not canonical.
    pub fn from_digits(digits: Vec<u8>, scale: i32) -> (made: Option<Decimal>)
        ensures
            made is Some <==> canonical_digits(digits@),
            made matches Some(d) ==> d.digits() == digits@ && d@ == (DecimalView {
                unscaled: digits_value(digits@),
                scale: scale as int,
            }),
    {
        let n = digits.len();
        if n == 0 {
            return None;
        }
        let mut i: usize = 0;
        while i < n
            invariant
                n == digits.len(),
                i <= n,
                forall|k: int| 0 <= k < i ==> #[trigger] digits@[k] < 10,
            decreases n - i,
        {
            if digits[i] >= 10 {
                return None;
            }
            i = i + 1;
        }
        if n > 1 && digits[n - 1] == 0 {
            return None;
        }
        Some(Decimal { digits, scale })
    }

    /// The digits of the unscaled value, least significant first.
    pub fn to_digits(&self) -> (digits: Vec<u8>)
        ensures
            digits@ == self.digits(),
            canonical_digits(digits@),
            digits_value(digits@) == self@.unscaled,
    {
        proof {
            use_type_invariant(self);
        }
        copy_digits(&self.digits)
    }

    /// Number of digits behind the decimal point.
    pub fn scale(&self) -> (s: i32)
        ensures
            s == self@.scale,
    {
        self.scale
    }

}

impl Clone for Decimal {
    /// An independent copy with the same digits and scale.
    fn clone(&self) -> (d: Decimal)
        ensures
            d@ == self@,
            d.digits() == self.digits(),
    {
        proof {
            use_type_invariant(self);
        }
        Decimal { digits: copy_digits(&self.digits), scale: self.scale }
    }
}

/// A copy of a digit vector.
fn copy_digits(digits: &Vec<u8>) -> (copy: Vec<u8>)
    ensures
        copy@ == digits@,
{
    let mut copy: Vec<u8> = Vec::new();
    let mut i: usize = 0;
    while i < digits.len()
        invariant
            i <= digits.len(),
            copy@ == digits@.take(i as int),
        decreases digits.len() - i,
    {
        copy.push(digits[i]);
        i = i + 1;
        assert(copy@ =~= digits@.take(i as int));
    }
    assert(copy@ =~= digits@);
    copy
}

/// Tells whether a transport number can be a price: it must be a finite
/// number that is not below zero.
pub fn check_price(bits: u64) -> (checked: Result<(), InvalidPrice>)
    ensures
        match checked {
            Ok(_) => price_fault(bits) is None,
            Err(fault) => price_fault(bits) == Some(fault),
        },
{
    let exponent: u64 = (bits / HIDDEN_BIT) % 0x800;
    let fraction: u64 = bits % HIDDEN_BIT;
    if exponent == EXPONENT_ALL_ONES {
        if fraction != 0 {
            Err(InvalidPrice::NotANumber)
        } else {
            Err(InvalidPrice::Infinite)
        }
    } else if bits >= SIGN_BIT && !(exponent == 0 && fraction == 0) {
        Err(InvalidPrice::Negative)
    } else {
        Ok(())
    }
}

/// Converts a transport number to the decimal that equals it exactly.
/// Fails where the number is no price: not a number, infinite, or below
/// zero.
pub fn to_storage(bits: u64) -> (stored: Result<Decimal, InvalidPrice>)
    ensures
        match stored {
            Ok(d) => price_fault(bits) is None && d@ == exact_decimal(bits),
            Err(fault) => price_fault(bits) == Some(fault),
        },
{
    match check_price(bits) {
        Err(fault) => {
            return Err(fault);
        },
        Ok(_) => {},
    }
    let exponent: u64 = (bits / HIDDEN_BIT) % 0x800;
    let fraction: u64 = bits % HIDDEN_BIT;
    if exponent == 0 && fraction == 0 {
        let mut digits: Vec<u8> = Vec::new();
        digits.push(0u8);
        proof {
            assert(digits@ =~= seq![0u8]);
            lemma_value_canonical(digits@);
        }
        return Ok(Decimal { digits, scale: 0 });
    }
    let m: u64 = if exponent == 0 {
        fraction
    } else {
        fraction + HIDDEN_BIT
    };
    if exponent == 0 {
        let mut digits = digits_of(m);
        mul_power(&mut digits, 5, 1074);
        Ok(Decimal { digits, scale: 1074 })
    } else if exponent >= 1075 {
        let up: u32 = (exponent - 1075) as u32;
        let mut digits = digits_of(m);
        mul_power(&mut digits, 2, up);
        Ok(Decimal { digits, scale: 0 })
    } else {
        let down: u32 = (1075 - exponent) as u32;
        let mut rest: u64 = m;
        let mut left: u32 = down;
        while left > 0 && rest % 2 == 0
            invariant
                left <= down <= 1074,
                binary_fraction(rest as nat, left as nat) == binary_fraction(
                    m as nat,
                    down as nat,
                ),
            decreases left,
        {
            rest = rest / 2;
            left = left - 1;
        }
        let mut digits = digits_of(rest);
        mul_power(&mut digits, 5, left);
        Ok(Decimal { digits, scale: left as i32 })
    }
}

/// The transport form of a stored price: the binary64 number nearest to
/// it, ties going to the even significand. A price so large that
/// rounding leaves the finite numbers has plus infinity as its transport
/// form.
pub open spec fn transport_of(price: DecimalView) -> u64 {
    nearest_binary64(price.unscaled, price.scale)
}

/// The transport number with the sign of a zero dropped: minus zero
/// becomes plus zero, and every other pattern stays.
pub open spec fn unsigned_zero(bits: u64) -> u64 {
    if bits == SIGN_BIT {
        0
    } else {
        bits
    }
}

/// To storage and back: a transport number that is a price comes back
/// from its stored decimal as the very same number, bit for bit; minus
/// zero, which is stored as zero, comes back as plus zero.
pub proof fn lemma_round_trip(bits: u64)
    requires
        price_fault(bits) is None,
    ensures
        transport_of(exact_decimal(bits)) == unsigned_zero(bits),
{
    let m0 = significand(bits);
    let e0 = exponent2(bits);
    let d = exact_decimal(bits);
    lemma_exact_decimal(bits);
    let n = decimal_numerator(d.unscaled, d.scale);
    let p = decimal_places(d.scale);
    assert(n == d.unscaled && p == d.scale);
    if m0 != 0 {
        assert(bits < SIGN_BIT);
        let num = scaled_num(n, e0);
        let den = scaled_den(p, e0);
        lemma_scaled_parts(n, p, e0);
        lemma_pow0(10);
        assert(num == m0 * den) by {
            if e0 < 0 {
                assert(num == n * pow(2, (-e0) as nat));
                assert(den == pow(10, p));
                assert(d.unscaled * pow(2, (-e0) as nat) == m0 * pow(10, d.scale as nat));
            } else if e0 == 0 {
                lemma_pow0(2);
                assert(num == n);
                assert(den == 1);
                assert(m0 * 1 == m0) by (nonlinear_arith);
            } else {
                lemma_pow_positive(2, e0 as nat);
                assert(num == n);
                assert(den == 1 * pow(2, e0 as nat));
                assert(m0 * pow(2, e0 as nat) == m0 * (1 * pow(2, e0 as nat))) by (nonlinear_arith);
            }
        }
        lemma_fundamental_div_mod_converse(num as int, den as int, m0 as int, 0);
        assert(quotient(n, p, e0) == m0);
        if e0 > LEAST_EXPONENT {
            lemma_quotient_step(n, p, e0);
        }
        lemma_binade_found(n, p, LEAST_EXPONENT as int, e0);
        assert(binade(n, p) == e0);
        assert(round_half_even(num, den) == m0);
        assert((e0 - LEAST_EXPONENT) * TWO_52 + m0 == bits);
        assert(bits < INFINITY_BITS);
        assert(n > 0) by {
            if n == 0 {
                assert(0 * pow(2, (-e0) as nat) == 0) by (nonlinear_arith);
                assert(m0 * den > 0) by (nonlinear_arith)
                    requires
                        m0 > 0,
                        den > 0,
                ;
            }
        }
        assert(nearest_bits(n, p) == bits);
    } else {
        assert(d.unscaled == 0 && d.scale == 0);
        assert(bits == 0 || bits == SIGN_BIT);
        assert(nearest_bits(n, p) == 0);
    }
}

/// What the nearest binary64 number of a decimal above zero is, read as
/// a number, where it is not infinity: it is finite and not below zero,
/// and its significand and exponent are those of the decimal's binade,
/// the significand being the decimal divided by two to that exponent and
/// rounded half to even; or, where rounding reached `2^53`, half of that
/// at the next exponent.
pub proof fn lemma_nearest_decoded(unscaled: nat, scale: int, bits: u64)
    requires
        unscaled > 0,
        nearest_binary64(unscaled, scale) == bits,
        bits != INFINITY_BITS,
    ensures
        price_fault(bits) is None,
        ({
            let n = decimal_numerator(unscaled, scale);
            let p = decimal_places(scale);
            let e = binade(n, p);
            let m = round_half_even(scaled_num(n, e), scaled_den(p, e));
            ||| exponent2(bits) == e && significand(bits) == m
            ||| exponent2(bits) == e + 1 && 2 * significand(bits) == m
        }),
{
    let n = decimal_numerator(unscaled, scale);
    let p = decimal_places(scale);
    lemma_pow_positive(10, (-scale) as nat);
    assert(n > 0) by {
        assert(unscaled * pow(10, (-scale) as nat) > 0) by (nonlinear_arith)
            requires
                unscaled > 0,
                pow(10, (-scale) as nat) > 0,
        ;
    }
    let e = binade(n, p);
    let m = round_half_even(scaled_num(n, e), scaled_den(p, e));
    lemma_binade_from(n, p, LEAST_EXPONENT as int);
    lemma_scaled_parts(n, p, e);
    lemma_round_half_even(scaled_num(n, e), scaled_den(p, e));
    let k = e - LEAST_EXPONENT;
    assert(bits == k * TWO_52 + m);
    if m < TWO_52 {
        assert(e == LEAST_EXPONENT);
    } else if m < TWO_53 {
        assert(bits == (k + 1) * TWO_52 + (m - TWO_52));
    } else {
        assert(bits == (k + 2) * TWO_52);
    }
}

/// The distance between a decimal and the magnitude of a finite transport
/// number, in units of `1 / (10^p * 2^1074)`, where `p` is the number of
/// the decimal's places. In that unit both numbers are whole.
pub open spec fn distance_to(price: DecimalView, bits: u64) -> nat {
    distance(
        decimal_numerator(price.unscaled, price.scale),
        decimal_places(price.scale),
        significand(bits),
        exponent2(bits),
    )
}

/// The transport form of a stored price is nearest to it: where it is
/// not infinity, no finite binary64 number lies nearer to the decimal.
pub proof fn lemma_transport_is_nearest(price: DecimalView, bits: u64, other: u64)
    requires
        transport_of(price) == bits,
        bits != INFINITY_BITS,
        biased_exponent(other) != EXPONENT_ALL_ONES,
    ensures
        distance_to(price, bits) <= distance_to(price, other),
{
    let n = decimal_numerator(price.unscaled, price.scale);
    let p = decimal_places(price.scale);
    if price.unscaled == 0 {
        assert(n == 0) by {
            assert(0 * pow(10, (-price.scale) as nat) == 0) by (nonlinear_arith);
        }
        assert(bits == 0);
        assert(significand(bits) == 0);
        assert(0 * pow(2, 1074) == 0) by (nonlinear_arith);
        assert(0 * pow(2, (exponent2(bits) - LEAST_EXPONENT) as nat) * pow(10, p) == 0)
            by (nonlinear_arith);
    } else {
        lemma_nearest_decoded(price.unscaled, price.scale, bits);
        lemma_pow_positive(10, (-price.scale) as nat);
        assert(n > 0) by {
            assert(price.unscaled * pow(10, (-price.scale) as nat) > 0) by (nonlinear_arith)
                requires
                    price.unscaled > 0,
                    pow(10, (-price.scale) as nat) > 0,
            ;
        }
        let e = binade(n, p);
        let m = round_half_even(scaled_num(n, e), scaled_den(p, e));
        lemma_binade_from(n, p, LEAST_EXPONENT as int);
        lemma_none_nearer(n, p, significand(other), exponent2(other));
        if exponent2(bits) != e {
            lemma_distance_same(n, p, significand(bits), e + 1, e);
            lemma_pow1(2);
        }
    }
}

/// The transport form of a stored price is a finite number that is not
/// below zero, or plus infinity; and it is plus infinity only where the
/// price is at least the largest finite binary64 number, `(2^53 - 1) *
/// 2^971`: that is, where the price divided by `2^971` has a whole part
/// of `2^53 - 1` or more.
pub proof fn lemma_transport_range(price: DecimalView)
    ensures
        transport_of(price) <= INFINITY_BITS,
        transport_of(price) != INFINITY_BITS ==> price_fault(transport_of(price)) is None,
        transport_of(price) == INFINITY_BITS ==> quotient(
            decimal_numerator(price.unscaled, price.scale),
            decimal_places(price.scale),
            PAST_EXPONENT - 1,
        ) >= TWO_53 - 1,
{
    let n = decimal_numerator(price.unscaled, price.scale);
    let p = decimal_places(price.scale);
    let bits = transport_of(price);
    if price.unscaled == 0 {
        assert(n == 0) by {
            assert(0 * pow(10, (-price.scale) as nat) == 0) by (nonlinear_arith);
        }
    } else {
        lemma_pow_positive(10, (-price.scale) as nat);
        assert(n > 0) by {
            assert(price.unscaled * pow(10, (-price.scale) as nat) > 0) by (nonlinear_arith)
                requires
                    price.unscaled > 0,
                    pow(10, (-price.scale) as nat) > 0,
            ;
        }
        let e = binade(n, p);
        lemma_binade_from(n, p, LEAST_EXPONENT as int);
        lemma_scaled_parts(n, p, e);
        lemma_round_half_even(scaled_num(n, e), scaled_den(p, e));
        if bits != INFINITY_BITS {
            lemma_nearest_decoded(price.unscaled, price.scale, bits);
        }
    }
}

/// Converts a stored price to the nearest binary64 number, or to plus
/// infinity where the price lies beyond the finite ones.
pub fn to_transport(price: &Decimal) -> (transport: u64)
    ensures
        transport == transport_of(price@),
{
    proof {
        use_type_invariant(price);
    }
    nearest(&price.digits, price.scale)
}

} // verus!
