//! Natural numbers written in base ten, least significant digit first.
//!
//! The numbers that occur when a binary fraction is written out as a
//! decimal do not fit a machine word, so they are kept as digit vectors
//! and multiplied one small factor at a time.

use vstd::prelude::*;
use vstd::arithmetic::div_mod::lemma_fundamental_div_mod_converse;
use vstd::arithmetic::power::lemma_pow0;
use vstd::arithmetic::power::lemma_pow1;
use vstd::arithmetic::power::lemma_pow_adds;
use vstd::arithmetic::power::lemma_pow_increases;
use vstd::arithmetic::power::lemma_pow_positive;
use vstd::arithmetic::power::pow;

verus! {

/// The number that a digit sequence writes: `digits[i]` counts `10^i`.
pub open spec fn digits_value(digits: Seq<u8>) -> nat
    decreases digits.len(),
{
    if digits.len() == 0 {
        0
    } else {
        digits_value(digits.drop_last()) + digits.last() as nat * pow(
            10,
            (digits.len() - 1) as nat,
        ) as nat
    }
}

/// Every element is a base-ten digit.
pub open spec fn all_digits(digits: Seq<u8>) -> bool {
    forall|i: int| 0 <= i < digits.len() ==> #[trigger] digits[i] < 10
}

/// The digit sequence is the shortest one for its value: at least one
/// digit, and no zero in the most significant place unless it is alone.
pub open spec fn canonical_digits(digits: Seq<u8>) -> bool {
    &&& digits.len() >= 1
    &&& all_digits(digits)
    &&& digits.len() > 1 ==> digits.last() != 0
}

/// Appending a digit adds it at the next power of ten.
pub proof fn lemma_value_push(digits: Seq<u8>, d: u8)
    ensures
        digits_value(digits.push(d)) == digits_value(digits) + d * pow(10, digits.len()),
{
    let longer = digits.push(d);
    assert(longer.drop_last() =~= digits);
    lemma_pow_positive(10, digits.len());
}

/// The value of a prefix grows by the next digit at its power of ten.
pub proof fn lemma_value_take(digits: Seq<u8>, n: int)
    requires
        0 <= n < digits.len(),
    ensures
        digits_value(digits.take(n + 1)) == digits_value(digits.take(n)) + digits[n] * pow(
            10,
            n as nat,
        ),
{
    assert(digits.take(n + 1) =~= digits.take(n).push(digits[n]));
    lemma_value_push(digits.take(n), digits[n]);
}

/// A sequence of digits of length `n` writes a number below `10^n`.
pub proof fn lemma_value_bound(digits: Seq<u8>)
    requires
        all_digits(digits),
    ensures
        digits_value(digits) < pow(10, digits.len()),
    decreases digits.len(),
{
    if digits.len() == 0 {
        lemma_pow0(10);
    } else {
        let n = (digits.len() - 1) as nat;
        lemma_value_bound(digits.drop_last());
        lemma_pow_adds(10, n, 1);
        lemma_pow1(10);
        lemma_pow_positive(10, n);
        let p = pow(10, n);
        let d = digits.last() as int;
        assert(d * p <= 9 * p) by (nonlinear_arith)
            requires
                0 <= d <= 9,
                p > 0,
        ;
        assert(pow(10, n + 1) == p * 10);
    }
}

/// A canonical sequence of more than one digit writes a number of at
/// least `10^(n-1)`, so only the single digit zero writes zero.
pub proof fn lemma_value_canonical(digits: Seq<u8>)
    requires
        canonical_digits(digits),
    ensures
        digits.len() > 1 ==> digits_value(digits) >= pow(10, (digits.len() - 1) as nat),
        digits_value(digits) == 0 <==> digits =~= seq![0u8],
{
    let n = (digits.len() - 1) as nat;
    lemma_pow_positive(10, n);
    let p = pow(10, n);
    let d = digits.last() as int;
    if digits.len() > 1 {
        assert(d * p >= p) by (nonlinear_arith)
            requires
                d >= 1,
                p > 0,
        ;
    } else {
        lemma_pow0(10);
        assert(digits.drop_last() =~= Seq::<u8>::empty());
        assert(digits_value(digits.drop_last()) == 0);
        assert(digits_value(digits) == d);
        if d == 0 {
            assert(digits =~= seq![0u8]);
        }
    }
}

/// The value read from the least significant digit on: the first digit,
/// and ten times the value of the rest.
pub proof fn lemma_value_first(digits: Seq<u8>)
    requires
        digits.len() > 0,
    ensures
        digits_value(digits) == digits[0] + 10 * digits_value(digits.drop_first()),
    decreases digits.len(),
{
    let n = (digits.len() - 1) as nat;
    if n == 0 {
        lemma_pow0(10);
        assert(digits.drop_last() =~= Seq::<u8>::empty());
        assert(digits.drop_first() =~= Seq::<u8>::empty());
        assert(digits_value(digits.drop_last()) == 0);
        assert(digits_value(digits.drop_first()) == 0);
        assert(digits.last() == digits[0]);
        assert(digits.last() as nat * (1 as nat) == digits.last() as nat) by (nonlinear_arith);
    } else {
        let front = digits.drop_last();
        let rest = digits.drop_first();
        lemma_value_first(front);
        lemma_pow_positive(10, n);
        lemma_pow_positive(10, (n - 1) as nat);
        assert(digits_value(rest) == digits_value(rest.drop_last()) + rest.last() as nat * pow(
            10,
            (n - 1) as nat,
        ) as nat);
        assert(front.drop_first() =~= rest.drop_last());
        assert(rest.last() == digits.last());
        assert(front[0] == digits[0]);
        lemma_pow_adds(10, 1, (n - 1) as nat);
        lemma_pow1(10);
        let p = pow(10, (n - 1) as nat);
        let d = digits.last() as int;
        assert(pow(10, n) == 10 * p);
        assert(d * (10 * p) == 10 * (d * p)) by (nonlinear_arith);
    }
}

/// A number splits at any place into its low digits and `10^place` times
/// its high digits; the low digits write less than `10^place`.
pub proof fn lemma_value_split(digits: Seq<u8>, place: int)
    requires
        all_digits(digits),
        0 <= place <= digits.len(),
    ensures
        digits_value(digits) == digits_value(digits.take(place)) + pow(10, place as nat)
            * digits_value(digits.skip(place)),
        digits_value(digits.take(place)) < pow(10, place as nat),
    decreases digits.len() - place,
{
    lemma_value_bound(digits.take(place));
    if place == digits.len() {
        assert(digits.take(place) =~= digits);
        assert(digits.skip(place) =~= Seq::<u8>::empty());
        assert(pow(10, place as nat) * 0 == 0) by (nonlinear_arith);
    } else {
        lemma_value_split(digits, place + 1);
        lemma_value_take(digits, place);
        let high = digits.skip(place);
        lemma_value_first(high);
        assert(high.drop_first() =~= digits.skip(place + 1));
        assert(high[0] == digits[place]);
        lemma_pow_adds(10, place as nat, 1);
        lemma_pow1(10);
        let p = pow(10, place as nat);
        let d = digits[place] as int;
        let rest = digits_value(digits.skip(place + 1)) as int;
        assert((p * 10) * rest + d * p == p * (d + 10 * rest)) by (nonlinear_arith);
    }
}

/// Dividing by a power of ten cuts the number at that place: the high
/// digits are the quotient and the low digits the remainder. Past the
/// last digit the quotient is zero.
pub proof fn lemma_value_div(digits: Seq<u8>, place: nat)
    requires
        all_digits(digits),
    ensures
        place <= digits.len() ==> digits_value(digits) / pow(10, place) as nat == digits_value(
            digits.skip(place as int),
        ) && digits_value(digits) % pow(10, place) as nat == digits_value(
            digits.take(place as int),
        ),
        place >= digits.len() ==> digits_value(digits) / pow(10, place) as nat == 0
            && digits_value(digits) % pow(10, place) as nat == digits_value(digits),
{
    lemma_pow_positive(10, place);
    let p = pow(10, place);
    if place <= digits.len() {
        lemma_value_split(digits, place as int);
        let q = digits_value(digits.skip(place as int)) as int;
        let r = digits_value(digits.take(place as int)) as int;
        assert(p * q == q * p) by (nonlinear_arith);
        lemma_fundamental_div_mod_converse(digits_value(digits) as int, p, q, r);
    }
    if place >= digits.len() {
        lemma_value_bound(digits);
        lemma_pow_increases(10, digits.len(), place);
        assert(digits_value(digits) < p);
        assert(digits_value(digits) == 0 * p + digits_value(digits)) by (nonlinear_arith);
        lemma_fundamental_div_mod_converse(
            digits_value(digits) as int,
            p,
            0,
            digits_value(digits) as int,
        );
    }
}

/// Digits that write zero are all zero, and the other way round.
pub proof fn lemma_value_zero(digits: Seq<u8>)
    ensures
        digits_value(digits) == 0 <==> forall|i: int| 0 <= i < digits.len() ==> digits[i] == 0,
    decreases digits.len(),
{
    if digits.len() > 0 {
        let front = digits.drop_last();
        lemma_value_zero(front);
        let n = (digits.len() - 1) as nat;
        lemma_pow_positive(10, n);
        let p = pow(10, n);
        let d = digits.last() as int;
        assert(d * p == 0 <==> d == 0) by (nonlinear_arith)
            requires
                p > 0,
                d >= 0,
        ;
        assert(d * p >= 0) by (nonlinear_arith)
            requires
                p > 0,
                d >= 0,
        ;
        if digits_value(digits) == 0 {
            assert forall|i: int| 0 <= i < digits.len() implies digits[i] == 0 by {
                if i < n {
                    assert(front[i] == digits[i]);
                }
            }
        }
        if forall|i: int| 0 <= i < digits.len() ==> digits[i] == 0 {
            assert forall|i: int| 0 <= i < front.len() implies front[i] == 0 by {
                assert(front[i] == digits[i]);
            }
            assert(digits[n as int] == 0);
        }
    }
}

/// The canonical digits of a machine number.
pub fn digits_of(n: u64) -> (digits: Vec<u8>)
    ensures
        canonical_digits(digits@),
        digits_value(digits@) == n,
{
    let mut digits: Vec<u8> = Vec::new();
    let mut rest: u64 = n;
    proof {
        lemma_pow0(10);
    }
    loop
        invariant_except_break
            all_digits(digits@),
            digits_value(digits@) + rest * pow(10, digits@.len()) == n,
            digits@.len() > 0 ==> rest > 0,
        ensures
            canonical_digits(digits@),
            digits_value(digits@) == n,
        decreases rest,
    {
        let d: u8 = (rest % 10) as u8;
        let ghost before = digits@;
        let ghost p = pow(10, before.len());
        proof {
            lemma_value_push(before, d);
            lemma_pow_adds(10, before.len(), 1);
            lemma_pow1(10);
            assert(rest * p == (rest / 10) * (p * 10) + d * p) by (nonlinear_arith)
                requires
                    d == rest % 10,
            ;
        }
        digits.push(d);
        rest = rest / 10;
        if rest == 0 {
            assert(digits@.last() == d);
            assert((rest * pow(10, digits@.len())) == 0) by (nonlinear_arith)
                requires
                    rest == 0,
            ;
            break ;
        }
    }
    digits
}

/// Multiplies the number by a factor, in place.
pub fn mul_small(digits: &mut Vec<u8>, factor: u8)
    requires
        canonical_digits(old(digits)@),
    ensures
        canonical_digits(final(digits)@),
        digits_value(final(digits)@) == factor * digits_value(old(digits)@),
{
    let ghost before = digits@;
    if factor == 0 {
        digits.clear();
        digits.push(0u8);
        proof {
            assert(digits@ =~= seq![0u8]);
            lemma_value_canonical(digits@);
            assert(0 * digits_value(before) == 0) by (nonlinear_arith);
        }
        return ;
    }
    let n = digits.len();
    let mut carry: u16 = 0;
    let mut i: usize = 0;
    proof {
        lemma_pow0(10);
        assert(digits@.take(0) =~= Seq::<u8>::empty());
        assert(digits_value(digits@.take(0)) == 0);
    }
    while i < n
        invariant
            n == before.len(),
            digits@.len() == n,
            i <= n,
            factor >= 1,
            carry < factor,
            all_digits(before),
            all_digits(digits@),
            forall|k: int| i <= k < n ==> digits@[k] == before[k],
            digits_value(digits@.take(i as int)) + carry * pow(10, i as nat) == factor
                * digits_value(before.take(i as int)),
            i == n && n > 1 && carry == 0 ==> digits@.last() != 0,
            n > 1 ==> before.last() != 0,
        decreases n - i,
    {
        assert(digits[i as int] * factor <= 2295 && (digits[i as int] >= 1 ==> digits[i as int]
            * factor >= factor) && digits[i as int] * factor + carry < 10 * factor)
            by (nonlinear_arith)
            requires
                digits[i as int] <= 9,
                1 <= factor <= 255,
                carry < factor,
        ;
        let t: u16 = digits[i] as u16 * factor as u16 + carry;
        let d: u8 = (t % 10) as u8;
        let c: u16 = t / 10;
        let ghost prev = digits@;
        let ghost p = pow(10, i as nat);
        proof {
            lemma_value_take(before, i as int);
            lemma_pow_adds(10, i as nat, 1);
            lemma_pow1(10);
            lemma_pow_positive(10, i as nat);
        }
        digits.set(i, d);
        proof {
            assert(digits@.take(i as int) =~= prev.take(i as int));
            lemma_value_take(digits@, i as int);
            let x = before[i as int] as int;
            let f = factor as int;
            let cy = carry as int;
            assert(d * p + c * (p * 10) == (x * f + cy) * p) by (nonlinear_arith)
                requires
                    d == (x * f + cy) % 10,
                    c == (x * f + cy) / 10,
            ;
            assert((x * f + cy) * p == f * (x * p) + cy * p) by (nonlinear_arith);
            assert(f * (digits_value(before.take(i as int)) + x * p) == f * digits_value(
                before.take(i as int),
            ) + f * (x * p)) by (nonlinear_arith);
        }
        carry = c;
        i = i + 1;
    }
    proof {
        assert(digits@.take(n as int) =~= digits@);
        assert(before.take(n as int) =~= before);
    }
    while carry > 0
        invariant
            all_digits(digits@),
            digits@.len() >= 1,
            digits_value(digits@) + carry * pow(10, digits@.len()) == factor * digits_value(
                before,
            ),
            carry == 0 && digits@.len() > 1 ==> digits@.last() != 0,
        decreases carry,
    {
        let d: u8 = (carry % 10) as u8;
        let ghost prev = digits@;
        let ghost p = pow(10, prev.len());
        proof {
            lemma_value_push(prev, d);
            lemma_pow_adds(10, prev.len(), 1);
            lemma_pow1(10);
            assert(carry * p == (carry / 10) * (p * 10) + d * p) by (nonlinear_arith)
                requires
                    d == carry % 10,
            ;
        }
        digits.push(d);
        carry = carry / 10;
        proof {
            assert(digits@.last() == d);
        }
    }
    proof {
        assert(carry * pow(10, digits@.len()) == 0) by (nonlinear_arith)
            requires
                carry == 0,
        ;
    }
}

/// Multiplies the number by `factor^times`, in place.
pub fn mul_power(digits: &mut Vec<u8>, factor: u8, times: u32)
    requires
        canonical_digits(old(digits)@),
    ensures
        canonical_digits(final(digits)@),
        digits_value(final(digits)@) == digits_value(old(digits)@) * pow(
            factor as int,
            times as nat,
        ),
{
    let ghost start = digits_value(digits@);
    let mut done: u32 = 0;
    proof {
        lemma_pow0(factor as int);
    }
    while done < times
        invariant
            done <= times,
            canonical_digits(digits@),
            digits_value(digits@) == start * pow(factor as int, done as nat),
        decreases times - done,
    {
        let ghost p = pow(factor as int, done as nat);
        proof {
            lemma_pow_adds(factor as int, done as nat, 1);
            lemma_pow1(factor as int);
            assert(factor * (start * p) == start * (p * factor)) by (nonlinear_arith);
        }
        mul_small(digits, factor);
        done = done + 1;
    }
}

/// The number times `10^places`: as many zeros, then the digits; zero
/// stays the single digit zero.
pub fn shift_up(digits: &Vec<u8>, places: usize) -> (shifted: Vec<u8>)
    requires
        canonical_digits(digits@),
    ensures
        canonical_digits(shifted@),
        digits_value(shifted@) == digits_value(digits@) * pow(10, places as nat),
{
    let mut shifted: Vec<u8> = Vec::new();
    proof {
        lemma_value_canonical(digits@);
    }
    if digits.len() == 1 && digits[0] == 0 {
        shifted.push(0u8);
        proof {
            assert(digits@ =~= seq![0u8]);
            assert(shifted@ =~= seq![0u8]);
            assert(0 * pow(10, places as nat) == 0) by (nonlinear_arith);
        }
        return shifted;
    }
    assert(digits_value(digits@) > 0) by {
        if digits@.len() == 1 {
            assert(digits@ =~= seq![digits@[0]]);
        }
    }
    let mut i: usize = 0;
    while i < places
        invariant
            i <= places,
            shifted@.len() == i,
            forall|k: int| 0 <= k < i ==> shifted@[k] == 0,
        decreases places - i,
    {
        shifted.push(0u8);
        i = i + 1;
    }
    let ghost zeros = shifted@;
    let mut j: usize = 0;
    while j < digits.len()
        invariant
            j <= digits.len(),
            zeros.len() == places,
            shifted@ == zeros + digits@.take(j as int),
        decreases digits.len() - j,
    {
        shifted.push(digits[j]);
        j = j + 1;
        assert(shifted@ =~= zeros + digits@.take(j as int));
    }
    proof {
        assert(digits@.take(digits.len() as int) =~= digits@);
        assert(shifted@.take(places as int) =~= zeros);
        assert(shifted@.skip(places as int) =~= digits@);
        lemma_value_zero(zeros);
        lemma_value_canonical(digits@);
        assert(all_digits(shifted@)) by {
            assert forall|k: int| 0 <= k < shifted@.len() implies #[trigger] shifted@[k] < 10 by {
                if k >= places {
                    assert(shifted@[k] == digits@[k - places]);
                }
            }
        }
        lemma_value_split(shifted@, places as int);
        assert(shifted@.last() == digits@.last());
        assert(pow(10, places as nat) * digits_value(digits@) == digits_value(digits@) * pow(
            10,
            places as nat,
        )) by (nonlinear_arith);
        if digits@.len() == 1 {
            assert(digits@ =~= seq![digits@[0]]);
            assert(digits@[0] != 0);
        }
    }
    shifted
}

/// Whether the digits below `place` are all zero, that is, whether the
/// number is a multiple of `10^place`.
pub fn low_digits_zero(digits: &Vec<u8>, place: usize) -> (zero: bool)
    requires
        place <= digits.len(),
    ensures
        zero == (digits_value(digits@.take(place as int)) == 0),
{
    let mut i: usize = 0;
    while i < place
        invariant
            i <= place <= digits.len(),
            forall|k: int| 0 <= k < i ==> digits@[k] == 0,
        decreases place - i,
    {
        if digits[i] != 0 {
            proof {
                lemma_value_zero(digits@.take(place as int));
                assert(digits@.take(place as int)[i as int] == digits@[i as int]);
            }
            return false;
        }
        i = i + 1;
    }
    proof {
        lemma_value_zero(digits@.take(place as int));
    }
    true
}

/// The number written by the digits from `place` up, of which there are
/// at most eighteen.
pub fn high_digits(digits: &Vec<u8>, place: usize) -> (high: u64)
    requires
        all_digits(digits@),
        place <= digits.len(),
        digits.len() - place <= 18,
    ensures
        high == digits_value(digits@.skip(place as int)),
{
    let n = digits.len();
    let mut high: u64 = 0;
    let mut i: usize = n;
    proof {
        assert(digits@.skip(n as int) =~= Seq::<u8>::empty());
        lemma_pow0(10);
    }
    while i > place
        invariant
            place <= i <= n,
            n == digits.len(),
            n - place <= 18,
            all_digits(digits@),
            high == digits_value(digits@.skip(i as int)),
            high < pow(10, (n - i) as nat),
        decreases i,
    {
        proof {
            let tail = digits@.skip(i as int - 1);
            lemma_value_first(tail);
            assert(tail.drop_first() =~= digits@.skip(i as int));
            assert(tail[0] == digits@[i as int - 1]);
            lemma_pow_adds(10, (n - i) as nat, 1);
            lemma_pow1(10);
            lemma_pow_bound_18((n - i) as nat);
        }
        i = i - 1;
        high = high * 10 + digits[i] as u64;
    }
    high
}

/// Powers of ten up to the eighteenth fit a machine word with room left.
pub proof fn lemma_pow_bound_18(k: nat)
    requires
        k <= 18,
    ensures
        0 < pow(10, k) <= 1_000_000_000_000_000_000,
    decreases 18 - k,
{
    lemma_pow_positive(10, k);
    if k == 18 {
        lemma_pow_18();
    } else {
        lemma_pow_bound_18(k + 1);
        lemma_pow_adds(10, k, 1);
        lemma_pow1(10);
    }
}

/// Ten to the sixteenth and to the eighteenth, written out.
pub proof fn lemma_pow_18()
    ensures
        pow(10, 16) == 10_000_000_000_000_000,
        pow(10, 18) == 1_000_000_000_000_000_000,
{
    lemma_pow1(10);
    lemma_pow_adds(10, 1, 1);
    assert(pow(10, 2) == 100);
    lemma_pow_adds(10, 2, 2);
    assert(pow(10, 4) == 10_000);
    lemma_pow_adds(10, 4, 4);
    assert(pow(10, 8) == 100_000_000);
    lemma_pow_adds(10, 8, 8);
    assert(pow(10, 16) == 10_000_000_000_000_000);
    lemma_pow_adds(10, 16, 2);
}

} // verus!
