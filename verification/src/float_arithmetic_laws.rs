//! What arithmetic with doubles means, over all doubles.

use crate::float::{
    lemma_round_ratio_common, lemma_round_ratio_monotone, lemma_round_units, lemma_units_monotone,
    nearest, round_half_even, round_ratio, units, Float64, INFINITY_BITS, SIGN_BIT,
};
use crate::float_display::zeros;
use crate::float_format::{fixed_text, with_places};
use crate::float_laws::lemma_zeros_before;
use crate::float_text::{digits_value, is_digit, pow10};
use crate::number_text::lemma_numeral;
use crate::text::decimal;
use vstd::arithmetic::div_mod::lemma_fundamental_div_mod;
use vstd::arithmetic::power2::{lemma_pow2_pos, pow2};
use vstd::prelude::*;

verus! {

/// Rounding stays between the doubles on both sides of a number.
pub proof fn law_rounding_stays_between(num: nat, den: nat, low: nat, high: nat)
    requires
        den > 0,
        units(low) * den <= num <= units(high) * den,
        high < INFINITY_BITS,
    ensures
        low <= nearest(num, den) <= high,
{
    lemma_exact(low, den);
    lemma_exact(high, den);
    lemma_round_ratio_monotone(units(low) * den, num, den);
    lemma_round_ratio_monotone(num, units(high) * den, den);
    lemma_order(low, high, den);
}

proof fn lemma_exact(bits: nat, den: nat)
    requires
        den > 0,
    ensures
        round_ratio(units(bits) * den, den) == bits,
{
    lemma_round_ratio_common(units(bits), 1, den);
    lemma_round_units(bits);
    assert(den * units(bits) == units(bits) * den) by (nonlinear_arith);
    assert(den * 1 == den);
}

proof fn lemma_order(low: nat, high: nat, den: nat)
    requires
        den > 0,
        units(low) * den <= units(high) * den,
    ensures
        low <= high,
{
    if high < low {
        lemma_units_monotone(high, low);
        let a = units(low);
        let b = units(high);
        assert(b * den < a * den) by (nonlinear_arith)
            requires
                b < a,
                den > 0,
        ;
    }
}

proof fn lemma_rounded(n: int, den: nat)
    requires
        den > 0,
    ensures
        n < 0 ==> Float64::rounded(n, den).rank() == -nearest((-n) as nat, den),
        n >= 0 ==> Float64::rounded(n, den).rank() == nearest(n as nat, den),
        !Float64::rounded(n, den).nan(),
{
    if n < 0 {
        Float64::lemma_of_bits((SIGN_BIT + nearest((-n) as nat, den)) as u64);
    } else {
        Float64::lemma_of_bits(nearest(n as nat, den) as u64);
    }
}

/// A sum does not depend on the order of its parts.
pub proof fn law_sum_commutes(a: Float64, b: Float64)
    ensures
        Float64::sum(a, b) == Float64::sum(b, a),
{
    if !a.nan() && !b.nan() && !a.finite() && !b.finite() && a.negative() == b.negative() {
        assert(a.spec_bits() == b.spec_bits());
        a.lemma_same_bits(b);
    }
}

/// A sum that is a double is that double.
pub proof fn law_sum_is_exact(a: Float64, b: Float64, x: Float64)
    requires
        a.finite(),
        b.finite(),
        x.finite(),
        x.value() == a.value() + b.value(),
    ensures
        Float64::same(Float64::sum(a, b), x),
{
    let m = x.magnitude();
    lemma_round_units(m);
    lemma_units_monotone(0, m);
    Float64::lemma_of_bits(SIGN_BIT);
    Float64::lemma_of_bits(0);
    if x.value() != 0 {
        lemma_rounded(x.value(), 1);
    } else if m > 0 {
        lemma_units_monotone(0, m);
    }
}

/// A larger part makes a sum no smaller.
pub proof fn law_sum_keeps_order(a: Float64, b: Float64, c: Float64)
    requires
        a.finite(),
        b.finite(),
        c.finite(),
        a.value() <= b.value(),
    ensures
        !Float64::lt(Float64::sum(b, c), Float64::sum(a, c)),
{
    let x = a.value() + c.value();
    let y = b.value() + c.value();
    Float64::lemma_of_bits(SIGN_BIT);
    Float64::lemma_of_bits(0);
    lemma_rounded(x, 1);
    lemma_rounded(y, 1);
    if x >= 0 {
        lemma_round_ratio_monotone(x as nat, y as nat, 1);
    } else if y < 0 {
        lemma_round_ratio_monotone((-y) as nat, (-x) as nat, 1);
    }
}

/// A quotient that is a double is that double.
pub proof fn law_quotient_is_exact(a: Float64, b: Float64, x: Float64)
    requires
        a.positive_sign(),
        a.finite(),
        b.positive_sign(),
        b.finite(),
        b.magnitude() > 0,
        x.positive_sign(),
        x.finite(),
        x.value() * b.value() == a.value() * pow2(1074),
    ensures
        Float64::ratio(a, b) == x,
{
    lemma_units_monotone(0, b.magnitude());
    lemma_exact(x.magnitude(), units(b.magnitude()));
    Float64::lemma_of_bits(x.magnitude() as u64);
    Float64::ratio(a, b).lemma_same_bits(x);
}

/// A product with a whole number that is a double is that double.
pub proof fn law_product_is_exact(a: Float64, k: nat, x: Float64)
    requires
        a.positive_sign(),
        a.finite(),
        x.positive_sign(),
        x.finite(),
        x.value() == a.value() * k,
    ensures
        Float64::multiple(a, k) == x,
{
    lemma_round_units(x.magnitude());
    Float64::lemma_of_bits(x.magnitude() as u64);
    Float64::multiple(a, k).lemma_same_bits(x);
}

/// A larger dividend makes a quotient no smaller.
pub proof fn law_quotient_keeps_order(a: Float64, b: Float64, c: Float64)
    requires
        a.positive_sign(),
        b.positive_sign(),
        c.positive_sign(),
        a.finite(),
        b.finite(),
        c.finite(),
        c.magnitude() > 0,
        a.value() <= b.value(),
    ensures
        !Float64::lt(Float64::ratio(b, c), Float64::ratio(a, c)),
{
    let p = pow2(1074);
    let x = units(a.magnitude());
    let y = units(b.magnitude());
    let d = units(c.magnitude());
    lemma_units_monotone(0, c.magnitude());
    assert(x * p <= y * p) by (nonlinear_arith)
        requires
            x <= y,
    ;
    lemma_round_ratio_monotone(x * p, y * p, d);
    Float64::lemma_of_bits(nearest(x * p, d) as u64);
    Float64::lemma_of_bits(nearest(y * p, d) as u64);
}

// ------------------------------------------------------------------- fixed places

/// Rounding to a whole number gives one at most half away.
pub proof fn law_round_half_even_is_nearest(num: nat, den: nat)
    requires
        den > 0,
    ensures
        2 * (round_half_even(num, den) * den) <= 2 * num + den,
        2 * num <= 2 * (round_half_even(num, den) * den) + den,
{
    lemma_fundamental_div_mod(num as int, den as int);
    let q = num / den;
    let r = num % den;
    assert((q + 1) * den == q * den + den) by (nonlinear_arith);
    assert(den * q == q * den) by (nonlinear_arith);
}

/// Digits with a point stand for the count of their last place: with the point taken out
/// they are its numeral, and as many of them stand behind the point as there are places.
pub proof fn law_places_hold_the_count(count: nat, places: nat)
    requires
        places > 0,
    ensures
        ({
            let t = with_places(count, places);
            let p = t.len() - 1 - places;
            &&& p > 0
            &&& t[p] == '.'
            &&& digits_value(t.take(p) + t.skip(p + 1)) == count
            &&& forall|i: int| 0 <= i < t.len() && i != p ==> is_digit(#[trigger] t[i])
        }),
{
    lemma_numeral(count);
    let digits = decimal(count);
    let padded = if digits.len() <= places {
        zeros(places + 1 - digits.len()) + digits
    } else {
        digits
    };
    let t = with_places(count, places);
    let p = t.len() - 1 - places;
    assert(t.len() == padded.len() + 1);
    assert(t.take(p) + t.skip(p + 1) =~= padded);
    if digits.len() <= places {
        lemma_zeros_before((places + 1 - digits.len()) as nat, digits);
    }
    assert forall|i: int| 0 <= i < t.len() && i != p implies is_digit(#[trigger] t[i]) by {
        let j = if i < p { i } else { i - 1 };
        assert(t[i] == padded[j]);
        if digits.len() <= places {
            let z = places + 1 - digits.len();
            if j >= z {
                assert(padded[j] == digits[j - z]);
            }
        }
    }
}

/// A finite double with fixed places is shown as the count of the last place that is
/// nearest to it, with its sign before.
pub proof fn law_fixed_text_is_nearest(x: Float64, places: nat)
    requires
        x.finite(),
    ensures
        exists|count: nat|
            {
                &&& 2 * (count * pow2(1074)) <= 2 * (units(x.magnitude()) * pow10(places)) + pow2(1074)
                &&& 2 * (units(x.magnitude()) * pow10(places)) <= 2 * (count * pow2(1074)) + pow2(1074)
                &&& fixed_text(x, places) == (if x.negative() {
                    seq!['-'] + #[trigger] with_places(count, places)
                } else {
                    with_places(count, places)
                })
            },
{
    reveal_strlit("-");
    lemma_pow2_pos(1074);
    let n = units(x.magnitude()) * pow10(places);
    let count = round_half_even(n, pow2(1074));
    law_round_half_even_is_nearest(n, pow2(1074));
    let w = with_places(count, places);
    if x.negative() {
        assert("-"@ + w =~= seq!['-'] + w);
    } else {
        assert(Seq::<char>::empty() + w =~= w);
    }
}

} // verus!
