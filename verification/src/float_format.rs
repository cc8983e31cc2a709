//! Doubles with a fixed number of decimal places, and in the form used when
//! values are shown for inspection.

use crate::float::{round_half_even, units, units_of, Float64, INFINITY_BITS, SIGN_BIT};
use crate::float_display::{
    coarsest, find_shortest, lemma_coarsest_unique, natural_to_text, plain, push_chars, push_plain,
    push_zeros, raise, shortest_digits, shortest_exponent, zeros,
};
use crate::float_text::pow10;
use crate::natural::Natural;
use crate::text::{decimal, i128_to_text, int_text};
use vstd::arithmetic::div_mod::*;
use vstd::arithmetic::power2::*;
use vstd::prelude::*;
use vstd::string::StringExecFns;

verus! {

/// A count of `10^-places`, written with that many places after the point.
pub open spec fn with_places(count: nat, places: nat) -> Seq<char> {
    let digits = decimal(count);
    let padded = if digits.len() <= places {
        zeros(places + 1 - digits.len()) + digits
    } else {
        digits
    };
    if places == 0 {
        padded
    } else {
        padded.take(padded.len() - places) + seq!['.'] + padded.skip(padded.len() - places)
    }
}

/// A double rounded to the given number of places, ties to even.
pub open spec fn fixed_text(x: Float64, places: nat) -> Seq<char> {
    if x.nan() {
        "NaN"@
    } else {
        (if x.negative() {
            "-"@
        } else {
            Seq::empty()
        }) + if !x.finite() {
            "inf"@
        } else {
            with_places(
                round_half_even(units(x.magnitude()) * pow10(places), pow2(1074)),
                places,
            )
        }
    }
}

/// Replaces a number by its quotient by `2^k`.
fn shift_down(x: &mut Natural, k: u32)
    ensures
        final(x)@ == old(x)@ / pow2(k as nat),
{
    let ghost start = x@;
    let mut i: u32 = 0;
    proof {
        lemma2_to64();
        assert(start / pow2(0) == start);
    }
    while k - i >= 16
        invariant
            i <= k,
            start == old(x)@,
            x@ == start / pow2(i as nat),
        decreases k - i,
    {
        let _ = x.div_small(0x1_0000);
        proof {
            lemma2_to64();
            lemma_pow2_adds(i as nat, 16);
            lemma_pow2_pos(i as nat);
            lemma_div_denominator(start as int, pow2(i as nat) as int, 0x1_0000);
        }
        i += 16;
    }
    while i < k
        invariant
            i <= k,
            start == old(x)@,
            x@ == start / pow2(i as nat),
        decreases k - i,
    {
        let _ = x.div_small(2);
        proof {
            lemma2_to64();
            lemma_pow2_adds(i as nat, 1);
            lemma_pow2_pos(i as nat);
            lemma_div_denominator(start as int, pow2(i as nat) as int, 2);
        }
        i += 1;
    }
}

/// A number of units of `2^-1074` rounded to whole numbers, ties to even.
fn round_units(num: &Natural) -> (r: Natural)
    ensures
        r@ == round_half_even(num@, pow2(1074)),
{
    let mut q = num.copy();
    shift_down(&mut q, 1074);
    let mut floor = q.copy();
    floor.times_power_of_two(1074);
    let mut den = Natural::from_u64(1);
    den.times_power_of_two(1074);
    let ghost n = num@;
    let ghost d = pow2(1074);
    proof {
        lemma_pow2_pos(1074);
        assert(1 * d == d);
        lemma_fundamental_div_mod(n as int, d as int);
        assert(q@ * d == d * q@) by (nonlinear_arith);
    }
    let mut rest = num.minus(&floor);
    rest.mul_small_plus(2, 0);
    let above_half = rest.at_least(&den);
    let at_most_half = den.at_least(&rest);
    let mut half = q.copy();
    let odd: u32 = half.div_small(2);
    if above_half && (!at_most_half || odd == 1) {
        q.mul_small_plus(1, 1);
    }
    q
}

fn push_places(out: &mut String, digits: &Vec<char>, places: usize, Ghost(count): Ghost<nat>)
    requires
        digits@ == decimal(count),
    ensures
        final(out)@ == old(out)@ + with_places(count, places as nat),
{
    let len: usize = digits.len();
    proof {
        lemma_decimal_nonempty(count);
        assert(digits@.subrange(0, len as int) =~= digits@);
    }
    if places == 0 {
        push_chars(out, digits, 0, len);
    } else if len <= places {
        out.push('0');
        out.push('.');
        push_zeros(out, places - len);
        push_chars(out, digits, 0, len);
        proof {
            let padded = zeros(places + 1 - len) + digits@;
            assert(padded.take(1) =~= seq!['0']);
            assert(padded.skip(1) =~= zeros(places - len) + digits@);
        }
    } else {
        push_chars(out, digits, 0, len - places);
        out.push('.');
        push_chars(out, digits, len - places, len);
        proof {
            assert(digits@.subrange(0, len - places) =~= digits@.take(len - places));
            assert(digits@.subrange(len - places, len as int) =~= digits@.skip(len - places));
        }
    }
    assert(out@ =~= old(out)@ + with_places(count, places as nat));
}

/// Writes a double with the given number of places after the point.
pub fn float_to_fixed(x: Float64, places: u32) -> (r: String)
    ensures
        r@ == fixed_text(x, places as nat),
{
    let bits: u64 = x.to_bits() % SIGN_BIT;
    if bits > INFINITY_BITS {
        return String::from_str("NaN");
    }
    let mut out = String::new();
    if x.to_bits() >= SIGN_BIT {
        out.append("-");
    }
    proof {
        assert(out@ =~= if x.negative() {
            "-"@
        } else {
            Seq::empty()
        });
    }
    if bits == INFINITY_BITS {
        out.append("inf");
        return out;
    }
    let mut num = units_of(bits);
    raise(&mut num, places);
    let count = round_units(&num);
    let ghost n = count@;
    let digits = natural_to_text(count);
    push_places(&mut out, &digits, places as usize, Ghost(n));
    out
}

proof fn lemma_decimal_nonempty(n: nat)
    ensures
        decimal(n).len() > 0,
{
}

/// The bits of `10^16`, from which on an exponent is shown.
pub const LARGE_BITS: u64 = 0x4341_c379_37e0_8000;

/// The bits of the double nearest to `10^-4`, below which an exponent is shown.
pub const SMALL_BITS: u64 = 0x3f1a_36e2_eb1c_432d;

/// Digits times a power of ten, with one digit before the point and an exponent.
pub open spec fn scientific(digits: Seq<char>, e: int) -> Seq<char> {
    seq![digits[0]] + (if digits.len() > 1 {
        seq!['.'] + digits.skip(1)
    } else {
        Seq::empty()
    }) + "e"@ + int_text(digits.len() - 1 + e)
}

/// The text of a positive double when shown for inspection: with an exponent
/// where it is very large or small, else with a point.
pub open spec fn positive_debug(bits: nat) -> Seq<char> {
    let digits = shortest_digits(bits);
    let e = shortest_exponent(bits);
    if bits >= LARGE_BITS || bits < SMALL_BITS {
        scientific(digits, e)
    } else if e >= 0 {
        plain(digits, e) + ".0"@
    } else {
        plain(digits, e)
    }
}

/// The text of a double when shown for inspection.
pub open spec fn debug_text(x: Float64) -> Seq<char> {
    if x.nan() {
        "NaN"@
    } else {
        (if x.negative() {
            "-"@
        } else {
            Seq::empty()
        }) + if !x.finite() {
            "inf"@
        } else if x.magnitude() == 0 {
            "0.0"@
        } else {
            positive_debug(x.magnitude())
        }
    }
}

/// Writes a double as it is shown for inspection.
pub fn float_to_debug(x: Float64) -> (r: String)
    ensures
        r@ == debug_text(x),
{
    let bits: u64 = x.to_bits() % SIGN_BIT;
    if bits > INFINITY_BITS {
        return String::from_str("NaN");
    }
    let mut out = String::new();
    if x.to_bits() >= SIGN_BIT {
        out.append("-");
    }
    let ghost sign = out@;
    proof {
        assert(sign =~= if x.negative() {
            "-"@
        } else {
            Seq::empty()
        });
    }
    if bits == INFINITY_BITS {
        out.append("inf");
        return out;
    }
    if bits == 0 {
        out.append("0.0");
        return out;
    }
    let found = find_shortest(bits);
    let e: i32 = found.exponent;
    proof {
        let f = shortest_exponent(bits as nat);
        assert(coarsest(bits as nat, f));
        lemma_coarsest_unique(bits as nat, e as int, f);
        lemma_decimal_nonempty(found.digits@);
    }
    let digits = natural_to_text(found.digits);
    if bits >= LARGE_BITS || bits < SMALL_BITS {
        let n: usize = digits.len();
        push_chars(&mut out, &digits, 0, 1);
        if n > 1 {
            out.push('.');
            push_chars(&mut out, &digits, 1, n);
        }
        out.append("e");
        let exponent: i128 = (n as i128 - 1) + e as i128;
        out.append(i128_to_text(exponent).as_str());
        proof {
            assert(digits@.subrange(0, 1) =~= seq![digits@[0]]);
            assert(digits@.subrange(1, n as int) =~= digits@.skip(1));
            assert(out@ =~= debug_text(x));
        }
    } else {
        push_plain(&mut out, &digits, e);
        if e >= 0 {
            out.append(".0");
        }
        assert(out@ =~= debug_text(x));
    }
    out
}

} // verus!
