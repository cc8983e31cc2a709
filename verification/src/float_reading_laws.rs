//! What the parts of a number in a text mean, and that texts of numbers are short.

use crate::float::{
    lemma_round_ratio_common, lemma_round_ratio_monotone, lemma_round_units, units, Float64,
    INFINITY_BITS,
};
use crate::float_display::{
    fits, lemma_den_positive, multiples, plain, scaled_den, scaled_num, shortest_exponent,
};
use crate::float_laws::{
    lemma_no_word, lemma_plain_read, lemma_run_ends, lemma_shortest_reads_back,
};
use crate::float_text::{
    digits_value, float_of_text, is_digit, lemma_pow10_positive, nearest_decimal, pow10,
    unsigned_float,
};
use crate::number_text::{all_digits, lemma_numeral};
use crate::text::decimal;
use vstd::arithmetic::div_mod::lemma_fundamental_div_mod;
use vstd::arithmetic::power2::{lemma_pow2_pos, pow2};
use vstd::prelude::*;

verus! {

/// A minus before a number turns its sign, and a plus changes nothing.
pub proof fn law_signs_before_numbers(s: Seq<char>)
    requires
        s.len() > 0,
        s[0] != '-',
        s[0] != '+',
    ensures
        float_of_text(seq!['+'] + s) == float_of_text(s),
        float_of_text(s) is None ==> float_of_text(seq!['-'] + s) is None,
        float_of_text(s) matches Some(x) ==> {
            &&& unsigned_float(s) matches Some(m) && (m < 0x8000_0000_0000_0000 ==> {
                &&& !x.negative()
                &&& float_of_text(seq!['-'] + s) == Some(x.opposite())
            })
        },
{
    let p = seq!['+'] + s;
    let m = seq!['-'] + s;
    assert(p.drop_first() =~= s);
    assert(m.drop_first() =~= s);
    if let Some(n) = unsigned_float(s) {
        if n < 0x8000_0000_0000_0000 {
            Float64::lemma_of_bits(n as u64);
        }
    }
}

proof fn lemma_exponent_read(d: Seq<char>, e: char, minus: bool, k: nat)
    requires
        all_digits(d),
        e == 'e' || e == 'E',
    ensures
        ({
            let s = d + seq![e] + (if minus {
                seq!['-'] + decimal(k)
            } else {
                decimal(k)
            });
            unsigned_float(s) == Some(
                nearest_decimal(
                    digits_value(d),
                    if minus {
                        -(k as int)
                    } else {
                        k as int
                    },
                ),
            )
        }),
{
    let tail = if minus {
        seq!['-'] + decimal(k)
    } else {
        decimal(k)
    };
    let s = d + seq![e] + tail;
    let a = d.len() as int;
    lemma_numeral(k);
    assert forall|i: int| 0 <= i < a implies is_digit(#[trigger] s[i]) by {
        assert(s[i] == d[i]);
    }
    assert(s[a] == e);
    lemma_run_ends(s, 0, a);
    assert(s.subrange(0, a) =~= d);
    let start = if minus {
        a + 2
    } else {
        a + 1
    };
    assert forall|i: int| start <= i < s.len() implies is_digit(#[trigger] s[i]) by {
        assert(s[i] == decimal(k)[i - start]);
    }
    assert(is_digit(decimal(k)[0]));
    if minus {
        assert(s[a + 1] == '-');
    } else {
        assert(s[a + 1] == decimal(k)[0]);
    }
    lemma_run_ends(s, start, s.len() as int);
    assert(s.subrange(start, s.len() as int) =~= decimal(k));
    assert(is_digit(s[0])) by {
        assert(s[0] == d[0]);
        assert(is_digit(d[0]));
    }
    lemma_no_word(s);
    assert(d + Seq::<char>::empty() =~= d);
}

/// An exponent moves the point: digits with an exponent are read as the digits with as
/// many zeros behind them, or with the point as many places before their end.
pub proof fn law_exponent_moves_the_point(d: Seq<char>, k: nat)
    requires
        all_digits(d),
    ensures
        float_of_text(d + seq!['e'] + decimal(k)) == float_of_text(plain(d, k as int)),
        float_of_text(d + seq!['E'] + decimal(k)) == float_of_text(plain(d, k as int)),
        float_of_text(d + seq!['e'] + (seq!['-'] + decimal(k))) == float_of_text(
            plain(d, -(k as int)),
        ),
        float_of_text(d + seq!['E'] + (seq!['-'] + decimal(k))) == float_of_text(
            plain(d, -(k as int)),
        ),
{
    lemma_exponent_read(d, 'e', false, k);
    lemma_exponent_read(d, 'E', false, k);
    lemma_exponent_read(d, 'e', true, k);
    lemma_exponent_read(d, 'E', true, k);
    lemma_plain_read(d, k as int);
    lemma_plain_read(d, -(k as int));
    assert(is_digit(d[0]));
    let a = d + seq!['e'] + decimal(k);
    let b = d + seq!['E'] + decimal(k);
    let x = d + seq!['e'] + (seq!['-'] + decimal(k));
    let y = d + seq!['E'] + (seq!['-'] + decimal(k));
    assert(a[0] == d[0] && b[0] == d[0] && x[0] == d[0] && y[0] == d[0]);
}

/// Decimals of one unit keep their order as doubles, and enclose the double that they
/// are near to.
proof fn lemma_decimals_in_order(bits: nat, e: int, low: nat, high: nat)
    requires
        bits < INFINITY_BITS,
        low <= high,
    ensures
        nearest_decimal(low, e) <= nearest_decimal(high, e),
        high <= multiples(bits, e) ==> nearest_decimal(high, e) <= bits,
        low > multiples(bits, e) ==> nearest_decimal(low, e) >= bits,
{
    let b = pow2(1074);
    let u = units(bits);
    lemma_pow2_pos(1074);
    lemma_den_positive(e);
    lemma_round_units(bits);
    lemma_fundamental_div_mod(scaled_num(bits, e) as int, scaled_den(e) as int);
    let q = multiples(bits, e);
    if e >= 0 {
        let t = pow10(e as nat);
        let m = b * t;
        assert(low * t * b <= high * t * b) by (nonlinear_arith)
            requires
                low <= high,
        ;
        lemma_round_ratio_monotone(low * t * b, high * t * b, 1);
        if high <= q {
            assert(high * t * b <= u) by (nonlinear_arith)
                requires
                    high <= q,
                    m * q <= u,
                    m == b * t,
            ;
            lemma_round_ratio_monotone(high * t * b, u, 1);
        }
        if low > q {
            assert(low * t * b >= u) by (nonlinear_arith)
                requires
                    low >= q + 1,
                    u <= m * q + m,
                    m == b * t,
            ;
            lemma_round_ratio_monotone(u, low * t * b, 1);
        }
    } else {
        let t = pow10((-e) as nat);
        lemma_pow10_positive((-e) as nat);
        assert(low * b <= high * b) by (nonlinear_arith)
            requires
                low <= high,
        ;
        lemma_round_ratio_monotone(low * b, high * b, t);
        lemma_round_ratio_common(u, 1, t);
        assert(t * u == u * t && t * 1 == t) by (nonlinear_arith);
        if high <= q {
            assert(high * b <= u * t) by (nonlinear_arith)
                requires
                    high <= q,
                    b * q <= u * t,
            ;
            lemma_round_ratio_monotone(high * b, u * t, t);
        }
        if low > q {
            assert(low * b >= u * t) by (nonlinear_arith)
                requires
                    low >= q + 1,
                    u * t <= b * q + b,
            ;
            lemma_round_ratio_monotone(u * t, low * b, t);
        }
    }
}

/// The digits of a number are as few as can be: no decimal that is read as the number
/// ends at a place further to the left than its text does.
pub proof fn law_text_of_a_number_is_short(bits: nat, d: nat, e: int)
    requires
        0 < bits < INFINITY_BITS,
        nearest_decimal(d, e) == bits,
    ensures
        e <= shortest_exponent(bits),
{
    let q = multiples(bits, e);
    lemma_shortest_reads_back(bits);
    if d <= q {
        lemma_decimals_in_order(bits, e, d, q);
    } else {
        lemma_decimals_in_order(bits, e, q + 1, d);
    }
    assert(fits(bits, e));
}

} // verus!
