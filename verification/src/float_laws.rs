//! A double that is written as text is read back.

use crate::float::{Float64, INFINITY_BITS, NAN_BITS, SIGN_BIT};
use crate::float_display::{
    chosen, coarsest, fits, float_text, lemma_fine_enough, lemma_size, lemma_too_coarse,
    magnitude_text, plain, reads_back, shortest_digits, shortest_exponent, zeros,
};
use crate::float_text::{
    digits_end, digits_value, float_of_text, is_digit, is_word, lemma_zero_decimal, nearest_decimal,
    pow10, unsigned_float,
};
use crate::number_text::{all_digits, lemma_numeral};
use vstd::arithmetic::power2::pow2;
use vstd::prelude::*;

verus! {

/// Going down from a unit above which none fits, a coarsest one is found.
proof fn lemma_search(bits: nat, e: int)
    requires
        0 < bits < INFINITY_BITS,
        -1074 <= e,
        forall|f: int| f > e ==> !#[trigger] fits(bits, f),
    ensures
        exists|k: int| #[trigger] coarsest(bits, k),
    decreases e + 1074,
{
    if fits(bits, e) {
        assert(coarsest(bits, e));
    } else {
        if e == -1074 {
            lemma_fine_enough(bits);
        }
        lemma_search(bits, e - 1);
    }
}

/// The shortest decimal of a double reads back to it.
pub proof fn lemma_shortest_reads_back(bits: nat)
    requires
        0 < bits < INFINITY_BITS,
    ensures
        reads_back(bits, chosen(bits, shortest_exponent(bits)), shortest_exponent(bits)),
        coarsest(bits, shortest_exponent(bits)),
{
    lemma_size(bits);
    assert forall|f: int| f > 400 implies !#[trigger] fits(bits, f) by {
        lemma_too_coarse(bits, 400, f);
    }
    lemma_search(bits, 400);
    let e = shortest_exponent(bits);
    assert(coarsest(bits, e));
    assert(fits(bits, e));
}

/// Where a run of digits ends.
pub proof fn lemma_run_ends(s: Seq<char>, i: int, j: int)
    requires
        0 <= i <= j <= s.len(),
        forall|k: int| i <= k < j ==> is_digit(#[trigger] s[k]),
        j < s.len() ==> !is_digit(s[j]),
    ensures
        digits_end(s, i) == j,
    decreases j - i,
{
    if i < j {
        lemma_run_ends(s, i + 1, j);
    }
}

/// Zeros behind digits multiply by powers of ten.
proof fn lemma_zeros_behind(s: Seq<char>, n: nat)
    ensures
        digits_value(s + zeros(n as int)) == digits_value(s) * pow10(n),
    decreases n,
{
    let v = digits_value(s);
    if n == 0 {
        assert(s + zeros(0) =~= s);
        assert(v * 1 == v);
    } else {
        let m = (n - 1) as nat;
        lemma_zeros_behind(s, m);
        let t = s + zeros(n as int);
        assert(t.drop_last() =~= s + zeros(m as int));
        assert(t.last() == '0');
        let p = pow10(m);
        assert(10 * (v * p) == v * (10 * p)) by (nonlinear_arith);
    }
}

/// Zeros before digits change nothing.
pub proof fn lemma_zeros_before(n: nat, s: Seq<char>)
    ensures
        digits_value(zeros(n as int) + s) == digits_value(s),
    decreases s.len(), n,
{
    let t = zeros(n as int) + s;
    if s.len() > 0 {
        lemma_zeros_before(n, s.drop_last());
        assert(t.drop_last() =~= zeros(n as int) + s.drop_last());
        assert(t.last() == s.last());
    } else if n > 0 {
        lemma_zeros_before((n - 1) as nat, s);
        assert(t.drop_last() =~= zeros(n - 1) + s);
        assert(t.last() == '0');
    } else {
        assert(t =~= s);
    }
}

/// A text that starts with a digit is none of the words.
pub proof fn lemma_no_word(s: Seq<char>)
    requires
        s.len() > 0,
        is_digit(s[0]),
    ensures
        !is_word(s, "inf"@),
        !is_word(s, "infinity"@),
        !is_word(s, "nan"@),
{
    reveal_strlit("inf");
    reveal_strlit("infinity");
    reveal_strlit("nan");
}

/// Whether a text consists of digits with a point at a position behind the first and
/// before the last of them, or of digits alone where the position is its end.
pub open spec fn parted_at(s: Seq<char>, point: int) -> bool {
    &&& 0 < point <= s.len()
    &&& point != s.len() - 1
    &&& point < s.len() ==> s[point] == '.'
    &&& forall|k: int| 0 <= k < s.len() && k != point ==> is_digit(#[trigger] s[k])
}

/// Digits times a power of ten, written without an exponent, are read as that.
pub proof fn lemma_plain_read(digits: Seq<char>, e: int)
    requires
        all_digits(digits),
    ensures
        unsigned_float(plain(digits, e)) == Some(nearest_decimal(digits_value(digits), e)),
        is_digit(plain(digits, e)[0]),
        exists|point: int| #[trigger] parted_at(plain(digits, e), point),
{
    let s = plain(digits, e);
    let d = digits_value(digits);
    if e >= 0 {
        assert forall|k: int| 0 <= k < s.len() implies is_digit(#[trigger] s[k]) by {
            if k < digits.len() {
                assert(s[k] == digits[k]);
            }
        }
        assert(parted_at(s, s.len() as int));
        lemma_run_ends(s, 0, s.len() as int);
        lemma_zeros_behind(digits, e as nat);
        assert(s.subrange(0, s.len() as int) + Seq::<char>::empty() =~= s);
        let p = pow10(e as nat);
        let b = pow2(1074);
        assert(pow10(0) == 1);
        assert((d * p) * 1 * b == d * p * b) by (nonlinear_arith);
    } else {
        let point = if digits.len() > -e {
            digits.len() + e
        } else {
            1
        };
        let whole = s.take(point);
        let fraction = s.skip(point + 1);
        if digits.len() > -e {
            assert(whole =~= digits.take(point));
            assert(fraction =~= digits.skip(point));
            assert(whole + fraction =~= digits);
        } else {
            let k = (-e - digits.len()) as nat;
            assert(whole =~= zeros(1));
            assert(fraction =~= zeros(k as int) + digits);
            assert(whole + fraction =~= zeros((k + 1) as int) + digits);
            lemma_zeros_before((k + 1) as nat, digits);
        }
        assert(s[point] == '.');
        assert forall|k: int| 0 <= k < s.len() && k != point implies is_digit(#[trigger] s[k]) by {
            if k < point {
                assert(s[k] == whole[k]);
            } else {
                assert(s[k] == fraction[k - point - 1]);
            }
            if digits.len() > -e {
                let j = if k < point { k } else { k - 1 };
                assert(s[k] == digits[j]);
            } else if k >= 2 + (-e - digits.len()) {
                assert(s[k] == digits[k - 2 - (-e - digits.len())]);
            }
        }
        assert(parted_at(s, point));
        lemma_run_ends(s, 0, point);
        lemma_run_ends(s, point + 1, s.len() as int);
        assert(s.subrange(0, point) =~= whole);
        assert(s.subrange(point + 1, s.len() as int) =~= fraction);
    }
    lemma_no_word(s);
}

/// The text of a magnitude is read as that magnitude.
proof fn lemma_magnitude_read(bits: nat)
    requires
        bits <= INFINITY_BITS,
    ensures
        unsigned_float(magnitude_text(bits)) == Some(bits),
        magnitude_text(bits).len() > 0,
        magnitude_text(bits)[0] != '-',
        magnitude_text(bits)[0] != '+',
        bits < INFINITY_BITS ==> exists|point: int| #[trigger]
            parted_at(magnitude_text(bits), point),
{
    reveal_strlit("inf");
    reveal_strlit("0");
    if bits == INFINITY_BITS {
    } else if bits == 0 {
        let s = "0"@;
        assert(parted_at(s, 1));
        lemma_run_ends(s, 0, 1);
        assert(s.subrange(0, 1) + Seq::<char>::empty() =~= s);
        reveal_with_fuel(digits_value, 2);
        assert(s.drop_last() =~= Seq::empty());
        lemma_zero_decimal(0);
        lemma_no_word(s);
    } else {
        let e = shortest_exponent(bits);
        lemma_shortest_reads_back(bits);
        lemma_numeral(chosen(bits, e));
        lemma_plain_read(shortest_digits(bits), e);
    }
}

/// A double that is written as text is read back as the same double; what is not a
/// number is read back as not a number.
pub proof fn law_double_reads_back(x: Float64)
    ensures
        !x.nan() ==> float_of_text(float_text(x)) == Some(x),
        x.nan() ==> (float_of_text(float_text(x)) matches Some(y) && y.nan()),
{
    let s = float_text(x);
    if x.nan() {
        reveal_strlit("NaN");
        reveal_strlit("nan");
        reveal_strlit("inf");
        reveal_strlit("infinity");
        assert(is_word(s, "nan"@));
        assert(!is_word(s, "inf"@));
        Float64::lemma_of_bits(NAN_BITS);
    } else {
        lemma_magnitude_read(x.magnitude());
        let y = Float64::of_magnitude(x.negative(), x.magnitude());
        if x.negative() {
            reveal_strlit("-");
            assert(s[0] == '-');
            assert(s.drop_first() =~= magnitude_text(x.magnitude()));
            Float64::lemma_of_bits((SIGN_BIT + x.magnitude()) as u64);
        } else {
            Float64::lemma_of_bits(x.magnitude() as u64);
        }
        assert(y.spec_bits() == x.spec_bits());
        y.lemma_same_bits(x);
    }
}

/// The text of a finite double is its sign, if it has one, and digits with at most one
/// point among them.
pub proof fn lemma_double_text(x: Float64) -> (point: int)
    requires
        x.finite(),
    ensures
        parted_at(magnitude_text(x.magnitude()), point),
        float_text(x) == (if x.negative() {
            seq!['-'] + magnitude_text(x.magnitude())
        } else {
            magnitude_text(x.magnitude())
        }),
{
    lemma_magnitude_read(x.magnitude());
    reveal_strlit("-");
    let m = magnitude_text(x.magnitude());
    if x.negative() {
        assert(float_text(x) =~= seq!['-'] + m);
    } else {
        assert(float_text(x) =~= m);
    }
    choose|point: int| #[trigger] parted_at(m, point)
}

} // verus!
