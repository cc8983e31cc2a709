//! Reading doubles from decimal text.
//!
//! The grammar, with letters in either case:
//!
//! ```text
//! Float  ::= Sign? ( 'inf' | 'infinity' | 'nan' | Number )
//! Number ::= ( Digit+ | Digit+ '.' Digit* | Digit* '.' Digit+ ) Exp?
//! Exp    ::= 'e' Sign? Digit+
//! ```
//!
//! A number gives the double nearest to its decimal value, ties to even.

use crate::float::{
    lemma_round_ratio_monotone, nearest, round_half_even, round_ratio, round_to_nearest, Float64,
    INFINITY_BITS, NAN_BITS, SIGN_BIT,
};
use crate::natural::Natural;
use vstd::arithmetic::power2::*;
use vstd::prelude::*;

verus! {

/// Whether a character is an ASCII decimal digit.
pub open spec fn is_digit(c: char) -> bool {
    '0' <= c && c <= '9'
}

/// The value of a digit.
pub open spec fn digit_value(c: char) -> nat {
    (c as u32 - 48) as nat
}

/// The number that a run of digits denotes.
pub open spec fn digits_value(s: Seq<char>) -> nat
    decreases s.len(),
{
    if s.len() == 0 {
        0
    } else {
        10 * digits_value(s.drop_last()) + digit_value(s.last())
    }
}

/// The first position at or after `i` that does not hold a digit.
pub open spec fn digits_end(s: Seq<char>, i: int) -> int
    decreases s.len() - i,
{
    if i < 0 || i >= s.len() || !is_digit(s[i]) {
        i
    } else {
        digits_end(s, i + 1)
    }
}

/// Ten to the power `n`.
pub open spec fn pow10(n: nat) -> nat
    decreases n,
{
    if n == 0 {
        1
    } else {
        10 * pow10((n - 1) as nat)
    }
}

/// The parts of a decimal number.
pub struct NumberParts {
    /// The digits before the point.
    pub whole: Seq<char>,
    /// The digits after the point.
    pub fraction: Seq<char>,
    /// The exponent.
    pub exponent: int,
}

/// The end of the digits after the point, where there is one at `a`.
pub open spec fn fraction_end(s: Seq<char>, a: int) -> int {
    if a < s.len() && s[a] == '.' {
        digits_end(s, a + 1)
    } else {
        a
    }
}

/// The digits after the point, where there is one at `a`.
pub open spec fn fraction_digits(s: Seq<char>, a: int) -> Seq<char> {
    if a < s.len() && s[a] == '.' {
        s.subrange(a + 1, digits_end(s, a + 1))
    } else {
        Seq::empty()
    }
}

/// The exponent written from `c` to the end.
pub open spec fn exponent_part(s: Seq<char>, c: int) -> Option<int> {
    let signed = c < s.len() && (s[c] == '-' || s[c] == '+');
    let start = if signed {
        c + 1
    } else {
        c
    };
    if start < s.len() && digits_end(s, start) == s.len() {
        let size = digits_value(s.subrange(start, s.len() as int)) as int;
        Some(
            if signed && s[c] == '-' {
                -size
            } else {
                size
            },
        )
    } else {
        None
    }
}

/// `Number` of the grammar.
pub open spec fn number_parts(s: Seq<char>) -> Option<NumberParts> {
    let a = digits_end(s, 0);
    let b = fraction_end(s, a);
    let whole = s.subrange(0, a);
    let fraction = fraction_digits(s, a);
    if whole.len() + fraction.len() == 0 {
        None
    } else if b == s.len() {
        Some(NumberParts { whole, fraction, exponent: 0 })
    } else if s[b] == 'e' || s[b] == 'E' {
        match exponent_part(s, b + 1) {
            Some(exponent) => Some(NumberParts { whole, fraction, exponent }),
            None => None,
        }
    } else {
        None
    }
}

/// The magnitude bits of the double nearest to `mantissa * 10^exponent`.
pub open spec fn nearest_decimal(mantissa: nat, exponent: int) -> nat {
    if exponent >= 0 {
        nearest(mantissa * pow10(exponent as nat) * pow2(1074), 1)
    } else {
        nearest(mantissa * pow2(1074), pow10((-exponent) as nat))
    }
}

/// Whether the text is `word` in either case, where `word` is in lower case.
pub open spec fn is_word(s: Seq<char>, word: Seq<char>) -> bool {
    s.len() == word.len() && forall|i: int|
        0 <= i < s.len() ==> (#[trigger] s[i] == word[i] || (s[i] as u32 + 32 == word[i] as u32
            && 'A' <= s[i] && s[i] <= 'Z'))
}

/// The magnitude bits that the text after the sign denotes.
pub open spec fn unsigned_float(s: Seq<char>) -> Option<nat> {
    if is_word(s, "inf"@) || is_word(s, "infinity"@) {
        Some(INFINITY_BITS as nat)
    } else if is_word(s, "nan"@) {
        Some(NAN_BITS as nat)
    } else {
        match number_parts(s) {
            Some(p) => Some(
                nearest_decimal(digits_value(p.whole + p.fraction), p.exponent - p.fraction.len()),
            ),
            None => None,
        }
    }
}

/// The double that the text denotes, if it is a `Float` of the grammar.
pub open spec fn float_of_text(s: Seq<char>) -> Option<Float64> {
    let signed = s.len() > 0 && (s[0] == '-' || s[0] == '+');
    let rest = if signed {
        s.drop_first()
    } else {
        s
    };
    match unsigned_float(rest) {
        Some(m) => Some(Float64::of_magnitude(signed && s[0] == '-', m)),
        None => None,
    }
}

pub proof fn lemma_pow10_positive(n: nat)
    ensures
        pow10(n) > 0,
    decreases n,
{
    if n > 0 {
        lemma_pow10_positive((n - 1) as nat);
    }
}

pub proof fn lemma_pow10_adds(a: nat, b: nat)
    ensures
        pow10(a + b) == pow10(a) * pow10(b),
    decreases a,
{
    if a > 0 {
        lemma_pow10_adds((a - 1) as nat, b);
        let p = pow10((a - 1) as nat);
        let q = pow10(b);
        assert(10 * (p * q) == (10 * p) * q) by (nonlinear_arith);
        assert((a - 1) as nat + b == (a + b - 1) as nat);
    } else {
        assert(pow10(0) * pow10(b) == pow10(b)) by (nonlinear_arith)
            requires
                pow10(0) == 1,
        ;
    }
}

/// `10^n` is at least `2^(3n)`.
pub proof fn lemma_pow10_lower(n: nat)
    ensures
        pow10(n) >= pow2(3 * n),
    decreases n,
{
    lemma2_to64();
    if n > 0 {
        let m = (n - 1) as nat;
        lemma_pow10_lower(m);
        lemma_pow2_adds(3 * m, 3);
        assert(3 * m + 3 == 3 * n);
    }
}

proof fn lemma_digits_bound(s: Seq<char>)
    requires
        forall|i: int| 0 <= i < s.len() ==> is_digit(#[trigger] s[i]),
    ensures
        digits_value(s) < pow10(s.len()),
    decreases s.len(),
{
    if s.len() > 0 {
        assert forall|i: int| 0 <= i < s.drop_last().len() implies is_digit(
            #[trigger] s.drop_last()[i],
        ) by {
            assert(s.drop_last()[i] == s[i]);
        }
        lemma_digits_bound(s.drop_last());
        assert(is_digit(s[s.len() - 1]));
    }
}

proof fn lemma_digits_end(s: Seq<char>, i: int)
    requires
        0 <= i <= s.len(),
    ensures
        i <= digits_end(s, i) <= s.len(),
        forall|j: int| i <= j < digits_end(s, i) ==> is_digit(#[trigger] s[j]),
    decreases s.len() - i,
{
    if i < s.len() && is_digit(s[i]) {
        lemma_digits_end(s, i + 1);
    }
}

proof fn lemma_ratio_overflows(num: nat, den: nat, j: nat)
    requires
        den > 0,
        num >= den * 0x10_0000_0000_0000 * pow2(j),
    ensures
        round_ratio(num, den) >= 0x10_0000_0000_0000 * (j + 1),
    decreases j,
{
    lemma2_to64();
    lemma_pow2_pos(j);
    assert(num >= den * 0x10_0000_0000_0000) by (nonlinear_arith)
        requires
            num >= den * 0x10_0000_0000_0000 * pow2(j),
            pow2(j) > 0,
    ;
    if j == 0 {
        lemma_round_ratio_monotone(den * 0x10_0000_0000_0000, num, den);
        let d = (den * 0x10_0000_0000_0000) as int;
        vstd::arithmetic::div_mod::lemma_fundamental_div_mod_converse(
            d,
            den as int,
            0x10_0000_0000_0000,
            0,
        );
        assert(round_ratio(d as nat, den) == 0x10_0000_0000_0000);
    } else {
        lemma_pow2_unfold(j);
        let p = pow2((j - 1) as nat);
        lemma_pow2_pos((j - 1) as nat);
        assert(den * 0x10_0000_0000_0000 * (2 * p) == (2 * den) * 0x10_0000_0000_0000 * p)
            by (nonlinear_arith);
        assert((2 * den) * 0x10_0000_0000_0000 * p >= (2 * den) * 0x10_0000_0000_0000)
            by (nonlinear_arith)
            requires
                p >= 1,
        ;
        lemma_ratio_overflows(num, 2 * den, (j - 1) as nat);
    }
}

proof fn lemma_decimal_overflows(mantissa: nat, exponent: int)
    requires
        mantissa > 0,
        exponent >= 400,
    ensures
        nearest_decimal(mantissa, exponent) == INFINITY_BITS,
{
    let p = pow10(exponent as nat);
    lemma_pow10_lower(exponent as nat);
    let u = pow2(1074);
    lemma_pow2_pos(1074);
    lemma_pow2_adds(1024, 1074);
    if 3 * exponent > 1024 {
        lemma_pow2_strictly_increases(1024, (3 * exponent) as nat);
    }
    lemma_pow2_adds(52, 2046);
    lemma2_to64_rest();
    assert(mantissa * p * u >= pow2(1024) * u) by (nonlinear_arith)
        requires
            mantissa >= 1,
            p >= pow2(1024),
            u > 0,
    ;
    assert(pow2(2098) == 0x10_0000_0000_0000 * pow2(2046));
    lemma_ratio_overflows(mantissa * p * u, 1, 2046);
}

proof fn lemma_decimal_vanishes(mantissa: nat, digits: nat, exponent: int)
    requires
        mantissa < pow10(digits),
        exponent < -(digits + 400),
    ensures
        nearest_decimal(mantissa, exponent) == 0,
{
    let n = (-exponent) as nat;
    let rest = (n - digits) as nat;
    lemma_pow10_adds(digits, rest);
    lemma_pow10_lower(rest);
    lemma_pow2_adds(1074, 1);
    lemma2_to64();
    lemma_pow2_strictly_increases(1075, 3 * rest);
    let u = pow2(1074);
    lemma_pow2_pos(1074);
    let a = pow10(digits);
    let b = pow10(rest);
    assert(2 * (mantissa * u) < a * b) by (nonlinear_arith)
        requires
            0 <= mantissa < a,
            b > 2 * u,
            u > 0,
    ;
    let num = mantissa * u;
    let den = pow10(n);
    vstd::arithmetic::div_mod::lemma_fundamental_div_mod_converse(num as int, den as int, 0, num as int);
    assert(round_half_even(num, den) == 0);
    assert(den * 0x20_0000_0000_0000 >= den);
}

fn is_digit_char(c: char) -> (r: bool)
    ensures
        r == is_digit(c),
{
    '0' <= c && c <= '9'
}

fn find_digits_end(s: &Vec<char>, start: usize) -> (r: usize)
    requires
        start <= s.len(),
    ensures
        r as int == digits_end(s@, start as int),
        start <= r <= s.len(),
{
    let mut i: usize = start;
    while i < s.len() && is_digit_char(s[i])
        invariant
            start <= i <= s.len(),
            digits_end(s@, start as int) == digits_end(s@, i as int),
        decreases s.len() - i,
    {
        i += 1;
    }
    i
}

/// Appends the digits from `start` to `end` to the decimal number in `n`.
fn read_digits(n: &mut Natural, s: &Vec<char>, start: usize, end: usize, before: Ghost<Seq<char>>)
    requires
        start <= end <= s.len(),
        forall|j: int| start <= j < end ==> is_digit(#[trigger] s@[j]),
        old(n)@ == digits_value(before@),
    ensures
        final(n)@ == digits_value(before@ + s@.subrange(start as int, end as int)),
{
    let mut i: usize = start;
    proof {
        assert(before@ + s@.subrange(start as int, i as int) =~= before@);
    }
    while i < end
        invariant
            start <= i <= end <= s.len(),
            forall|j: int| start <= j < end ==> is_digit(#[trigger] s@[j]),
            n@ == digits_value(before@ + s@.subrange(start as int, i as int)),
        decreases end - i,
    {
        let c = s[i];
        assert(is_digit(s@[i as int]));
        let d: u32 = c as u32 - 48;
        n.mul_small_plus(10, d);
        proof {
            let grown = before@ + s@.subrange(start as int, i + 1);
            assert(grown.drop_last() =~= before@ + s@.subrange(start as int, i as int));
            assert(grown.last() == c);
        }
        i += 1;
    }
}

/// The bound at which a written exponent stops to be read exactly.
const EXPONENT_LIMIT: i128 = 1_000_000_000_000_000_000_000_000_000_000;

/// Reads the digits from `start` to the end as an exponent. Beyond the limit
/// only the fact that it is beyond is kept.
fn read_exponent(s: &Vec<char>, start: usize) -> (r: i128)
    requires
        start <= s.len(),
        forall|j: int| start <= j < s.len() ==> is_digit(#[trigger] s@[j]),
    ensures
        0 <= r < 10 * EXPONENT_LIMIT + 10,
        r < EXPONENT_LIMIT ==> r == digits_value(s@.subrange(start as int, s.len() as int)),
        r >= EXPONENT_LIMIT ==> digits_value(s@.subrange(start as int, s.len() as int)) >= r,
{
    let mut i: usize = start;
    let mut e: i128 = 0;
    assert(s@.subrange(start as int, i as int) =~= Seq::empty());
    while i < s.len()
        invariant
            start <= i <= s.len(),
            0 <= e < 10 * EXPONENT_LIMIT + 10,
            forall|j: int| start <= j < s.len() ==> is_digit(#[trigger] s@[j]),
            e < EXPONENT_LIMIT ==> e == digits_value(s@.subrange(start as int, i as int)),
            e >= EXPONENT_LIMIT ==> digits_value(s@.subrange(start as int, i as int)) >= e,
        decreases s.len() - i,
    {
        let c = s[i];
        assert(is_digit(s@[i as int]));
        proof {
            let grown = s@.subrange(start as int, i + 1);
            assert(grown.drop_last() =~= s@.subrange(start as int, i as int));
            assert(grown.last() == c);
        }
        if e < EXPONENT_LIMIT {
            e = 10 * e + (c as u32 - 48) as i128;
        }
        i += 1;
    }
    e
}

/// The magnitude bits of the double nearest to `mantissa * 10^exponent`, where
/// the mantissa has at most `digits` digits.
fn round_decimal(mantissa: &Natural, digits: usize, exponent: i128) -> (r: u64)
    requires
        mantissa@ < pow10(digits as nat),
        -100 * EXPONENT_LIMIT < exponent < 100 * EXPONENT_LIMIT,
    ensures
        r as nat == nearest_decimal(mantissa@, exponent as int),
{
    if mantissa.is_zero() {
        proof {
            lemma_zero_decimal(exponent as int);
        }
        return 0;
    }
    if exponent >= 400 {
        proof {
            lemma_decimal_overflows(mantissa@, exponent as int);
        }
        return INFINITY_BITS;
    }
    if exponent < -(digits as i128 + 400) {
        proof {
            lemma_decimal_vanishes(mantissa@, digits as nat, exponent as int);
        }
        return 0;
    }
    let mut num = Natural::from_u64(0);
    num = num.plus(mantissa);
    let mut den = Natural::from_u64(1);
    if exponent >= 0 {
        let mut i: i128 = 0;
        proof {
            assert(mantissa@ * pow10(0) == mantissa@) by (nonlinear_arith)
                requires
                    pow10(0) == 1,
            ;
        }
        while i < exponent
            invariant
                0 <= i <= exponent,
                num@ == mantissa@ * pow10(i as nat),
            decreases exponent - i,
        {
            num.mul_small_plus(10, 0);
            proof {
                let m = mantissa@;
                let p = pow10(i as nat);
                assert((m * p) * 10 == m * (10 * p)) by (nonlinear_arith);
            }
            i += 1;
        }
    } else {
        let mut i: i128 = 0;
        while i < -exponent
            invariant
                0 <= i <= -exponent,
                exponent > -100 * EXPONENT_LIMIT,
                den@ == pow10(i as nat),
            decreases -exponent - i,
        {
            den.mul_small_plus(10, 0);
            i += 1;
        }
        proof {
            lemma_pow10_positive((-exponent) as nat);
        }
    }
    num.times_power_of_two(1074);
    round_to_nearest(&num, &den)
}

fn matches_word(s: &Vec<char>, word: &str) -> (r: bool)
    ensures
        r == is_word(s@, word@),
{
    let w = crate::text::chars_of(word);
    if s.len() != w.len() {
        return false;
    }
    let mut i: usize = 0;
    while i < s.len()
        invariant
            i <= s.len(),
            s.len() == w.len(),
            w@ == word@,
            forall|j: int|
                0 <= j < i ==> (#[trigger] s@[j] == w@[j] || (s@[j] as u32 + 32 == w@[j] as u32
                    && 'A' <= s@[j] && s@[j] <= 'Z')),
        decreases s.len() - i,
    {
        let c = s[i];
        let upper = 'A' <= c && c <= 'Z' && c as u32 + 32 == w[i] as u32;
        if c != w[i] && !upper {
            return false;
        }
        i += 1;
    }
    true
}

/// Reads the exponent from `c` to the end. Beyond the limit only the fact that it
/// is beyond is kept.
fn read_signed_exponent(s: &Vec<char>, c: usize) -> (r: Option<i128>)
    requires
        c <= s.len(),
    ensures
        match exponent_part(s@, c as int) {
            Some(e) => r is Some && near_exponent(r->0, e),
            None => r is None,
        },
{
    let signed = c < s.len() && (s[c] == '-' || s[c] == '+');
    let minus = c < s.len() && s[c] == '-';
    let start: usize = if signed {
        c + 1
    } else {
        c
    };
    if start >= s.len() {
        return None;
    }
    let end: usize = find_digits_end(s, start);
    if end != s.len() {
        return None;
    }
    proof {
        lemma_digits_end(s@, start as int);
    }
    let size: i128 = read_exponent(s, start);
    if minus {
        Some(-size)
    } else {
        Some(size)
    }
}

/// Whether an exponent is exact, or beyond the limit as the true one is.
spec fn near_exponent(read: i128, exponent: int) -> bool {
    &&& -10 * EXPONENT_LIMIT - 10 < read < 10 * EXPONENT_LIMIT + 10
    &&& read == exponent || (read >= EXPONENT_LIMIT && exponent >= EXPONENT_LIMIT) || (read
        <= -EXPONENT_LIMIT && exponent <= -EXPONENT_LIMIT)
}

/// Beyond the limit the exact exponent does not matter.
proof fn lemma_far_exponents(mantissa: nat, digits: nat, shift: nat, read: i128, exponent: int)
    requires
        mantissa < pow10(digits),
        digits <= 0x2_0000_0000_0000_0000,
        shift <= 0x1_0000_0000_0000_0000,
        near_exponent(read, exponent),
    ensures
        nearest_decimal(mantissa, read - shift) == nearest_decimal(mantissa, exponent - shift),
{
    if mantissa == 0 {
        lemma_zero_decimal(read - shift);
        lemma_zero_decimal(exponent - shift);
    } else if read != exponent {
        if exponent > 0 {
            lemma_decimal_overflows(mantissa, read - shift);
            lemma_decimal_overflows(mantissa, exponent - shift);
        } else {
            lemma_decimal_vanishes(mantissa, digits, read - shift);
            lemma_decimal_vanishes(mantissa, digits, exponent - shift);
        }
    }
}

/// The mantissa of a number: its digits before and after the point.
fn read_mantissa(s: &Vec<char>, a: usize, first: usize, b: usize) -> (r: Natural)
    requires
        a <= first <= b <= s.len(),
        forall|j: int| 0 <= j < a ==> is_digit(#[trigger] s@[j]),
        forall|j: int| first <= j < b ==> is_digit(#[trigger] s@[j]),
    ensures
        r@ == digits_value(s@.subrange(0, a as int) + s@.subrange(first as int, b as int)),
        r@ < pow10((a + (b - first)) as nat),
{
    let ghost whole = s@.subrange(0, a as int);
    let ghost fraction = s@.subrange(first as int, b as int);
    let mut mantissa = Natural::from_u64(0);
    read_digits(&mut mantissa, s, 0, a, Ghost(Seq::empty()));
    assert(Seq::<char>::empty() + s@.subrange(0, a as int) =~= whole);
    read_digits(&mut mantissa, s, first, b, Ghost(whole));
    proof {
        let all = whole + fraction;
        assert forall|i: int| 0 <= i < all.len() implies is_digit(#[trigger] all[i]) by {
            if i < whole.len() {
                assert(all[i] == s@[i]);
            } else {
                assert(all[i] == s@[first + (i - whole.len())]);
            }
        }
        lemma_digits_bound(all);
    }
    mantissa
}

/// `Number` of the grammar, read and rounded.
fn read_number(s: &Vec<char>) -> (r: Option<u64>)
    ensures
        match number_parts(s@) {
            Some(p) => r is Some && r->0 as nat == nearest_decimal(
                digits_value(p.whole + p.fraction),
                p.exponent - p.fraction.len(),
            ),
            None => r is None,
        },
{
    let a: usize = find_digits_end(s, 0);
    let has_point = a < s.len() && s[a] == '.';
    let first: usize = if has_point {
        a + 1
    } else {
        a
    };
    let b: usize = if has_point {
        find_digits_end(s, first)
    } else {
        a
    };
    let ghost fraction = s@.subrange(first as int, b as int);
    proof {
        lemma_digits_end(s@, 0);
        if has_point {
            lemma_digits_end(s@, first as int);
        }
        assert(fraction =~= fraction_digits(s@, a as int));
    }
    if a == 0 && b == first {
        return None;
    }
    let exponent: i128 = if b < s.len() {
        if s[b] != 'e' && s[b] != 'E' {
            return None;
        }
        match read_signed_exponent(s, b + 1) {
            Some(e) => e,
            None => {
                return None;
            },
        }
    } else {
        0
    };
    let mantissa = read_mantissa(s, a, first, b);
    let digits: usize = a + (b - first);
    let scale: i128 = exponent - (b - first) as i128;
    proof {
        lemma_far_exponents(
            mantissa@,
            digits as nat,
            fraction.len(),
            exponent,
            number_parts(s@)->0.exponent,
        );
    }
    Some(round_decimal(&mantissa, digits, scale))
}

pub proof fn lemma_zero_decimal(e: int)
    ensures
        nearest_decimal(0, e) == 0,
{
    let den = if e >= 0 {
        1
    } else {
        pow10((-e) as nat)
    };
    lemma_pow10_positive((-e) as nat);
    assert(0 * pow10(e as nat) * pow2(1074) == 0) by (nonlinear_arith);
    assert(0 * pow2(1074) == 0);
    vstd::arithmetic::div_mod::lemma_fundamental_div_mod_converse(0, den as int, 0, 0);
    assert(den * 0x20_0000_0000_0000 > 0);
    assert(round_ratio(0, den) == 0);
}

/// Reads a double from decimal text.
pub fn parse_float(text: &str) -> (r: Option<Float64>)
    ensures
        r == float_of_text(text@),
{
    let s = crate::text::chars_of(text);
    let signed = s.len() > 0 && (s[0] == '-' || s[0] == '+');
    let minus = s.len() > 0 && s[0] == '-';
    let mut rest: Vec<char> = Vec::new();
    let mut i: usize = if signed {
        1
    } else {
        0
    };
    let ghost first = i;
    while i < s.len()
        invariant
            first <= i <= s.len() || i == first,
            first <= s.len(),
            rest@ =~= s@.subrange(first as int, i as int),
        decreases s.len() - i,
    {
        rest.push(s[i]);
        i += 1;
    }
    proof {
        assert(rest@ =~= if signed {
            s@.drop_first()
        } else {
            s@
        });
    }
    let magnitude: u64 = if matches_word(&rest, "inf") || matches_word(&rest, "infinity") {
        INFINITY_BITS
    } else if matches_word(&rest, "nan") {
        NAN_BITS
    } else {
        match read_number(&rest) {
            Some(m) => m,
            None => {
                return None;
            },
        }
    };
    let bits: u64 = if minus {
        SIGN_BIT + magnitude
    } else {
        magnitude
    };
    Some(Float64::from_bits(bits))
}

} // verus!
