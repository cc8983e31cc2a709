//! Writing doubles as decimal text.
//!
//! The text of a double is the shortest decimal that reads back to it; of the
//! shortest ones, the one nearest to it.

use crate::float::{
    lemma_round_ratio_common, lemma_round_ratio_monotone, lemma_round_units, nearest, round_ratio,
    round_to_nearest, units, units_of, Float64, INFINITY_BITS, SIGN_BIT,
};
use crate::float_text::{lemma_pow10_lower, lemma_pow10_positive, nearest_decimal, pow10};
use crate::natural::Natural;
use crate::text::decimal;
use vstd::arithmetic::div_mod::*;
use vstd::arithmetic::power::*;
use vstd::arithmetic::power2::*;
use vstd::prelude::*;
use vstd::string::StringExecFns;

verus! {

/// A double counted in units of `10^e`: the numerator.
pub open spec fn scaled_num(bits: nat, e: int) -> nat {
    if e >= 0 {
        units(bits)
    } else {
        units(bits) * pow10((-e) as nat)
    }
}

/// A double counted in units of `10^e`: the denominator.
pub open spec fn scaled_den(e: int) -> nat {
    if e >= 0 {
        pow2(1074) * pow10(e as nat)
    } else {
        pow2(1074)
    }
}

/// The whole multiples of `10^e` in a double.
pub open spec fn multiples(bits: nat, e: int) -> nat {
    scaled_num(bits, e) / scaled_den(e)
}

/// Whether `d * 10^e` reads back to the double.
pub open spec fn reads_back(bits: nat, d: nat, e: int) -> bool {
    nearest_decimal(d, e) == bits
}

/// Whether one of the two multiples of `10^e` around a double reads back to it.
pub open spec fn fits(bits: nat, e: int) -> bool {
    reads_back(bits, multiples(bits, e), e) || reads_back(bits, multiples(bits, e) + 1, e)
}

/// Whether `10^e` is the coarsest unit of which a multiple reads back to the
/// double.
pub open spec fn coarsest(bits: nat, e: int) -> bool {
    fits(bits, e) && forall|f: int| f > e ==> !#[trigger] fits(bits, f)
}

/// The multiple of `10^e` to write: the one that reads back, or the nearer one
/// of two.
pub open spec fn chosen(bits: nat, e: int) -> nat {
    let q = multiples(bits, e);
    let r = scaled_num(bits, e) % scaled_den(e);
    if !reads_back(bits, q, e) {
        q + 1
    } else if !reads_back(bits, q + 1, e) {
        q
    } else if 2 * r >= scaled_den(e) {
        q + 1
    } else {
        q
    }
}

/// The exponent of the coarsest unit.
pub open spec fn shortest_exponent(bits: nat) -> int {
    choose|e: int| #[trigger] coarsest(bits, e)
}

/// The digits of the shortest decimal.
pub open spec fn shortest_digits(bits: nat) -> Seq<char> {
    decimal(chosen(bits, shortest_exponent(bits)))
}

pub proof fn lemma_coarsest_unique(bits: nat, e: int, f: int)
    requires
        coarsest(bits, e),
        coarsest(bits, f),
    ensures
        e == f,
{
    if e < f {
        assert(!fits(bits, f));
    } else if f < e {
        assert(!fits(bits, e));
    }
}

/// Units are not empty.
pub proof fn lemma_den_positive(e: int)
    ensures
        scaled_den(e) > 0,
{
    lemma_pow2_pos(1074);
    if e >= 0 {
        lemma_pow10_positive(e as nat);
        let a = pow2(1074);
        let b = pow10(e as nat);
        assert(a * b > 0) by (nonlinear_arith)
            requires
                a > 0,
                b > 0,
        ;
    }
}

/// Twice a double is read as a larger one.
proof fn lemma_double_larger(bits: nat)
    requires
        0 < bits < INFINITY_BITS,
    ensures
        nearest(2 * units(bits), 1) > bits,
{
    lemma_round_units(bits);
    lemma_round_ratio_common(units(bits), 1, 2);
    if 2 * units(bits) >= 0x20_0000_0000_0000 {
        assert(round_ratio(2 * units(bits), 1) == 0x10_0000_0000_0000 + round_ratio(
            2 * units(bits),
            2,
        ));
    } else {
        assert(units(bits) < 0x10_0000_0000_0000);
        if bits >= 0x20_0000_0000_0000 {
            crate::float::lemma_units_monotone(0x1f_ffff_ffff_ffff, bits);
        }
        assert(units(bits) == bits);
        let n = 2 * bits;
        assert(n / 1 == n && n % 1 == 0);
    }
}

proof fn lemma_zero_reads_zero(e: int)
    ensures
        nearest_decimal(0, e) == 0,
{
    crate::float_text::lemma_zero_decimal(e);
}

/// No multiple of a unit above a double's size reads back to it.
pub proof fn lemma_too_coarse(bits: nat, k: int, f: int)
    requires
        0 < bits < INFINITY_BITS,
        scaled_num(bits, k) < scaled_den(k),
        f > k,
    ensures
        !fits(bits, f),
{
    // The double is below 10^k, so ten times it is below 10^f.
    lemma_den_positive(f);
    lemma_den_positive(k);
    let u = units(bits);
    let b = pow2(1074);
    lemma_pow2_pos(1074);
    assert(10 * scaled_num(bits, f) < scaled_den(f)) by {
        lemma_below(bits, k, f);
    }
    lemma_fundamental_div_mod_converse(
        scaled_num(bits, f) as int,
        scaled_den(f) as int,
        0,
        scaled_num(bits, f) as int,
    );
    assert(multiples(bits, f) == 0);
    lemma_zero_reads_zero(f);
    // 10^f is at least twice the double.
    lemma_double_larger(bits);
    if f >= 0 {
        let p = pow10(f as nat);
        assert(1 * p * b == b * p) by (nonlinear_arith);
        lemma_round_ratio_monotone(2 * u, 1 * p * b, 1);
    } else {
        let p = pow10((-f) as nat);
        lemma_pow10_positive((-f) as nat);
        assert(1 * b == b);
        assert(p * (2 * u) == 2 * (u * p)) by (nonlinear_arith);
        lemma_round_ratio_common(2 * u, 1, p);
        assert(p * 1 == p);
        lemma_round_ratio_monotone(p * (2 * u), b, p);
    }
}

proof fn lemma_below(bits: nat, k: int, f: int)
    requires
        scaled_num(bits, k) < scaled_den(k),
        f > k,
    ensures
        10 * scaled_num(bits, f) < scaled_den(f),
    decreases f - k,
{
    let u = units(bits);
    let b = pow2(1074);
    let g = f - 1;
    lemma_pow10_positive(g as nat);
    lemma_pow10_positive((-g) as nat);
    if g > k {
        lemma_below(bits, k, g);
    }
    assert(scaled_num(bits, g) < scaled_den(g));
    if g >= 0 {
        let p = pow10(g as nat);
        assert((f as nat - 1) as nat == g as nat);
        assert(pow10(f as nat) == 10 * p);
        assert(b * (10 * p) == 10 * (b * p)) by (nonlinear_arith);
    } else {
        let p = pow10((-f) as nat);
        if f < 0 {
            assert(pow10((-g) as nat) == 10 * p);
            assert(u * (10 * p) == 10 * (u * p)) by (nonlinear_arith);
        } else {
            assert(f == 0);
            assert(pow10(1) == 10) by {
                reveal_with_fuel(pow10, 2);
            }
            assert(b * pow10(0) == b) by (nonlinear_arith)
                requires
                    pow10(0) == 1,
            ;
            assert(u * pow10(1) == 10 * u) by (nonlinear_arith)
                requires
                    pow10(1) == 10,
            ;
            assert((-g) as nat == 1);
        }
    }
}

/// In units of `10^-1074` every double is a whole number.
pub proof fn lemma_fine_enough(bits: nat)
    requires
        bits < INFINITY_BITS,
    ensures
        fits(bits, -1074),
{
    let u = units(bits);
    let b = pow2(1074);
    let t = pow10(1074);
    lemma_pow2_pos(1074);
    lemma_pow10_positive(1074);
    lemma_two_divides_ten(1074);
    let c = pow5(1074);
    assert(u * (b * c) == (u * c) * b) by (nonlinear_arith);
    lemma_fundamental_div_mod_converse((u * t) as int, b as int, (u * c) as int, 0);
    assert(multiples(bits, -1074) == u * c);
    assert((u * c) * b == t * u) by (nonlinear_arith)
        requires
            t == b * c,
    ;
    lemma_round_ratio_common(u, 1, t);
    lemma_round_units(bits);
    assert(t * 1 == t);
}

spec fn pow5(n: nat) -> nat
    decreases n,
{
    if n == 0 {
        1
    } else {
        5 * pow5((n - 1) as nat)
    }
}

proof fn lemma_two_divides_ten(n: nat)
    ensures
        pow10(n) == pow2(n) * pow5(n),
    decreases n,
{
    lemma2_to64();
    if n > 0 {
        let m = (n - 1) as nat;
        lemma_two_divides_ten(m);
        lemma_pow2_unfold(n);
        let a = pow2(m);
        let c = pow5(m);
        assert(10 * (a * c) == (2 * a) * (5 * c)) by (nonlinear_arith);
    } else {
        assert(pow2(0) * pow5(0) == 1) by (nonlinear_arith)
            requires
                pow2(0) == 1,
                pow5(0) == 1,
        ;
    }
}

/// A double is below `10^400`.
pub proof fn lemma_size(bits: nat)
    requires
        bits < INFINITY_BITS,
    ensures
        scaled_num(bits, 400) < scaled_den(400),
{
    let b = pow2(1074);
    lemma_pow2_pos(1074);
    lemma_pow10_lower(400);
    lemma_units_upper(bits);
    lemma_pow2_adds(1074, 1200);
    lemma_pow2_strictly_increases(2098, 2274);
    let p = pow10(400);
    assert(b * p >= b * pow2(1200)) by (nonlinear_arith)
        requires
            p >= pow2(1200),
    ;
}

proof fn lemma_units_upper(bits: nat)
    requires
        bits < INFINITY_BITS,
    ensures
        units(bits) <= pow2(2098),
{
    lemma2_to64_rest();
    let top = (INFINITY_BITS) as nat;
    crate::float::lemma_units_monotone(bits, top);
    crate::float::lemma_units_shift(top);
    assert(top / 0x10_0000_0000_0000 == 2047);
    assert(top % 0x10_0000_0000_0000 == 0);
    lemma_pow2_adds(52, 2046);
}

/// Reads `d * 10^e`.
fn read_decimal(d: &Natural, e: i32) -> (r: u64)
    requires
        -2000 < e < 2000,
    ensures
        r as nat == nearest_decimal(d@, e as int),
{
    let mut num = d.copy();
    let mut den = Natural::from_u64(1);
    if e >= 0 {
        raise(&mut num, e as u32);
    } else {
        raise(&mut den, (-e) as u32);
        proof {
            let p = pow10((-e) as nat);
            lemma_pow10_positive((-e) as nat);
            assert(1 * p == p);
        }
    }
    num.times_power_of_two(1074);
    round_to_nearest(&num, &den)
}

/// Multiplies by `10^n`.
pub fn raise(x: &mut Natural, n: u32)
    ensures
        final(x)@ == old(x)@ * pow10(n as nat),
{
    let ghost start = x@;
    let mut i: u32 = 0;
    proof {
        assert(start * pow10(0) == start) by (nonlinear_arith)
            requires
                pow10(0) == 1,
        ;
    }
    while i < n
        invariant
            i <= n,
            start == old(x)@,
            x@ == start * pow10(i as nat),
        decreases n - i,
    {
        x.mul_small_plus(10, 0);
        proof {
            let p = pow10(i as nat);
            assert((start * p) * 10 == start * (10 * p)) by (nonlinear_arith);
        }
        i += 1;
    }
}

proof fn lemma_ten_to(n: nat)
    ensures
        pow10(n) == pow(10, n),
    decreases n,
{
    reveal(pow);
    if n > 0 {
        lemma_ten_to((n - 1) as nat);
    }
}

proof fn lemma_power_keeps_order(a: nat, b: nat, q: nat)
    requires
        a <= b,
    ensures
        0 <= pow(a as int, q) <= pow(b as int, q),
        a < b && q > 0 ==> pow(a as int, q) < pow(b as int, q),
    decreases q,
{
    reveal(pow);
    if q > 0 {
        let m = (q - 1) as nat;
        lemma_power_keeps_order(a, b, m);
        let x = pow(a as int, m);
        let y = pow(b as int, m);
        assert(0 <= a * x <= b * y) by (nonlinear_arith)
            requires
                a <= b,
                0 <= x <= y,
        ;
        if a < b {
            lemma_pow_positive(b as int, m);
            assert(a * x < b * y) by (nonlinear_arith)
                requires
                    a < b,
                    0 <= x <= y,
                    y > 0,
            ;
        }
    }
}

/// `2^485` is below `10^146`, by a little.
proof fn lemma_two_below_ten()
    ensures
        pow(2, 485) <= pow(10, 146),
{
    let a: int = 0x2_0000_0000_0000_0000_0000_0000int;
    let b: int = 100000000000000000000000000000int;
    assert(pow(2, 97) == a) by {
        lemma2_to64();
        lemma2_to64_rest();
        lemma_pow2(97);
        lemma_pow2_adds(64, 33);
    }
    assert(pow(10, 29) == b) by {
        assert(pow(10, 5) == 100000) by {
            reveal_with_fuel(pow, 6);
        }
        assert(pow(10, 4) == 10000) by {
            reveal_with_fuel(pow, 5);
        }
        lemma_pow_multiplies(10, 5, 5);
        let c: int = 100000;
        assert(pow(c, 5) == 10000000000000000000000000int) by {
            reveal_with_fuel(pow, 6);
        }
        lemma_pow_adds(10, 25, 4);
    }
    lemma_pow_multiplies(2, 97, 5);
    lemma_pow_multiplies(10, 29, 5);
    lemma_pow_adds(10, 145, 1);
    lemma_pow1(10);
    assert(pow(a, 5) == a * (a * (a * (a * a)))) by {
        reveal_with_fuel(pow, 6);
    }
    assert(pow(b, 5) == b * (b * (b * (b * b)))) by {
        reveal_with_fuel(pow, 6);
    }
}

/// `10^59` is below `2^196`, by a little.
proof fn lemma_ten_below_two()
    ensures
        pow(10, 59) <= pow(2, 196),
{
    let a: int = 0x2_0000_0000_0000int;
    let b: int = 1000000000000000int;
    assert(pow(2, 49) == a) by {
        lemma2_to64();
        lemma2_to64_rest();
        lemma_pow2(49);
    }
    assert(pow(10, 15) == b) by {
        assert(pow(10, 5) == 100000) by {
            reveal_with_fuel(pow, 6);
        }
        lemma_pow_adds(10, 5, 5);
        lemma_pow_adds(10, 10, 5);
    }
    lemma_pow_multiplies(2, 49, 4);
    lemma_pow_multiplies(10, 15, 4);
    lemma_pow_adds(10, 59, 1);
    lemma_pow1(10);
    assert(pow(a, 4) == a * (a * (a * a))) by {
        reveal_with_fuel(pow, 5);
    }
    assert(pow(b, 4) == b * (b * (b * b))) by {
        reveal_with_fuel(pow, 5);
    }
}

/// `2^n` is at most `10^k` where `n / k` is at most `485 / 146`.
proof fn lemma_two_at_most_ten(n: nat, k: nat)
    requires
        146 * n <= 485 * k,
    ensures
        pow2(n) <= pow10(k),
{
    lemma_ten_to(k);
    lemma_pow2(n);
    lemma_pow_positive(2, n);
    lemma_pow_positive(10, k);
    lemma_pow_positive(2, 485);
    lemma_pow_positive(10, 146);
    lemma_two_below_ten();
    lemma_pow_multiplies(2, n, 485);
    lemma_pow_multiplies(2, 485, n);
    lemma_power_keeps_order(pow(2, 485) as nat, pow(10, 146) as nat, n);
    lemma_pow_multiplies(10, 146, n);
    lemma_pow_increases(10, 146 * n, 485 * k);
    lemma_pow_multiplies(10, k, 485);
    assert(n * 485 == 485 * n && k * 485 == 485 * k);
    if pow2(n) > pow10(k) {
        lemma_power_keeps_order(pow10(k), pow2(n), 485);
    }
}

/// `10^k` is at most `2^n` where `n / k` is at least `196 / 59`.
proof fn lemma_ten_at_most_two(k: nat, n: nat)
    requires
        196 * k <= 59 * n,
    ensures
        pow10(k) <= pow2(n),
{
    lemma_ten_to(k);
    lemma_pow2(n);
    lemma_pow_positive(2, n);
    lemma_pow_positive(10, k);
    lemma_pow_positive(2, 196);
    lemma_pow_positive(10, 59);
    lemma_ten_below_two();
    lemma_pow_multiplies(10, k, 196);
    lemma_pow_increases(10, 196 * k, 59 * n);
    lemma_pow_multiplies(10, 59, n);
    lemma_power_keeps_order(pow(10, 59) as nat, pow(2, 196) as nat, n);
    lemma_pow_multiplies(2, 196, n);
    lemma_pow_multiplies(2, n, 196);
    assert(n * 196 == 196 * n && k * 196 == 196 * k);
    if pow10(k) > pow2(n) {
        lemma_power_keeps_order(pow2(n), pow10(k), 196);
    }
}

/// A double is below the power of two behind its exponent field, and, with a
/// leading one, at least half of it.
proof fn lemma_binary_size(bits: nat)
    ensures
        units(bits) < pow2(bits / 0x10_0000_0000_0000 + 52),
        bits >= 0x10_0000_0000_0000 ==> pow2((bits / 0x10_0000_0000_0000 + 51) as nat) <= units(
            bits,
        ),
{
    lemma2_to64_rest();
    let field = bits / 0x10_0000_0000_0000;
    if bits >= 0x10_0000_0000_0000 {
        let low = bits % 0x10_0000_0000_0000;
        let m = low + 0x10_0000_0000_0000;
        let p = pow2((field - 1) as nat);
        crate::float::lemma_units_shift(bits);
        lemma_pow2_adds((field - 1) as nat, 52);
        lemma_pow2_adds((field - 1) as nat, 53);
        lemma_pow2_pos((field - 1) as nat);
        assert(0x10_0000_0000_0000 * p <= m * p < 0x20_0000_0000_0000 * p) by (nonlinear_arith)
            requires
                0x10_0000_0000_0000 <= m < 0x20_0000_0000_0000,
                p > 0,
        ;
    }
}

/// The power of ten by which the power of two `2^n` is bounded from above:
/// `30103 / 100000` is a little over the decimal logarithm of two.
spec fn decimal_bound(n: int) -> int {
    if n >= 0 {
        n * 30103 / 100000 + 1
    } else {
        1 - (-n) * 30103 / 100000
    }
}

proof fn lemma_bound_is_above(bits: nat)
    requires
        bits < INFINITY_BITS,
    ensures
        ({
            let r = decimal_bound(bits / 0x10_0000_0000_0000 - 1022);
            scaled_num(bits, r) < scaled_den(r)
        }),
{
    let n = bits / 0x10_0000_0000_0000 - 1022;
    let r = decimal_bound(n);
    let u = units(bits);
    let b = pow2(1074);
    lemma_binary_size(bits);
    assert(u < pow2((1074 + n) as nat));
    if n >= 0 {
        let p = pow2(n as nat);
        let t = pow10(r as nat);
        lemma_two_at_most_ten(n as nat, r as nat);
        lemma_pow2_adds(1074, n as nat);
        assert(b * p <= b * t) by (nonlinear_arith)
            requires
                p <= t,
        ;
    } else {
        let p = pow2((-n) as nat);
        let v = pow2((1074 + n) as nat);
        lemma_pow2_adds((1074 + n) as nat, (-n) as nat);
        lemma_pow2_pos((-n) as nat);
        assert(v * p == b);
        if r >= 0 {
            let t = pow10(r as nat);
            lemma_pow10_positive(r as nat);
            assert(u < b * t) by (nonlinear_arith)
                requires
                    u < v,
                    v * p == b,
                    p > 0,
                    t > 0,
            ;
        } else {
            let t = pow10((-r) as nat);
            lemma_ten_at_most_two((-r) as nat, (-n) as nat);
            lemma_pow10_positive((-r) as nat);
            assert(u * t < b) by (nonlinear_arith)
                requires
                    u < v,
                    v * p == b,
                    0 < t <= p,
            ;
        }
    }
}

proof fn lemma_bound_is_near(bits: nat)
    requires
        0x10_0000_0000_0000 <= bits < INFINITY_BITS,
    ensures
        ({
            let r = decimal_bound(bits / 0x10_0000_0000_0000 - 1022);
            scaled_num(bits, r - 3) >= scaled_den(r - 3)
        }),
{
    let n = bits / 0x10_0000_0000_0000 - 1022;
    let r = decimal_bound(n);
    let e = r - 3;
    let u = units(bits);
    let b = pow2(1074);
    lemma_binary_size(bits);
    assert(pow2((1073 + n) as nat) <= u);
    if e >= 0 {
        let p = pow2((n - 1) as nat);
        let t = pow10(e as nat);
        lemma_ten_at_most_two(e as nat, (n - 1) as nat);
        lemma_pow2_adds(1074, (n - 1) as nat);
        assert(b * t <= b * p) by (nonlinear_arith)
            requires
                t <= p,
        ;
    } else {
        let t = pow10((-e) as nat);
        lemma_pow10_positive((-e) as nat);
        if n >= 1 {
            lemma_pow2_adds(1074, (n - 1) as nat);
            lemma_pow2_pos((n - 1) as nat);
            let p = pow2((n - 1) as nat);
            assert(u * t >= b) by (nonlinear_arith)
                requires
                    u >= b * p,
                    p > 0,
                    t > 0,
            ;
        } else {
            let p = pow2((1 - n) as nat);
            let v = pow2((1073 + n) as nat);
            lemma_two_at_most_ten((1 - n) as nat, (-e) as nat);
            lemma_pow2_adds((1073 + n) as nat, (1 - n) as nat);
            assert(u * t >= b) by (nonlinear_arith)
                requires
                    u >= v,
                    v * p == b,
                    t >= p,
            ;
        }
    }
}

/// An exponent above the size of a double, by three powers of ten at most. The
/// doubles without a leading one all get that of the largest of them.
fn guess_exponent(bits: u64) -> (r: i32)
    ensures
        -400 <= r <= 400,
        bits < INFINITY_BITS ==> scaled_num(bits as nat, r as int) < scaled_den(r as int),
        0x10_0000_0000_0000 <= bits < INFINITY_BITS ==> scaled_num(bits as nat, r - 3)
            >= scaled_den(r - 3),
        bits < 0x10_0000_0000_0000 ==> r == -306,
{
    let binary: i64 = (bits / 0x10_0000_0000_0000) as i64 - 1022;
    let guess: i64 = binary * 30103 / 100000 + 1;
    proof {
        if bits < INFINITY_BITS {
            assert(guess == decimal_bound(binary as int));
            lemma_bound_is_above(bits as nat);
            if bits >= 0x10_0000_0000_0000 {
                lemma_bound_is_near(bits as nat);
            }
        }
    }
    if guess < -400 {
        -400
    } else if guess > 400 {
        400
    } else {
        guess as i32
    }
}

/// The shortest decimal of a positive double: its value in units of the power of
/// ten given.
pub struct Shortest {
    /// How many of them.
    pub digits: Natural,
    /// The power.
    pub exponent: i32,
}

/// The numerator and denominator of a double in units of `10^k`.
fn scale(bits: u64, k: i32) -> (r: (Natural, Natural))
    requires
        bits < INFINITY_BITS,
        -400 <= k <= 400,
    ensures
        r.0@ == scaled_num(bits as nat, k as int),
        r.1@ == scaled_den(k as int),
{
    let mut num = units_of(bits);
    let mut den = Natural::from_u64(1);
    den.times_power_of_two(1074);
    proof {
        assert(1 * pow2(1074) == pow2(1074));
    }
    if k >= 0 {
        raise(&mut den, k as u32);
    } else {
        raise(&mut num, (-k) as u32);
    }
    (num, den)
}

/// Going one unit finer multiplies the count by ten.
proof fn lemma_finer(bits: nat, e: int)
    ensures
        scaled_den(e) > 0,
        scaled_num(bits, e - 1) * scaled_den(e) == 10 * scaled_num(bits, e) * scaled_den(e - 1),
{
    lemma_den_positive(e);
    let u = units(bits);
    let b = pow2(1074);
    if e > 0 {
        let p = pow10((e - 1) as nat);
        assert(pow10(e as nat) == 10 * p);
        assert(u * (b * (10 * p)) == 10 * u * (b * p)) by (nonlinear_arith);
    } else {
        let p = pow10((-e) as nat);
        assert(pow10((1 - e) as nat) == 10 * p);
        if e == 0 {
            assert(p == 1);
            assert(b * pow10(0) == b) by (nonlinear_arith)
                requires
                    pow10(0) == 1,
            ;
            assert(u * (10 * 1) * b == 10 * u * b) by (nonlinear_arith);
        } else {
            assert(u * (10 * p) * b == 10 * (u * p) * b) by (nonlinear_arith);
        }
    }
}

/// Whether `q` and `rest / whole` are the whole part and the fraction of the
/// double in units of `10^e`.
spec fn split_at(bits: nat, e: int, q: nat, rest: nat, whole: nat) -> bool {
    &&& whole > 0
    &&& rest < whole
    &&& scaled_num(bits, e) * whole == (q * whole + rest) * scaled_den(e)
}

proof fn lemma_split(bits: nat, e: int, q: nat, rest: nat, whole: nat)
    requires
        split_at(bits, e, q, rest, whole),
    ensures
        multiples(bits, e) == q,
        (2 * (scaled_num(bits, e) % scaled_den(e)) >= scaled_den(e)) == (2 * rest >= whole),
{
    lemma_den_positive(e);
    let n = scaled_num(bits, e) as int;
    let d = scaled_den(e) as int;
    let w = whole as int;
    let r = n - q * d;
    assert(r * w == rest * d) by (nonlinear_arith)
        requires
            n * w == (q * w + rest) * d,
            r == n - q * d,
    ;
    assert(0 <= r < d) by (nonlinear_arith)
        requires
            r * w == rest * d,
            0 <= rest < w,
            d > 0,
    ;
    lemma_fundamental_div_mod_converse(n, d, q as int, r);
    assert((2 * r >= d) == (2 * rest >= w)) by (nonlinear_arith)
        requires
            r * w == rest * d,
            d > 0,
            w > 0,
    ;
}

proof fn lemma_split_finer(
    bits: nat,
    e: int,
    q: nat,
    rest: nat,
    whole: nat,
    digit: nat,
    next: nat,
)
    requires
        split_at(bits, e, q, rest, whole),
        10 * rest == digit * whole + next,
        next < whole,
    ensures
        split_at(bits, e - 1, 10 * q + digit, next, whole),
{
    lemma_finer(bits, e);
    lemma_den_positive(e - 1);
    let n = scaled_num(bits, e);
    let d = scaled_den(e);
    let n2 = scaled_num(bits, (e - 1) as int);
    let d2 = scaled_den((e - 1) as int);
    assert((n2 * whole) * d == (((10 * q + digit) * whole + next) * d2) * d) by (nonlinear_arith)
        requires
            n2 * d == 10 * n * d2,
            n * whole == (q * whole + rest) * d,
            10 * rest == digit * whole + next,
    ;
    assert(n2 * whole == ((10 * q + digit) * whole + next) * d2) by (nonlinear_arith)
        requires
            (n2 * whole) * d == (((10 * q + digit) * whole + next) * d2) * d,
            d > 0,
    ;
}

/// Finds the shortest decimal of a positive double.
pub fn find_shortest(bits: u64) -> (r: Shortest)
    requires
        0 < bits < INFINITY_BITS,
    ensures
        coarsest(bits as nat, r.exponent as int),
        r.digits@ == chosen(bits as nat, r.exponent as int),
        -1074 <= r.exponent <= 400,
{
    let ghost b = bits as nat;
    let mut e: i32 = guess_exponent(bits);
    let (num, den) = scale(bits, e);
    let mut rest = num;
    let whole = den;
    let mut q = Natural::from_u64(0);
    proof {
        lemma_den_positive(e as int);
        let n = rest@;
        let d = whole@;
        assert(n * d == (0 * d + n) * d) by (nonlinear_arith);
        assert(split_at(b, e as int, q@, rest@, whole@));
        assert forall|f: int| f > e implies !#[trigger] fits(b, f) by {
            lemma_too_coarse(b, e as int, f);
        }
    }
    loop
        invariant
            0 < bits < INFINITY_BITS,
            b == bits as nat,
            -1074 <= e <= 400,
            split_at(b, e as int, q@, rest@, whole@),
            forall|f: int| f > e ==> !#[trigger] fits(b, f),
        decreases e + 1074,
    {
        proof {
            lemma_split(b, e as int, q@, rest@, whole@);
        }
        let mut above = q.copy();
        above.mul_small_plus(1, 1);
        let low_reads = read_decimal(&q, e) == bits;
        let high_reads = read_decimal(&above, e) == bits;
        if low_reads || high_reads {
            let mut twice = rest.copy();
            twice.mul_small_plus(2, 0);
            let up = twice.at_least(&whole);
            let digits = if !low_reads {
                above
            } else if !high_reads {
                q
            } else if up {
                above
            } else {
                q
            };
            return Shortest { digits, exponent: e };
        }
        proof {
            assert(!fits(b, e as int));
            if e == -1074 {
                lemma_fine_enough(b);
            }
        }
        let ghost before = rest@;
        rest.mul_small_plus(10, 0);
        let mut digit: u32 = 0;
        proof {
            assert(0 * whole@ == 0);
        }
        while rest.at_least(&whole)
            invariant
                whole@ > 0,
                before < whole@,
                10 * before == digit * whole@ + rest@,
                digit <= 9,
            decreases rest@,
        {
            let ghost now = rest@;
            proof {
                let w = whole@;
                assert(digit < 9) by (nonlinear_arith)
                    requires
                        10 * before == digit * w + now,
                        now >= w,
                        before < w,
                ;
                assert((digit + 1) * w + (now - w) == digit * w + now) by (nonlinear_arith);
            }
            rest = rest.minus(&whole);
            digit += 1;
        }
        proof {
            lemma_split_finer(b, e as int, q@, before, whole@, digit as nat, rest@);
        }
        q.mul_small_plus(10, digit);
        e -= 1;
    }
}

/// The decimal numeral of a natural number.
pub fn natural_to_text(n: Natural) -> (r: Vec<char>)
    ensures
        r@ == decimal(n@),
    decreases n@,
{
    let mut rest = n;
    let ghost whole = rest@;
    let digit: u32 = rest.div_small(10);
    proof {
        lemma_fundamental_div_mod(whole as int, 10);
    }
    let c = (48 + digit as u8) as char;
    if rest.is_zero() {
        let mut out: Vec<char> = Vec::new();
        out.push(c);
        assert(whole < 10);
        assert(out@ =~= decimal(whole));
        out
    } else {
        let mut out = natural_to_text(rest);
        out.push(c);
        out
    }
}

/// `n` zeros.
pub open spec fn zeros(n: int) -> Seq<char> {
    Seq::new(n as nat, |i: int| '0')
}

/// Digits times a power of ten, written without an exponent.
pub open spec fn plain(digits: Seq<char>, e: int) -> Seq<char> {
    if e >= 0 {
        digits + zeros(e)
    } else if digits.len() > -e {
        digits.take(digits.len() + e) + seq!['.'] + digits.skip(digits.len() + e)
    } else {
        seq!['0', '.'] + zeros(-e - digits.len()) + digits
    }
}

/// The text of a double without its sign.
pub open spec fn magnitude_text(bits: nat) -> Seq<char> {
    if bits > INFINITY_BITS {
        "NaN"@
    } else if bits == INFINITY_BITS {
        "inf"@
    } else if bits == 0 {
        "0"@
    } else {
        plain(shortest_digits(bits), shortest_exponent(bits))
    }
}

/// The text of a double: a sign where it is negative, and its shortest decimal.
pub open spec fn float_text(x: Float64) -> Seq<char> {
    if x.negative() && !x.nan() {
        "-"@ + magnitude_text(x.magnitude())
    } else {
        magnitude_text(x.magnitude())
    }
}

pub fn push_zeros(out: &mut String, n: usize)
    ensures
        final(out)@ == old(out)@ + zeros(n as int),
{
    let mut i: usize = 0;
    assert(out@ =~= old(out)@ + zeros(0));
    while i < n
        invariant
            i <= n,
            out@ == old(out)@ + zeros(i as int),
        decreases n - i,
    {
        out.push('0');
        i += 1;
        assert(out@ =~= old(out)@ + zeros(i as int));
    }
}

pub fn push_chars(out: &mut String, s: &Vec<char>, start: usize, end: usize)
    requires
        start <= end <= s.len(),
    ensures
        final(out)@ == old(out)@ + s@.subrange(start as int, end as int),
{
    let mut i: usize = start;
    assert(out@ =~= old(out)@ + s@.subrange(start as int, start as int));
    while i < end
        invariant
            start <= i <= end <= s.len(),
            out@ == old(out)@ + s@.subrange(start as int, i as int),
        decreases end - i,
    {
        out.push(s[i]);
        i += 1;
        assert(out@ =~= old(out)@ + s@.subrange(start as int, i as int));
    }
}

pub fn push_plain(out: &mut String, digits: &Vec<char>, e: i32)
    requires
        -1074 <= e <= 400,
    ensures
        final(out)@ == old(out)@ + plain(digits@, e as int),
{
    let n: usize = digits.len();
    if e >= 0 {
        push_chars(out, digits, 0, n);
        push_zeros(out, e as usize);
        assert(digits@.subrange(0, n as int) =~= digits@);
        assert(out@ =~= old(out)@ + plain(digits@, e as int));
    } else {
        let places: usize = (-e) as usize;
        if n > places {
            push_chars(out, digits, 0, n - places);
            out.push('.');
            push_chars(out, digits, n - places, n);
            assert(digits@.subrange(0, n - places) =~= digits@.take(n + e));
            assert(digits@.subrange(n - places, n as int) =~= digits@.skip(n + e));
            assert(out@ =~= old(out)@ + plain(digits@, e as int));
        } else {
            out.push('0');
            out.push('.');
            push_zeros(out, places - n);
            push_chars(out, digits, 0, n);
            assert(digits@.subrange(0, n as int) =~= digits@);
            assert(out@ =~= old(out)@ + plain(digits@, e as int));
        }
    }
}

/// Writes a double as its shortest decimal.
pub fn float_to_text(x: Float64) -> (r: String)
    ensures
        r@ == float_text(x),
{
    let bits: u64 = x.to_bits() % SIGN_BIT;
    let negative = x.to_bits() >= SIGN_BIT;
    if bits > INFINITY_BITS {
        return String::from_str("NaN");
    }
    let mut out = String::new();
    if negative {
        out.append("-");
    }
    assert(out@ =~= if negative {
        "-"@
    } else {
        Seq::empty()
    });
    if bits == INFINITY_BITS {
        out.append("inf");
    } else if bits == 0 {
        out.append("0");
    } else {
        let found = find_shortest(bits);
        let e: i32 = found.exponent;
        proof {
            let f = shortest_exponent(bits as nat);
            assert(coarsest(bits as nat, f));
            lemma_coarsest_unique(bits as nat, e as int, f);
        }
        let digits = natural_to_text(found.digits);
        push_plain(&mut out, &digits, e);
    }
    assert(out@ =~= float_text(x));
    out
}

} // verus!
