//! Double-precision numbers as bit patterns of the IEEE 754 binary64 format.
//!
//! Ordering, equality, addition and rounding are worked out on the bits with
//! exact integer arithmetic, so that a contract can say which double results.
//! Finite values are measured in units of `2^-1074`, the smallest positive
//! double: in that unit every finite double is an integer.

use crate::natural::Natural;
use vstd::arithmetic::div_mod::*;
use vstd::arithmetic::power2::*;
use vstd::prelude::*;

verus! {

/// The bits of positive infinity.
pub const INFINITY_BITS: u64 = 0x7ff0_0000_0000_0000;

/// The bits of a quiet NaN.
pub const NAN_BITS: u64 = 0x7ff8_0000_0000_0000;

/// The bits of `2^-52`, the distance from 1 to the next larger double.
pub const EPSILON_BITS: u64 = 0x3cb0_0000_0000_0000;

/// The bits of one.
pub const ONE_BITS: u64 = 0x3ff0_0000_0000_0000;

/// The sign bit.
pub const SIGN_BIT: u64 = 0x8000_0000_0000_0000;

/// `num / den` rounded to the nearest integer, ties to the even one.
pub open spec fn round_half_even(num: nat, den: nat) -> nat {
    let q = num / den;
    let r = num % den;
    if 2 * r > den || (2 * r == den && q % 2 == 1) {
        q + 1
    } else {
        q
    }
}

/// The bits of the positive double nearest to `num / den` units, ties to even,
/// in a format whose exponent has no upper limit.
///
/// Below `2^53` units the doubles are the integers, and the bits are that
/// integer. Each doubling beyond halves the density and adds `2^52` to the bits.
pub open spec fn round_ratio(num: nat, den: nat) -> nat
    decreases num - den,
{
    if den == 0 {
        0
    } else if num < den * 0x20_0000_0000_0000 {
        round_half_even(num, den)
    } else {
        0x10_0000_0000_0000 + round_ratio(num, 2 * den)
    }
}

/// The bits of the non-negative double nearest to `num / den` units: overflow
/// gives infinity.
pub open spec fn nearest(num: nat, den: nat) -> nat {
    let r = round_ratio(num, den);
    if r < INFINITY_BITS {
        r
    } else {
        INFINITY_BITS as nat
    }
}

/// The number of units in the non-negative finite double with these bits.
pub open spec fn units(bits: nat) -> nat
    decreases bits,
{
    if bits < 0x20_0000_0000_0000 {
        bits
    } else {
        2 * units((bits - 0x10_0000_0000_0000) as nat)
    }
}

proof fn lemma_round_half_even_scaled(num: nat, den: nat)
    requires
        den > 0,
    ensures
        round_half_even(2 * num, 2 * den) == round_half_even(num, den),
{
    lemma_fundamental_div_mod(num as int, den as int);
    let q = num / den;
    let r = num % den;
    assert(2 * num == q * (2 * den) + 2 * r) by (nonlinear_arith)
        requires
            num == den * q + r,
    ;
    lemma_fundamental_div_mod_converse(2 * num as int, 2 * den as int, q as int, 2 * r as int);
}

proof fn lemma_round_ratio_scaled(num: nat, den: nat)
    requires
        den > 0,
    ensures
        round_ratio(2 * num, 2 * den) == round_ratio(num, den),
    decreases num - den,
{
    if num < den * 0x20_0000_0000_0000 {
        lemma_round_half_even_scaled(num, den);
    } else {
        lemma_round_ratio_scaled(num, 2 * den);
    }
}

proof fn lemma_round_half_even_common(num: nat, den: nat, c: nat)
    requires
        den > 0,
        c > 0,
    ensures
        c * den > 0,
        round_half_even(c * num, c * den) == round_half_even(num, den),
{
    lemma_fundamental_div_mod(num as int, den as int);
    let q = num / den;
    let r = num % den;
    assert(c * num == q * (c * den) + c * r) by (nonlinear_arith)
        requires
            num == den * q + r,
    ;
    assert(c * den > 0 && 0 <= c * r < c * den) by (nonlinear_arith)
        requires
            c > 0,
            den > 0,
            0 <= r < den,
    ;
    lemma_fundamental_div_mod_converse((c * num) as int, (c * den) as int, q as int, (c * r) as int);
    assert((2 * (c * r) > c * den) == (2 * r > den)) by (nonlinear_arith)
        requires
            c > 0,
    ;
    assert((2 * (c * r) == c * den) == (2 * r == den)) by (nonlinear_arith)
        requires
            c > 0,
    ;
}

/// Rounding depends on the ratio alone.
pub proof fn lemma_round_ratio_common(num: nat, den: nat, c: nat)
    requires
        den > 0,
        c > 0,
    ensures
        round_ratio(c * num, c * den) == round_ratio(num, den),
    decreases num - den,
{
    lemma_round_half_even_common(num, den, c);
    let limit: nat = 0x20_0000_0000_0000;
    assert((c * num < (c * den) * limit) == (num < den * limit)) by (nonlinear_arith)
        requires
            c > 0,
    ;
    if num >= den * limit {
        lemma_round_ratio_common(num, 2 * den, c);
        assert(c * (2 * den) == 2 * (c * den)) by (nonlinear_arith);
    }
}

/// `j` doublings of the divisor at once.
proof fn lemma_round_ratio_jump(num: nat, den: nat, j: nat)
    requires
        den > 0,
        j > 0,
        num >= den * 0x20_0000_0000_0000 * pow2(j),
    ensures
        round_ratio(num, den) == j * 0x10_0000_0000_0000 + round_ratio(num, den * pow2(j)),
    decreases j,
{
    lemma2_to64();
    lemma_pow2_unfold(j);
    let p = pow2((j - 1) as nat);
    lemma_pow2_pos((j - 1) as nat);
    assert(den * 0x20_0000_0000_0000 * (2 * p) == (2 * den) * 0x20_0000_0000_0000 * p)
        by (nonlinear_arith);
    assert(den * 0x20_0000_0000_0000 * (2 * p) >= den * 0x20_0000_0000_0000) by (nonlinear_arith)
        requires
            p >= 1,
    ;
    assert((2 * den) * p == den * (2 * p)) by (nonlinear_arith);
    assert(den * pow2(j) == (2 * den) * p);
    if j > 1 {
        lemma_round_ratio_jump(num, 2 * den, (j - 1) as nat);
    } else {
        assert(p == 1);
        assert((2 * den) * p == 2 * den) by (nonlinear_arith)
            requires
                p == 1,
        ;
    }
}

proof fn lemma_units_lower(bits: nat)
    requires
        bits >= 0x10_0000_0000_0000,
    ensures
        units(bits) >= 0x10_0000_0000_0000,
    decreases bits,
{
    if bits >= 0x20_0000_0000_0000 {
        lemma_units_lower((bits - 0x10_0000_0000_0000) as nat);
    }
}

/// A double is its own nearest double.
pub proof fn lemma_round_units(bits: nat)
    ensures
        round_ratio(units(bits), 1) == bits,
    decreases bits,
{
    if bits >= 0x20_0000_0000_0000 {
        let below = (bits - 0x10_0000_0000_0000) as nat;
        lemma_round_units(below);
        lemma_units_lower(below);
        lemma_round_ratio_scaled(units(below), 1);
        assert(round_ratio(units(bits), 1) == 0x10_0000_0000_0000 + round_ratio(units(bits), 2));
    } else {
        assert(bits / 1 == bits && bits % 1 == 0);
    }
}

proof fn lemma_round_half_even_monotone(a: nat, b: nat, den: nat)
    requires
        den > 0,
        a <= b,
    ensures
        round_half_even(a, den) <= round_half_even(b, den),
{
    lemma_div_is_ordered(a as int, b as int, den as int);
    lemma_fundamental_div_mod(a as int, den as int);
    lemma_fundamental_div_mod(b as int, den as int);
    if a / den == b / den {
        assert(a % den <= b % den);
    }
}

proof fn lemma_round_ratio_lower(num: nat, den: nat)
    requires
        den > 0,
        num >= den * 0x10_0000_0000_0000,
    ensures
        round_ratio(num, den) >= 0x10_0000_0000_0000,
{
    if num < den * 0x20_0000_0000_0000 {
        lemma_div_is_ordered((den * 0x10_0000_0000_0000) as int, num as int, den as int);
        lemma_div_multiples_vanish(0x10_0000_0000_0000, den as int);
        assert(den * 0x10_0000_0000_0000 == 0x10_0000_0000_0000 * den);
    }
}

/// Rounding keeps the order.
pub proof fn lemma_round_ratio_monotone(a: nat, b: nat, den: nat)
    requires
        den > 0,
        a <= b,
    ensures
        round_ratio(a, den) <= round_ratio(b, den),
    decreases b - den,
{
    if b < den * 0x20_0000_0000_0000 {
        lemma_round_half_even_monotone(a, b, den);
    } else if a < den * 0x20_0000_0000_0000 {
        lemma_round_ratio_lower(b, 2 * den);
        lemma_round_half_even_monotone(a, (den * 0x20_0000_0000_0000) as nat, den);
        assert(round_half_even((den * 0x20_0000_0000_0000) as nat, den) == 0x20_0000_0000_0000)
            by {
            lemma_fundamental_div_mod_converse(
                (den * 0x20_0000_0000_0000) as int,
                den as int,
                0x20_0000_0000_0000,
                0,
            );
        }
    } else {
        lemma_round_ratio_monotone(a, b, 2 * den);
    }
}

/// Larger bits denote larger numbers.
pub proof fn lemma_units_monotone(a: nat, b: nat)
    requires
        a <= b,
    ensures
        units(a) <= units(b),
        a < b ==> units(a) < units(b),
    decreases b,
{
    if b >= 0x20_0000_0000_0000 {
        let below = (b - 0x10_0000_0000_0000) as nat;
        if a >= 0x20_0000_0000_0000 {
            lemma_units_monotone((a - 0x10_0000_0000_0000) as nat, below);
        } else {
            lemma_units_lower(below);
        }
    }
}

pub proof fn lemma_units_shift(bits: nat)
    requires
        bits >= 0x10_0000_0000_0000,
    ensures
        units(bits) == (bits % 0x10_0000_0000_0000 + 0x10_0000_0000_0000) * pow2(
            (bits / 0x10_0000_0000_0000 - 1) as nat,
        ),
    decreases bits,
{
    lemma2_to64();
    let e = bits / 0x10_0000_0000_0000;
    let m = bits % 0x10_0000_0000_0000 + 0x10_0000_0000_0000;
    if bits < 0x20_0000_0000_0000 {
        assert(e == 1);
        assert(m * pow2(0) == m);
    } else {
        let below = (bits - 0x10_0000_0000_0000) as nat;
        lemma_units_shift(below);
        assert(below / 0x10_0000_0000_0000 == e - 1);
        assert(below % 0x10_0000_0000_0000 == bits % 0x10_0000_0000_0000);
        lemma_pow2_unfold((e - 1) as nat);
        assert(2 * (m * pow2((e - 2) as nat)) == m * (2 * pow2((e - 2) as nat)))
            by (nonlinear_arith);
    }
}

/// The magnitude of a finite double as a natural number of units.
pub fn units_of(bits: u64) -> (r: Natural)
    requires
        bits < INFINITY_BITS,
    ensures
        r@ == units(bits as nat),
{
    if bits < 0x20_0000_0000_0000 {
        Natural::from_u64(bits)
    } else {
        let exponent: u32 = (bits / 0x10_0000_0000_0000 - 1) as u32;
        let mut r = Natural::from_u64(bits % 0x10_0000_0000_0000 + 0x10_0000_0000_0000);
        r.times_power_of_two(exponent);
        proof {
            lemma_units_shift(bits as nat);
        }
        r
    }
}

/// Rounds `num / den` units to the nearest double.
pub fn round_to_nearest(num: &Natural, den: &Natural) -> (r: u64)
    requires
        den@ > 0,
    ensures
        r as nat == nearest(num@, den@),
{
    let mut limit = Natural::from_u64(0);
    limit = limit.plus(den);
    limit.times_power_of_two(53);
    let ghost mut scaled: nat = den@;
    let mut exponent: u64 = 0;
    proof {
        lemma2_to64_rest();
        assert(limit@ == scaled * 0x20_0000_0000_0000);
    }
    let mut jumping = true;
    while jumping && exponent < 1983
        invariant
            exponent <= 2047,
            den@ > 0,
            scaled > 0,
            limit@ == scaled * 0x20_0000_0000_0000,
            round_ratio(num@, den@) == exponent * 0x10_0000_0000_0000 + round_ratio(num@, scaled),
        decreases 2047 - exponent, (if jumping { 1int } else { 0int }),
    {
        let mut next = Natural::from_u64(0);
        next = next.plus(&limit);
        next.times_power_of_two(64);
        if num.at_least(&next) {
            proof {
                lemma_pow2_pos(64);
                let p = pow2(64);
                lemma_round_ratio_jump(num@, scaled, 64);
                assert(scaled * 0x20_0000_0000_0000 * p == (scaled * p) * 0x20_0000_0000_0000)
                    by (nonlinear_arith);
                assert(scaled * p > 0) by (nonlinear_arith)
                    requires
                        scaled > 0,
                        p > 0,
                ;
                scaled = scaled * p;
            }
            limit = next;
            exponent += 64;
        } else {
            jumping = false;
        }
    }
    while exponent < 2047 && num.at_least(&limit)
        invariant
            exponent <= 2047,
            den@ > 0,
            scaled > 0,
            limit@ == scaled * 0x20_0000_0000_0000,
            round_ratio(num@, den@) == exponent * 0x10_0000_0000_0000 + round_ratio(num@, scaled),
        decreases 2047 - exponent,
    {
        limit.mul_small_plus(2, 0);
        proof {
            scaled = 2 * scaled;
        }
        exponent += 1;
    }
    if exponent == 2047 {
        return INFINITY_BITS;
    }
    let mut rest = Natural::from_u64(0);
    rest = rest.plus(num);
    let mut q: u64 = 0;
    let mut step: u32 = 0;
    proof {
        lemma2_to64();
        assert(num@ * pow2(0) == num@);
    }
    while step < 53
        invariant
            step <= 53,
            rest@ < limit@,
            q < pow2(step as nat),
            num@ * pow2(step as nat) == q * limit@ + rest@,
        decreases 53 - step,
    {
        let ghost before = rest@;
        let ghost q_before = q as nat;
        proof {
            lemma_pow2_unfold((step + 1) as nat);
            lemma_pow2_strictly_increases(step as nat, 53);
            lemma2_to64_rest();
        }
        rest.mul_small_plus(2, 0);
        q = 2 * q;
        if rest.at_least(&limit) {
            rest = rest.minus(&limit);
            q = q + 1;
        }
        step += 1;
        proof {
            let p = pow2((step - 1) as nat);
            assert(num@ * (2 * p) == q * limit@ + rest@) by (nonlinear_arith)
                requires
                    num@ * p == q_before * limit@ + before,
                    (q == 2 * q_before && rest@ == 2 * before) || (q == 2 * q_before + 1 && rest@ + limit@
                        == 2 * before),
            ;
        }
    }
    let ghost remainder = rest@;
    rest.mul_small_plus(2, 0);
    let above_half = rest.at_least(&limit);
    let at_most_half = limit.at_least(&rest);
    proof {
        lemma2_to64_rest();
        let unit: nat = 0x20_0000_0000_0000;
        // num * unit == q * scaled * unit + remainder, so unit divides the remainder.
        let r = num@ - q * scaled;
        assert(remainder == r * unit) by (nonlinear_arith)
            requires
                num@ * unit == q * (scaled * unit) + remainder,
                r == num@ - q * scaled,
        ;
        assert(0 <= r < scaled) by (nonlinear_arith)
            requires
                remainder == r * unit,
                0 <= remainder < scaled * unit,
                unit == 0x20_0000_0000_0000,
        ;
        lemma_fundamental_div_mod_converse(num@ as int, scaled as int, q as int, r);
        assert((2 * remainder >= limit@) == (2 * r >= scaled));
        assert((2 * remainder <= limit@) == (2 * r <= scaled));
    }
    if above_half && (!at_most_half || q % 2 == 1) {
        q = q + 1;
    }
    let bits: u64 = exponent * 0x10_0000_0000_0000 + q;
    if bits < INFINITY_BITS {
        bits
    } else {
        INFINITY_BITS
    }
}

/// A double-precision number, held as its bits.
#[derive(Clone, Copy, Debug, PartialEq, Eq, Structural, Hash)]
pub struct Float64 {
    bits: u64,
}

impl Float64 {
    /// The bit pattern.
    pub closed spec fn spec_bits(self) -> u64 {
        self.bits
    }

    /// The magnitude part of the bits.
    pub open spec fn magnitude(self) -> nat {
        (self.spec_bits() % SIGN_BIT) as nat
    }

    /// Whether the sign bit is set.
    pub open spec fn negative(self) -> bool {
        self.spec_bits() >= SIGN_BIT
    }

    /// Whether this is not a number.
    pub open spec fn nan(self) -> bool {
        self.magnitude() > INFINITY_BITS
    }

    /// Whether this is a finite number.
    pub open spec fn finite(self) -> bool {
        self.magnitude() < INFINITY_BITS
    }

    /// A number that orders the doubles that are not NaN; both zeros share it.
    pub open spec fn rank(self) -> int {
        if self.negative() {
            -self.magnitude()
        } else {
            self.magnitude() as int
        }
    }

    /// The value of a finite double in units of `2^-1074`.
    pub open spec fn value(self) -> int {
        if self.negative() {
            -units(self.magnitude())
        } else {
            units(self.magnitude()) as int
        }
    }

    /// The double with the given bits.
    pub closed spec fn of_bits(bits: u64) -> Float64 {
        Float64 { bits }
    }

    /// The double of the given sign and magnitude bits.
    pub open spec fn of_magnitude(negative: bool, magnitude: nat) -> Float64 {
        Float64::of_bits(
            if negative {
                (SIGN_BIT + magnitude) as u64
            } else {
                magnitude as u64
            },
        )
    }

    /// The double nearest to `num / den` units, where `num` is not zero.
    pub open spec fn rounded(num: int, den: nat) -> Float64 {
        if num < 0 {
            Float64::of_magnitude(true, nearest((-num) as nat, den))
        } else {
            Float64::of_magnitude(false, nearest(num as nat, den))
        }
    }

    /// IEEE 754 addition, rounding to nearest, ties to even.
    pub open spec fn sum(a: Float64, b: Float64) -> Float64 {
        if a.nan() || b.nan() {
            Float64::of_bits(NAN_BITS)
        } else if !a.finite() {
            if !b.finite() && a.negative() != b.negative() {
                Float64::of_bits(NAN_BITS)
            } else {
                a
            }
        } else if !b.finite() {
            b
        } else if a.value() + b.value() == 0 {
            Float64::of_magnitude(a.negative() && b.negative(), 0)
        } else {
            Float64::rounded(a.value() + b.value(), 1)
        }
    }

    /// The number with the opposite sign.
    pub open spec fn opposite(self) -> Float64 {
        Float64::of_magnitude(!self.negative(), self.magnitude())
    }

    /// IEEE 754 `a < b`.
    pub open spec fn lt(a: Float64, b: Float64) -> bool {
        !a.nan() && !b.nan() && a.rank() < b.rank()
    }

    /// IEEE 754 `a == b`.
    pub open spec fn same(a: Float64, b: Float64) -> bool {
        !a.nan() && !b.nan() && a.rank() == b.rank()
    }

    /// `|a - b| < 2^-52`, with the subtraction and comparison of IEEE 754.
    pub open spec fn close(a: Float64, b: Float64) -> bool {
        Float64::sum(a, b.opposite()).magnitude() < EPSILON_BITS
    }

    /// `|a - b| >= 2^-52`, with the subtraction and comparison of IEEE 754.
    pub open spec fn apart(a: Float64, b: Float64) -> bool {
        let d = Float64::sum(a, b.opposite());
        !d.nan() && d.magnitude() >= EPSILON_BITS
    }

    /// The place in the total order of all doubles: negative NaN, negative
    /// numbers, negative zero, positive zero, positive numbers, positive NaN.
    pub open spec fn total_rank(self) -> int {
        if self.negative() {
            -self.magnitude() - 1
        } else {
            self.magnitude() as int
        }
    }

    /// The double nearest to an integer.
    pub open spec fn of_int(n: int) -> Float64 {
        Float64::rounded(n * pow2(1074), 1)
    }

    /// The double with the given bits.
    pub fn from_bits(bits: u64) -> (r: Float64)
        ensures
            r == Float64::of_bits(bits),
            r.spec_bits() == bits,
    {
        Float64 { bits }
    }

    /// The bits of the double.
    pub fn to_bits(self) -> (r: u64)
        ensures
            r == self.spec_bits(),
            self == Float64::of_bits(r),
    {
        self.bits
    }

    /// A double is determined by its bits.
    pub broadcast proof fn lemma_of_bits(bits: u64)
        ensures
            (#[trigger] Float64::of_bits(bits)).spec_bits() == bits,
    {
    }

    /// Doubles with the same bits are the same double.
    pub proof fn lemma_same_bits(self, other: Float64)
        requires
            self.spec_bits() == other.spec_bits(),
        ensures
            self == other,
    {
    }

    fn magnitude_bits(self) -> (r: u64)
        ensures
            r as nat == self.magnitude(),
    {
        self.bits % SIGN_BIT
    }

    /// Whether this is not a number.
    pub fn is_nan(self) -> (r: bool)
        ensures
            r == self.nan(),
    {
        self.magnitude_bits() > INFINITY_BITS
    }

    /// IEEE 754 `self < other`.
    pub fn is_less(self, other: Float64) -> (r: bool)
        ensures
            r == Float64::lt(self, other),
    {
        if self.is_nan() || other.is_nan() {
            return false;
        }
        let a: u64 = self.magnitude_bits();
        let b: u64 = other.magnitude_bits();
        if self.bits >= SIGN_BIT {
            if other.bits >= SIGN_BIT {
                b < a
            } else {
                a > 0 || b > 0
            }
        } else {
            other.bits < SIGN_BIT && a < b
        }
    }

    /// IEEE 754 `self == other`.
    pub fn is_same(self, other: Float64) -> (r: bool)
        ensures
            r == Float64::same(self, other),
    {
        !self.is_nan() && !other.is_nan() && !self.is_less(other) && !other.is_less(self)
    }

    /// Whether `self` stands before `other` in the total order of all doubles.
    pub fn is_before(self, other: Float64) -> (r: bool)
        ensures
            r == (self.total_rank() < other.total_rank()),
    {
        let a: u64 = self.magnitude_bits();
        let b: u64 = other.magnitude_bits();
        if self.bits >= SIGN_BIT {
            other.bits < SIGN_BIT || b < a
        } else {
            other.bits < SIGN_BIT && a < b
        }
    }

    fn with_sign(negative: bool, magnitude: u64) -> (r: Float64)
        requires
            magnitude < SIGN_BIT,
        ensures
            r == Float64::of_magnitude(negative, magnitude as nat),
    {
        if negative {
            Float64 { bits: SIGN_BIT + magnitude }
        } else {
            Float64 { bits: magnitude }
        }
    }

    /// The number with the opposite sign.
    pub fn negated(self) -> (r: Float64)
        ensures
            r == self.opposite(),
    {
        Float64::with_sign(self.bits < SIGN_BIT, self.magnitude_bits())
    }

    /// IEEE 754 addition, rounding to nearest, ties to even.
    pub fn plus(self, other: Float64) -> (r: Float64)
        ensures
            r == Float64::sum(self, other),
    {
        if self.is_nan() || other.is_nan() {
            return Float64 { bits: NAN_BITS };
        }
        let a: u64 = self.magnitude_bits();
        let b: u64 = other.magnitude_bits();
        let a_negative = self.bits >= SIGN_BIT;
        let b_negative = other.bits >= SIGN_BIT;
        if a >= INFINITY_BITS {
            if b >= INFINITY_BITS && a_negative != b_negative {
                return Float64 { bits: NAN_BITS };
            }
            return self;
        }
        if b >= INFINITY_BITS {
            return other;
        }
        let x = units_of(a);
        let y = units_of(b);
        let one = Natural::from_u64(1);
        if a_negative == b_negative {
            let total = x.plus(&y);
            if total.is_zero() {
                return Float64::with_sign(a_negative, 0);
            }
            let m: u64 = round_to_nearest(&total, &one);
            Float64::with_sign(a_negative, m)
        } else if x.at_least(&y) {
            let total = x.minus(&y);
            if total.is_zero() {
                return Float64::with_sign(false, 0);
            }
            let m: u64 = round_to_nearest(&total, &one);
            Float64::with_sign(a_negative, m)
        } else {
            let total = y.minus(&x);
            let m: u64 = round_to_nearest(&total, &one);
            Float64::with_sign(b_negative, m)
        }
    }

    /// Whether the two numbers differ by less than `2^-52`.
    pub fn is_close(self, other: Float64) -> (r: bool)
        ensures
            r == Float64::close(self, other),
    {
        let d = self.plus(other.negated());
        d.magnitude_bits() < EPSILON_BITS
    }

    /// Whether the two numbers differ by at least `2^-52`.
    pub fn is_apart(self, other: Float64) -> (r: bool)
        ensures
            r == Float64::apart(self, other),
    {
        let d = self.plus(other.negated());
        !d.is_nan() && d.magnitude_bits() >= EPSILON_BITS
    }

    /// The double nearest to an integer.
    pub fn from_i64(n: i64) -> (r: Float64)
        ensures
            r == Float64::of_int(n as int),
    {
        let one = Natural::from_u64(1);
        let size: u64 = if n < 0 {
            (-(n as i128)) as u64
        } else {
            n as u64
        };
        let mut x = Natural::from_u64(size);
        x.times_power_of_two(1074);
        let m: u64 = round_to_nearest(&x, &one);
        proof {
            lemma_pow2_pos(1074);
            let p = pow2(1074) as int;
            let k = n as int;
            if k < 0 {
                assert(k * p < 0) by (nonlinear_arith)
                    requires
                        k < 0,
                        p > 0,
                ;
                assert(-(k * p) == (-k) * p) by (nonlinear_arith);
            } else {
                assert(k * p >= 0) by (nonlinear_arith)
                    requires
                        k >= 0,
                        p > 0,
                ;
            }
        }
        Float64::with_sign(n < 0, m)
    }
}

impl Float64 {
    /// A number that is not below zero.
    pub open spec fn non_negative(self) -> bool {
        !self.nan() && self.rank() >= 0
    }

    /// A number with a clear sign bit.
    pub open spec fn positive_sign(self) -> bool {
        !self.nan() && !self.negative()
    }

    /// The difference to a zero has the same magnitude for both zeros.
    proof fn lemma_minus_zero(x: Float64, zero: Float64)
        requires
            zero.magnitude() == 0,
        ensures
            Float64::sum(x, zero.opposite()).magnitude() == if x.nan() {
                NAN_BITS as nat
            } else if !x.finite() {
                x.magnitude()
            } else if x.value() == 0 {
                0
            } else {
                Float64::rounded(x.value(), 1).magnitude()
            },
    {
        let o = zero.opposite();
        Float64::lemma_of_bits(SIGN_BIT);
        Float64::lemma_of_bits(0);
        Float64::lemma_of_bits(NAN_BITS);
        assert(o.magnitude() == 0);
        assert(o.value() == 0);
        Float64::lemma_of_magnitude(0);
    }

    /// Numbers that are equal compare alike with every number.
    pub proof fn lemma_equal_compare_alike(x: Float64, a: Float64, b: Float64)
        requires
            Float64::same(a, b),
        ensures
            Float64::lt(x, a) == Float64::lt(x, b),
            Float64::lt(a, x) == Float64::lt(b, x),
            Float64::same(x, a) == Float64::same(x, b),
            Float64::close(x, a) == Float64::close(x, b),
            Float64::apart(x, a) == Float64::apart(x, b),
    {
        if a.negative() == b.negative() {
            assert(a.magnitude() == b.magnitude());
            assert(a.spec_bits() == b.spec_bits());
            a.lemma_same_bits(b);
        } else {
            assert(a.magnitude() == 0 && b.magnitude() == 0);
            Float64::lemma_minus_zero(x, a);
            Float64::lemma_minus_zero(x, b);
        }
    }

    /// Numbers that an index keeps together compare alike with every number: equal
    /// ones, and all NaN.
    pub proof fn lemma_alike_on_the_left(a: Float64, b: Float64, y: Float64)
        requires
            Float64::same(a, b) || a.nan() && b.nan(),
        ensures
            Float64::lt(a, y) == Float64::lt(b, y),
            Float64::lt(y, a) == Float64::lt(y, b),
            Float64::same(a, y) == Float64::same(b, y),
            Float64::close(a, y) == Float64::close(b, y),
            Float64::apart(a, y) == Float64::apart(b, y),
    {
        Float64::lemma_of_bits(NAN_BITS);
        if !a.nan() {
            if a.negative() == b.negative() {
                assert(a.magnitude() == b.magnitude());
                assert(a.spec_bits() == b.spec_bits());
                a.lemma_same_bits(b);
            } else {
                assert(a.magnitude() == 0 && b.magnitude() == 0);
                assert(a.value() == 0 && b.value() == 0);
                Float64::lemma_of_bits(SIGN_BIT);
                Float64::lemma_of_bits(0);
                Float64::lemma_of_magnitude(0);
            }
        }
    }

    proof fn lemma_of_magnitude(magnitude: nat)
        requires
            magnitude < SIGN_BIT,
        ensures
            Float64::of_magnitude(false, magnitude).magnitude() == magnitude,
            !Float64::of_magnitude(false, magnitude).negative(),
    {
        Float64::lemma_of_bits(magnitude as u64);
    }

    proof fn lemma_sum_magnitude(a: Float64, b: Float64)
        requires
            a.positive_sign(),
            b.non_negative(),
        ensures
            Float64::sum(a, b).positive_sign(),
            Float64::sum(a, b).magnitude() == if !a.finite() || !b.finite() {
                INFINITY_BITS as nat
            } else {
                nearest(units(a.magnitude()) + units(b.magnitude()), 1)
            },
    {
        if a.finite() && b.finite() {
            let v = (units(a.magnitude()) + units(b.magnitude())) as nat;
            if b.negative() {
                assert(b.magnitude() == 0);
            }
            assert(a.value() + b.value() == v);
            Self::lemma_of_magnitude(nearest(v, 1));
            Self::lemma_of_magnitude(0);
            if v == 0 {
                lemma_round_units(0);
            }
        }
    }

    /// Adding a number that is not below zero does not lower the sum.
    pub proof fn lemma_sum_grows(a: Float64, b: Float64)
        requires
            a.positive_sign(),
            b.non_negative(),
        ensures
            Float64::sum(a, b).positive_sign(),
            Float64::sum(a, b).magnitude() >= a.magnitude(),
    {
        Self::lemma_sum_magnitude(a, b);
        if a.finite() && b.finite() {
            lemma_round_units(a.magnitude());
            lemma_round_ratio_monotone(
                units(a.magnitude()),
                (units(a.magnitude()) + units(b.magnitude())) as nat,
                1,
            );
        }
    }

    /// Adding the same number keeps the order.
    pub proof fn lemma_sum_monotone(a: Float64, c: Float64, b: Float64)
        requires
            a.positive_sign(),
            c.positive_sign(),
            b.non_negative(),
            a.magnitude() <= c.magnitude(),
        ensures
            Float64::sum(a, b).magnitude() <= Float64::sum(c, b).magnitude(),
    {
        Self::lemma_sum_magnitude(a, b);
        Self::lemma_sum_magnitude(c, b);
        if c.finite() && b.finite() {
            lemma_units_monotone(a.magnitude(), c.magnitude());
            lemma_round_ratio_monotone(
                (units(a.magnitude()) + units(b.magnitude())) as nat,
                (units(c.magnitude()) + units(b.magnitude())) as nat,
                1,
            );
        }
    }
}

proof fn lemma_one()
    ensures
        units(ONE_BITS as nat) == pow2(1074),
{
    lemma2_to64_rest();
    lemma_units_shift(ONE_BITS as nat);
    assert(0x3ff0_0000_0000_0000nat / 0x10_0000_0000_0000 == 1023);
    assert(0x3ff0_0000_0000_0000nat % 0x10_0000_0000_0000 == 0);
    lemma_pow2_adds(52, 1022);
}

/// A whole number of 64 bits is finite as a double, and at least one unless it is
/// zero.
proof fn lemma_whole_number(n: nat)
    requires
        n < 0x1_0000_0000_0000_0000,
    ensures
        nearest(n * pow2(1074), 1) < INFINITY_BITS,
        n > 0 ==> nearest(n * pow2(1074), 1) >= ONE_BITS,
{
    let p = pow2(1074);
    lemma_pow2_pos(1074);
    lemma2_to64();
    lemma2_to64_rest();
    let top: nat = 0x43f0_0000_0000_0000;
    lemma_units_shift(top);
    assert(top / 0x10_0000_0000_0000 == 1087);
    assert(top % 0x10_0000_0000_0000 == 0);
    lemma_pow2_adds(52, 1086);
    lemma_pow2_adds(64, 1074);
    assert(n * p <= 0x1_0000_0000_0000_0000 * p) by (nonlinear_arith)
        requires
            n < 0x1_0000_0000_0000_0000,
    ;
    assert(units(top) == 0x1_0000_0000_0000_0000 * p);
    lemma_round_ratio_monotone(n * p, units(top), 1);
    lemma_round_units(top);
    if n > 0 {
        lemma_one();
        assert(n * p >= p) by (nonlinear_arith)
            requires
                n >= 1,
        ;
        lemma_round_ratio_monotone(p, n * p, 1);
        lemma_round_units(ONE_BITS as nat);
    }
}

/// Dividing by at least one does not go beyond the dividend.
proof fn lemma_quotient_bound(a: nat, b: nat)
    requires
        a < INFINITY_BITS,
        b >= ONE_BITS,
    ensures
        nearest(units(a) * pow2(1074), units(b)) <= a,
{
    let p = pow2(1074);
    lemma_pow2_pos(1074);
    lemma_one();
    lemma_units_monotone(ONE_BITS as nat, b);
    let ua = units(a);
    let ub = units(b);
    // ua * p / ub is at most ua * ub / ub.
    assert(ua * p <= ub * ua) by (nonlinear_arith)
        requires
            p <= ub,
    ;
    lemma_round_ratio_monotone(ua * p, ub * ua, ub);
    lemma_round_ratio_common(ua, 1, ub);
    assert(ub * 1 == ub);
    lemma_round_units(a);
}

impl Float64 {
    /// The quotient of two numbers that are finite and not below zero, the second
    /// not zero, rounded to the nearest double.
    pub open spec fn ratio(a: Float64, b: Float64) -> Float64 {
        Float64::of_magnitude(
            false,
            nearest(units(a.magnitude()) * pow2(1074), units(b.magnitude())),
        )
    }

    /// The product of a finite number that is not below zero and a whole number,
    /// rounded to the nearest double.
    pub open spec fn multiple(a: Float64, k: nat) -> Float64 {
        Float64::of_magnitude(false, nearest(units(a.magnitude()) * k, 1))
    }

    /// The double nearest to a whole number.
    pub fn from_u64(n: u64) -> (r: Float64)
        ensures
            r == Float64::of_int(n as int),
            r.positive_sign(),
            r.finite(),
            n > 0 ==> r.magnitude() >= ONE_BITS,
    {
        let one = Natural::from_u64(1);
        let mut x = Natural::from_u64(n);
        x.times_power_of_two(1074);
        let m: u64 = round_to_nearest(&x, &one);
        proof {
            lemma_pow2_pos(1074);
            let p = pow2(1074) as int;
            let k = n as int;
            assert(k * p >= 0) by (nonlinear_arith)
                requires
                    k >= 0,
                    p > 0,
            ;
            Self::lemma_of_magnitude(m as nat);
            lemma_whole_number(n as nat);
        }
        Float64::with_sign(false, m)
    }

    /// The quotient of two numbers.
    pub fn divided_by(self, other: Float64) -> (r: Float64)
        requires
            self.positive_sign(),
            self.finite(),
            other.positive_sign(),
            other.finite(),
            other.magnitude() > 0,
        ensures
            r == Float64::ratio(self, other),
            r.positive_sign(),
            other.magnitude() >= ONE_BITS ==> r.finite(),
    {
        let mut num = units_of(self.magnitude_bits());
        num.times_power_of_two(1074);
        let den = units_of(other.magnitude_bits());
        proof {
            lemma_units_monotone(0, other.magnitude());
        }
        let m: u64 = round_to_nearest(&num, &den);
        proof {
            Self::lemma_of_magnitude(m as nat);
            if other.magnitude() >= ONE_BITS {
                lemma_quotient_bound(self.magnitude(), other.magnitude());
            }
        }
        Float64::with_sign(false, m)
    }

    /// The product with a whole number.
    pub fn times(self, k: u32) -> (r: Float64)
        requires
            self.positive_sign(),
            self.finite(),
        ensures
            r == Float64::multiple(self, k as nat),
            r.positive_sign(),
    {
        let mut num = units_of(self.magnitude_bits());
        num.mul_small_plus(k, 0);
        let one = Natural::from_u64(1);
        let m: u64 = round_to_nearest(&num, &one);
        proof {
            Self::lemma_of_magnitude(m as nat);
        }
        Float64::with_sign(false, m)
    }
}

} // verus!
