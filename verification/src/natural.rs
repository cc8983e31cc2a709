//! Natural numbers of any size, as far as the exact arithmetic behind
//! 64-bit floating-point values needs them.

use vstd::arithmetic::power2::*;
use vstd::prelude::*;

verus! {

/// The number that the limbs denote in base `2^32`, lowest limb first.
pub open spec fn limbs_value(s: Seq<u32>) -> nat
    decreases s.len(),
{
    if s.len() == 0 {
        0
    } else {
        s[0] as nat + 0x1_0000_0000 * limbs_value(s.drop_first())
    }
}

/// The place value of limb `i`.
pub open spec fn place(i: nat) -> nat
    decreases i,
{
    if i == 0 {
        1
    } else {
        0x1_0000_0000 * place((i - 1) as nat)
    }
}

proof fn lemma_limbs_bound(s: Seq<u32>)
    ensures
        limbs_value(s) < place(s.len()),
    decreases s.len(),
{
    if s.len() > 0 {
        lemma_limbs_bound(s.drop_first());
        let rest = limbs_value(s.drop_first());
        let p = place((s.len() - 1) as nat);
        assert(s.drop_first().len() == s.len() - 1);
        assert(rest + 1 <= p);
        assert(0x1_0000_0000 * rest + 0x1_0000_0000 <= 0x1_0000_0000 * p);
    }
}

proof fn lemma_limbs_push(s: Seq<u32>, x: u32)
    ensures
        limbs_value(s.push(x)) == limbs_value(s) + x as nat * place(s.len()),
    decreases s.len(),
{
    if s.len() == 0 {
        assert(s.push(x).drop_first() =~= Seq::<u32>::empty());
        assert(limbs_value(s.push(x)) == x as nat + 0x1_0000_0000 * limbs_value(
            Seq::<u32>::empty(),
        ));
        assert(x as nat * place(0) == x as nat) by (nonlinear_arith)
            requires
                place(0) == 1,
        ;
    } else {
        assert(s.drop_first().len() == s.len() - 1);
        assert(s.push(x)[0] == s[0]);
        assert(s.push(x).drop_first() =~= s.drop_first().push(x));
        lemma_limbs_push(s.drop_first(), x);
        let p = place((s.len() - 1) as nat);
        assert(0x1_0000_0000 * (x as nat * p) == x as nat * (0x1_0000_0000 * p))
            by (nonlinear_arith);
    }
}

/// Taking one limb more adds its digit at its place.
proof fn lemma_limbs_step(s: Seq<u32>, i: int)
    requires
        0 <= i < s.len(),
    ensures
        limbs_value(s.take(i + 1)) == limbs_value(s.take(i)) + s[i] as nat * place(i as nat),
{
    assert(s.take(i + 1) =~= s.take(i).push(s[i]));
    lemma_limbs_push(s.take(i), s[i]);
}

/// The limb at position `i`, where every limb above the top is zero.
pub open spec fn limb_at(s: Seq<u32>, i: int) -> u32 {
    if 0 <= i < s.len() {
        s[i]
    } else {
        0
    }
}

/// The value of the lowest `n` limbs, counting limbs above the top as zero.
pub open spec fn low_value(s: Seq<u32>, n: nat) -> nat
    decreases n,
{
    if n == 0 {
        0
    } else {
        low_value(s, (n - 1) as nat) + limb_at(s, n - 1) as nat * place((n - 1) as nat)
    }
}

proof fn lemma_low_value_take(s: Seq<u32>, n: nat)
    requires
        n <= s.len(),
    ensures
        low_value(s, n) == limbs_value(s.take(n as int)),
    decreases n,
{
    if n > 0 {
        lemma_low_value_take(s, (n - 1) as nat);
        lemma_limbs_step(s, n - 1);
    }
}

proof fn lemma_low_value_all(s: Seq<u32>, n: nat)
    requires
        n >= s.len(),
    ensures
        low_value(s, n) == limbs_value(s),
    decreases n,
{
    if n == s.len() {
        lemma_low_value_take(s, n);
        assert(s.take(n as int) =~= s);
    } else {
        lemma_low_value_all(s, (n - 1) as nat);
        assert(0 * place((n - 1) as nat) == 0);
    }
}

proof fn lemma_low_value_bound(s: Seq<u32>, n: nat)
    ensures
        low_value(s, n) < place(n),
    decreases n,
{
    if n > 0 {
        lemma_low_value_bound(s, (n - 1) as nat);
        let p = place((n - 1) as nat);
        let x = limb_at(s, n - 1) as nat;
        assert(x * p <= 0xffff_ffff * p) by (nonlinear_arith)
            requires
                x <= 0xffff_ffff,
        ;
    }
}

/// A natural number held as limbs in base `2^32`, lowest first.
pub struct Natural {
    limbs: Vec<u32>,
}

impl View for Natural {
    type V = nat;

    closed spec fn view(&self) -> nat {
        limbs_value(self.limbs@)
    }
}

impl Natural {
    /// The number `n`.
    pub fn from_u64(n: u64) -> (r: Natural)
        ensures
            r@ == n,
    {
        let mut limbs: Vec<u32> = Vec::new();
        let low: u32 = (n % 0x1_0000_0000) as u32;
        let high: u32 = (n / 0x1_0000_0000) as u32;
        limbs.push(low);
        limbs.push(high);
        proof {
            reveal_with_fuel(limbs_value, 3);
            assert(limbs@.drop_first() =~= seq![high]);
            assert(limbs@.drop_first().drop_first() =~= Seq::<u32>::empty());
        }
        Natural { limbs }
    }

    /// Replaces the number by `self * m + a`.
    pub fn mul_small_plus(&mut self, m: u32, a: u32)
        ensures
            final(self)@ == old(self)@ * m + a,
    {
        let mut out: Vec<u32> = Vec::new();
        let mut carry: u64 = a as u64;
        let mut i: usize = 0;
        proof {
            assert(limbs_value(self.limbs@.take(0)) == 0);
            assert(limbs_value(out@) == 0);
            assert(place(0) == 1);
        }
        while i < self.limbs.len()
            invariant
                i <= self.limbs.len(),
                out.len() == i,
                carry <= 0xffff_ffff,
                self.limbs@ == old(self).limbs@,
                limbs_value(out@) + carry as nat * place(i as nat) == limbs_value(
                    self.limbs@.take(i as int),
                ) * m + a,
            decreases self.limbs.len() - i,
        {
            let x: u32 = self.limbs[i];
            assert((x as nat) * (m as nat) <= 0xffff_ffff * 0xffff_ffff) by (nonlinear_arith)
                requires
                    x <= 0xffff_ffff,
                    m <= 0xffff_ffff,
            ;
            let t: u64 = x as u64 * m as u64 + carry;
            let low: u32 = (t % 0x1_0000_0000) as u32;
            let high: u64 = t / 0x1_0000_0000;
            proof {
                lemma_limbs_push(out@, low);
                lemma_limbs_step(self.limbs@, i as int);
                let p = place(i as nat);
                let before = limbs_value(self.limbs@.take(i as int));
                let done = limbs_value(out@);
                assert(t as nat == low as nat + 0x1_0000_0000 * high as nat);
                assert(done + low as nat * p + high as nat * (0x1_0000_0000 * p) == done + t as nat
                    * p) by (nonlinear_arith)
                    requires
                        t as nat == low as nat + 0x1_0000_0000 * high as nat,
                ;
                assert(done + t as nat * p == (before + x as nat * p) * m + a) by (nonlinear_arith)
                    requires
                        done + carry as nat * p == before * m + a,
                        t as nat == x as nat * m as nat + carry as nat,
                ;
            }
            out.push(low);
            carry = high;
            i += 1;
        }
        proof {
            assert(self.limbs@.take(i as int) =~= self.limbs@);
            lemma_limbs_push(out@, carry as u32);
        }
        out.push(carry as u32);
        self.limbs = out;
    }

    /// The number times `2^k`.
    pub fn times_power_of_two(&mut self, k: u32)
        ensures
            final(self)@ == old(self)@ * pow2(k as nat),
    {
        let mut left: u32 = k;
        let ghost start = self@;
        proof {
            lemma2_to64();
            assert(self@ * pow2(0) == self@);
        }
        while left >= 16
            invariant
                left <= k,
                start == old(self)@,
                self@ == start * pow2((k - left) as nat),
            decreases left,
        {
            let ghost before = self@;
            let ghost shifted = (k - left) as nat;
            self.mul_small_plus(0x1_0000, 0);
            left -= 16;
            proof {
                lemma2_to64();
                lemma_pow2_adds(shifted, 16);
                assert(before * 0x1_0000 == start * (pow2(shifted) * 0x1_0000))
                    by (nonlinear_arith)
                    requires
                        before == start * pow2(shifted),
                ;
            }
        }
        while left > 0
            invariant
                left <= k,
                start == old(self)@,
                self@ == start * pow2((k - left) as nat),
            decreases left,
        {
            let ghost before = self@;
            let ghost shifted = (k - left) as nat;
            self.mul_small_plus(2, 0);
            left -= 1;
            proof {
                lemma2_to64();
                lemma_pow2_adds(shifted, 1);
                assert(before * 2 == start * (pow2(shifted) * 2)) by (nonlinear_arith)
                    requires
                        before == start * pow2(shifted),
                ;
            }
        }
    }

    fn limb(&self, i: usize) -> (r: u32)
        ensures
            r == limb_at(self.limbs@, i as int),
    {
        if i < self.limbs.len() {
            self.limbs[i]
        } else {
            0
        }
    }

    /// Whether the number is at least `other`.
    pub fn at_least(&self, other: &Natural) -> (r: bool)
        ensures
            r == (self@ >= other@),
    {
        let top: usize = if self.limbs.len() >= other.limbs.len() {
            self.limbs.len()
        } else {
            other.limbs.len()
        };
        let mut i: usize = top;
        proof {
            lemma_low_value_all(self.limbs@, top as nat);
            lemma_low_value_all(other.limbs@, top as nat);
        }
        while i > 0
            invariant
                i <= top,
                (self@ >= other@) == (low_value(self.limbs@, i as nat) >= low_value(
                    other.limbs@,
                    i as nat,
                )),
            decreases i,
        {
            i -= 1;
            let x: u32 = self.limb(i);
            let y: u32 = other.limb(i);
            proof {
                lemma_low_value_bound(self.limbs@, i as nat);
                lemma_low_value_bound(other.limbs@, i as nat);
                let p = place(i as nat);
                if x > y {
                    assert(x as nat * p >= y as nat * p + p) by (nonlinear_arith)
                        requires
                            x >= y + 1,
                    ;
                } else if x < y {
                    assert(y as nat * p >= x as nat * p + p) by (nonlinear_arith)
                        requires
                            y >= x + 1,
                    ;
                }
            }
            if x > y {
                return true;
            }
            if x < y {
                return false;
            }
        }
        true
    }

    /// Whether the number is zero.
    pub fn is_zero(&self) -> (r: bool)
        ensures
            r == (self@ == 0),
    {
        let zero = Natural::from_u64(0);
        zero.at_least(self)
    }

    /// The sum of two numbers.
    pub fn plus(&self, other: &Natural) -> (r: Natural)
        ensures
            r@ == self@ + other@,
    {
        let top: usize = if self.limbs.len() >= other.limbs.len() {
            self.limbs.len()
        } else {
            other.limbs.len()
        };
        let mut out: Vec<u32> = Vec::new();
        let mut carry: u64 = 0;
        let mut i: usize = 0;
        proof {
            assert(limbs_value(out@) == 0);
            assert(place(0) == 1);
        }
        while i < top
            invariant
                i <= top,
                out.len() == i,
                carry <= 1,
                limbs_value(out@) + carry as nat * place(i as nat) == low_value(
                    self.limbs@,
                    i as nat,
                ) + low_value(other.limbs@, i as nat),
            decreases top - i,
        {
            let x: u32 = self.limb(i);
            let y: u32 = other.limb(i);
            let t: u64 = x as u64 + y as u64 + carry;
            let low: u32 = (t % 0x1_0000_0000) as u32;
            let high: u64 = t / 0x1_0000_0000;
            proof {
                lemma_limbs_push(out@, low);
                let p = place(i as nat);
                assert(low as nat * p + high as nat * (0x1_0000_0000 * p) == x as nat * p + y as nat
                    * p + carry as nat * p) by (nonlinear_arith)
                    requires
                        x as nat + y as nat + carry as nat == low as nat + 0x1_0000_0000
                            * high as nat,
                ;
            }
            out.push(low);
            carry = high;
            i += 1;
        }
        proof {
            lemma_low_value_all(self.limbs@, top as nat);
            lemma_low_value_all(other.limbs@, top as nat);
            lemma_limbs_push(out@, carry as u32);
        }
        out.push(carry as u32);
        Natural { limbs: out }
    }

    /// The difference of two numbers, where it is not negative.
    pub fn minus(&self, other: &Natural) -> (r: Natural)
        requires
            self@ >= other@,
        ensures
            r@ == self@ - other@,
    {
        let top: usize = if self.limbs.len() >= other.limbs.len() {
            self.limbs.len()
        } else {
            other.limbs.len()
        };
        let mut out: Vec<u32> = Vec::new();
        let mut borrow: u64 = 0;
        let mut i: usize = 0;
        proof {
            assert(limbs_value(out@) == 0);
            assert(place(0) == 1);
        }
        while i < top
            invariant
                i <= top,
                out.len() == i,
                borrow <= 1,
                limbs_value(out@) + low_value(other.limbs@, i as nat) == low_value(
                    self.limbs@,
                    i as nat,
                ) + borrow as nat * place(i as nat),
            decreases top - i,
        {
            let x: u32 = self.limb(i);
            let y: u32 = other.limb(i);
            let t: u64 = 0x1_0000_0000 + x as u64 - y as u64 - borrow;
            let low: u32 = (t % 0x1_0000_0000) as u32;
            let next: u64 = if t >= 0x1_0000_0000 { 0 } else { 1 };
            proof {
                lemma_limbs_push(out@, low);
                let p = place(i as nat);
                assert(low as nat + y as nat + borrow as nat == x as nat + 0x1_0000_0000
                    * next as nat);
                assert(low as nat * p + y as nat * p + borrow as nat * p == x as nat * p
                    + next as nat * (0x1_0000_0000 * p)) by (nonlinear_arith)
                    requires
                        low as nat + y as nat + borrow as nat == x as nat + 0x1_0000_0000
                            * next as nat,
                ;
            }
            out.push(low);
            borrow = next;
            i += 1;
        }
        proof {
            lemma_low_value_all(self.limbs@, top as nat);
            lemma_low_value_all(other.limbs@, top as nat);
            lemma_limbs_bound(out@);
            if borrow == 1 {
                assert(1 * place(i as nat) == place(i as nat));
            }
        }
        Natural { limbs: out }
    }

    /// A copy of the number.
    pub fn copy(&self) -> (r: Natural)
        ensures
            r@ == self@,
    {
        let zero = Natural::from_u64(0);
        zero.plus(self)
    }

    /// Replaces the number by its quotient by `d` and gives the remainder.
    pub fn div_small(&mut self, d: u32) -> (r: u32)
        requires
            d > 0,
        ensures
            final(self)@ == old(self)@ / (d as nat),
            r == old(self)@ % (d as nat),
    {
        let ghost whole = self.limbs@;
        let n: usize = self.limbs.len();
        let mut i: usize = n;
        let mut rest: u64 = 0;
        let ghost mut high: nat = 0;
        let ghost mut quotient: nat = 0;
        proof {
            assert(self.limbs@.skip(n as int) =~= Seq::empty());
            assert(whole.skip(n as int) =~= Seq::empty());
        }
        while i > 0
            invariant
                i <= n,
                n == self.limbs.len(),
                n == whole.len(),
                d > 0,
                rest < d,
                high == limbs_value(whole.skip(i as int)),
                quotient == limbs_value(self.limbs@.skip(i as int)),
                high == quotient * d + rest,
                forall|j: int| 0 <= j < i ==> self.limbs@[j] == whole[j],
            decreases i,
        {
            i -= 1;
            let x: u32 = self.limbs[i];
            let cur: u64 = rest * 0x1_0000_0000 + x as u64;
            let q: u64 = cur / d as u64;
            let next: u64 = cur % d as u64;
            proof {
                vstd::arithmetic::div_mod::lemma_fundamental_div_mod(cur as int, d as int);
                assert(q < 0x1_0000_0000) by (nonlinear_arith)
                    requires
                        cur == d * q + next,
                        rest + 1 <= d,
                        cur == rest * 0x1_0000_0000 + x,
                        x < 0x1_0000_0000,
                        next >= 0,
                ;
                assert(whole.skip(i as int).drop_first() =~= whole.skip(i + 1));
                assert(whole.skip(i as int)[0] == x);
            }
            let ghost before = self.limbs@;
            self.limbs[i] = q as u32;
            proof {
                assert(self.limbs@.skip(i as int).drop_first() =~= before.skip(i + 1));
                assert(self.limbs@.skip(i as int)[0] == q as u32);
                let b: nat = 0x1_0000_0000;
                assert(x + b * high == (q + b * quotient) * d + next) by (nonlinear_arith)
                    requires
                        high == quotient * d + rest,
                        cur == d * q + next,
                        cur == rest * b + x,
                ;
                high = x as nat + b * high;
                quotient = q as nat + b * quotient;
            }
            rest = next;
        }
        proof {
            assert(whole.skip(0) =~= whole);
            assert(self.limbs@.skip(0) =~= self.limbs@);
            vstd::arithmetic::div_mod::lemma_fundamental_div_mod_converse(
                high as int,
                d as int,
                quotient as int,
                rest as int,
            );
        }
        rest as u32
    }
}

} // verus!
