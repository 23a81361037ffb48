//! Arithmetic, comparison and conversion of signed numbers.
use core::cmp::Ordering;
use vstd::arithmetic::div_mod::*;
use vstd::arithmetic::power2::*;
use vstd::prelude::*;

use crate::num::magnitude::{
    difference_of, lemma_split, lemma_units_monotone, lemma_units_zero, product_of, quotient_of,
    root_of, split, sum_of,
};
use crate::num::model::{
    mag_units, not_a_number, root_mag, round_mag, with_sign, Real, INF_MAG, NAN_BITS, SIGN,
};
use crate::num::rounding::{
    down, in_cell, lemma_small_div_mod, power_of_two, round_scaled, up,
};

verus! {

/// The position of a number in numeric order.
pub open spec fn order_key(x: Real) -> int {
    if x.negative() {
        -(x.mag() as int)
    } else {
        x.mag() as int
    }
}

/// Numbers are ordered as their keys are.
pub proof fn lemma_order_key(a: Real, b: Real)
    requires
        !a.nan(),
        !b.nan(),
    ensures
        a.value() < b.value() <==> order_key(a) < order_key(b),
        a.value() == b.value() <==> order_key(a) == order_key(b),
{
    lemma_units_zero(a.mag());
    lemma_units_zero(b.mag());
    if a.mag() < b.mag() {
        lemma_units_monotone(a.mag(), b.mag());
    } else if b.mag() < a.mag() {
        lemma_units_monotone(b.mag(), a.mag());
    }
}

/// Assembles a number from a sign and a magnitude.
fn assemble(negative: bool, mag: u64) -> (r: Real)
    requires
        mag < SIGN,
    ensures
        r == with_sign(negative, mag as nat),
        r.mag() == mag,
        r.negative() == negative,
{
    if negative {
        Real { bits: SIGN + mag }
    } else {
        Real { bits: mag }
    }
}

impl Real {
    /// The number with the given IEEE 754 bit pattern.
    pub fn from_bits(bits: u64) -> (r: Real)
        ensures
            r == (Real { bits }),
    {
        Real { bits }
    }

    /// The number with its sign flipped.
    pub open spec fn spec_neg(self) -> Real {
        with_sign(!self.negative(), self.mag())
    }

    /// The correctly rounded square root.
    #[verifier::opaque]
    pub open spec fn spec_sqrt(self) -> Real {
        if self.nan() {
            not_a_number()
        } else if self.zero() {
            self
        } else if self.negative() {
            not_a_number()
        } else if self.infinite() {
            self
        } else {
            with_sign(false, root_mag(mag_units(self.mag()) * pow2(1074)))
        }
    }

    /// The magnitude of the number.
    pub open spec fn spec_abs(self) -> Real {
        with_sign(false, self.mag())
    }

    /// One with the sign of the number.
    pub open spec fn spec_signum(self) -> Real {
        if self.nan() {
            self
        } else {
            with_sign(self.negative(), Real::spec_whole(1).mag())
        }
    }

    /// The larger of two numbers; the other one where one is not a number.
    pub open spec fn spec_max(self, rhs: Real) -> Real {
        if self.nan() {
            rhs
        } else if rhs.nan() {
            self
        } else if self < rhs {
            rhs
        } else {
            self
        }
    }

    /// The smaller of two numbers; the other one where one is not a number.
    pub open spec fn spec_min(self, rhs: Real) -> Real {
        if self.nan() {
            rhs
        } else if rhs.nan() {
            self
        } else if rhs < self {
            rhs
        } else {
            self
        }
    }

    /// The number moved into `[lo, hi]`.
    pub open spec fn spec_clamp(self, lo: Real, hi: Real) -> Real {
        if self < lo {
            lo
        } else if self > hi {
            hi
        } else {
            self
        }
    }

    /// The nearest number to an integer.
    pub open spec fn spec_whole(x: i64) -> Real {
        if x < 0 {
            with_sign(true, round_mag(((-x) * pow2(1074)) as nat, 1))
        } else {
            with_sign(false, round_mag((x * pow2(1074)) as nat, 1))
        }
    }

    /// The nearest number to a count.
    pub open spec fn spec_count(x: usize) -> Real {
        with_sign(false, round_mag(x as nat * pow2(1074), 1))
    }

    /// The nearest number to a time stamp or another 64-bit count.
    pub open spec fn spec_stamp(x: u64) -> Real {
        with_sign(false, round_mag(x as nat * pow2(1074), 1))
    }

    /// The nearest number to the fraction `n / d` of two exact integers, such as
    /// the decimal literal `0.05` for `5` and `100`.
    pub open spec fn spec_ratio(n: i64, d: i64) -> Real {
        Real::spec_whole(n).spec_div(Real::spec_whole(d))
    }

    /// The integer part, as a saturating conversion to an index gives it: zero
    /// for negative numbers and values that are not numbers.
    pub open spec fn spec_index(self) -> usize {
        let i = mag_units(self.mag()) / pow2(1074);
        if self.nan() || self.negative() {
            0
        } else if i > usize::MAX {
            usize::MAX
        } else {
            i as usize
        }
    }

    /// The nearest integer, ties away from zero.
    pub open spec fn spec_round(self) -> Real {
        if self.finite() {
            let i = (2 * mag_units(self.mag()) + pow2(1074)) as nat / (2 * pow2(1074)) as nat;
            with_sign(self.negative(), round_mag(i * pow2(1074), 1))
        } else {
            self
        }
    }

    pub open spec fn spec_is_nan(self) -> bool {
        self.nan()
    }

    fn sign(self) -> (r: bool)
        ensures
            r == self.negative(),
    {
        self.bits >= SIGN
    }

    fn magnitude(self) -> (r: u64)
        ensures
            r == self.mag(),
            r < SIGN,
    {
        if self.bits >= SIGN {
            self.bits - SIGN
        } else {
            self.bits
        }
    }

    /// Whether the pattern denotes no number.
    #[verifier::when_used_as_spec(spec_is_nan)]
    pub fn is_nan(self) -> (r: bool)
        ensures
            r == self.nan(),
    {
        self.magnitude() > INF_MAG
    }

    /// The number with its sign flipped.
    #[verifier::when_used_as_spec(spec_neg)]
    pub fn neg(self) -> (r: Real)
        ensures
            r == self.spec_neg(),
    {
        assemble(!self.sign(), self.magnitude())
    }

    #[verifier::when_used_as_spec(spec_abs)]
    pub fn abs(self) -> (r: Real)
        ensures
            r == self.spec_abs(),
    {
        assemble(false, self.magnitude())
    }

    #[verifier::when_used_as_spec(spec_signum)]
    pub fn signum(self) -> (r: Real)
        ensures
            r == self.spec_signum(),
    {
        if self.is_nan() {
            self
        } else {
            assemble(self.sign(), Real::whole(1).magnitude())
        }
    }

    #[verifier::when_used_as_spec(spec_max)]
    pub fn max(self, rhs: Real) -> (r: Real)
        ensures
            r == self.spec_max(rhs),
    {
        if self.is_nan() {
            rhs
        } else if rhs.is_nan() {
            self
        } else if self < rhs {
            rhs
        } else {
            self
        }
    }

    #[verifier::when_used_as_spec(spec_min)]
    pub fn min(self, rhs: Real) -> (r: Real)
        ensures
            r == self.spec_min(rhs),
    {
        if self.is_nan() {
            rhs
        } else if rhs.is_nan() {
            self
        } else if rhs < self {
            rhs
        } else {
            self
        }
    }

    /// The number moved into `[lo, hi]`.
    #[verifier::when_used_as_spec(spec_clamp)]
    pub fn clamp(self, lo: Real, hi: Real) -> (r: Real)
        requires
            lo <= hi,
        ensures
            r == self.spec_clamp(lo, hi),
    {
        if self < lo {
            lo
        } else if self > hi {
            hi
        } else {
            self
        }
    }

    /// The correctly rounded square root.
    #[verifier::when_used_as_spec(spec_sqrt)]
    pub fn sqrt(self) -> (r: Real)
        ensures
            r == self.spec_sqrt(),
    {
        proof {
            reveal(Real::spec_sqrt);
        }
        let m: u64 = self.magnitude();
        if m > INF_MAG {
            Real { bits: NAN_BITS }
        } else if m == 0 {
            self
        } else if self.sign() {
            Real { bits: NAN_BITS }
        } else if m == INF_MAG {
            self
        } else {
            assemble(false, root_of(m))
        }
    }

    /// The integer part, as a saturating conversion to an index gives it.
    #[verifier::when_used_as_spec(spec_index)]
    pub fn index(self) -> (r: usize)
        ensures
            r == self.spec_index(),
    {
        let b: u64 = self.magnitude();
        if b > INF_MAG || self.sign() {
            return 0;
        }
        let (m, k) = split(b);
        proof {
            lemma2_to64();
            lemma_pow2_pos(1074);
        }
        if k >= 1074 {
            let t: u32 = k - 1074;
            proof {
                lemma_pow2_adds(t as nat, 1074);
                assert(mag_units(b as nat) == (m * pow2(t as nat)) * pow2(1074)) by (nonlinear_arith)
                    requires
                        mag_units(b as nat) == m * pow2(k as nat),
                        pow2(k as nat) == pow2(t as nat) * pow2(1074),
                ;
                lemma_div_by_multiple((m * pow2(t as nat)) as int, pow2(1074) as int);
            }
            if t >= 64 {
                proof {
                    if t > 64 {
                        lemma_pow2_strictly_increases(64, t as nat);
                    }
                    assert(m * pow2(t as nat) > usize::MAX) by (nonlinear_arith)
                        requires
                            m >= 0x10_0000_0000_0000,
                            pow2(t as nat) >= 0x1_0000_0000_0000_0000,
                            usize::MAX <= 0xffff_ffff_ffff_ffff,
                    ;
                }
                return usize::MAX;
            }
            proof {
                lemma_pow2_strictly_increases(t as nat, 64);
                assert(m * pow2(t as nat) <= 0x20_0000_0000_0000 * 0x1_0000_0000_0000_0000)
                    by (nonlinear_arith)
                    requires
                        m < 0x20_0000_0000_0000,
                        pow2(t as nat) < 0x1_0000_0000_0000_0000,
                ;
            }
            let i: u128 = m as u128 * power_of_two(t);
            if i > usize::MAX as u128 {
                usize::MAX
            } else {
                i as usize
            }
        } else {
            let s: u32 = 1074 - k;
            proof {
                lemma_pow2_adds(k as nat, s as nat);
                lemma_pow2_pos(k as nat);
                lemma_pow2_pos(s as nat);
                lemma_div_multiples_vanish_quotient(pow2(k as nat) as int, m as int, pow2(s as nat) as int);
                assert(m * pow2(k as nat) == pow2(k as nat) * m) by (nonlinear_arith);
            }
            if s >= 64 {
                proof {
                    if s > 64 {
                        lemma_pow2_strictly_increases(64, s as nat);
                    }
                    lemma_small_div_mod(m as nat, pow2(s as nat));
                }
                return 0;
            }
            let i: u128 = m as u128 / power_of_two(s);
            proof {
                lemma_div_is_ordered_by_denominator(m as int, 1, pow2(s as nat) as int);
                lemma_div_basics(m as int);
            }
            if i > usize::MAX as u128 {
                usize::MAX
            } else {
                i as usize
            }
        }
    }

    /// The nearest integer, ties away from zero.
    #[verifier::when_used_as_spec(spec_round)]
    pub fn round(self) -> (r: Real)
        ensures
            r == self.spec_round(),
    {
        let b: u64 = self.magnitude();
        if b >= INF_MAG {
            return self;
        }
        let (m, k) = split(b);
        proof {
            lemma2_to64();
            lemma2_to64_rest();
            lemma_pow2_pos(1074);
        }
        let ghost i = (2 * mag_units(b as nat) + pow2(1074)) as nat / (2 * pow2(1074)) as nat;
        if k >= 1074 {
            proof {
                let t = (k - 1074) as nat;
                lemma_pow2_adds(t, 1074);
                let c = m * pow2(t);
                let u = pow2(1074);
                assert(mag_units(b as nat) == c * u) by (nonlinear_arith)
                    requires
                        mag_units(b as nat) == m * pow2(k as nat),
                        pow2(k as nat) == pow2(t) * u,
                        c == m * pow2(t),
                ;
                assert(2 * (c * u) + u == c * (2 * u) + u) by (nonlinear_arith);
                lemma_fundamental_div_mod_converse((2 * (c * u) + u) as int, (2 * u) as int, c as int, u as int);
                assert(i == c);
                lemma_round_exact(b as nat);
            }
            self
        } else {
            let s: u32 = 1074 - k;
            proof {
                lemma_pow2_adds(k as nat, s as nat);
                lemma_pow2_pos(k as nat);
                lemma_pow2_pos(s as nat);
                let pk = pow2(k as nat);
                let ps = pow2(s as nat);
                assert(2 * (m * pk) + pk * ps == pk * (2 * m + ps) && 2 * (pk * ps) == pk * (2 * ps))
                    by (nonlinear_arith);
                lemma_div_multiples_vanish_quotient(pk as int, (2 * m + ps) as int, (2 * ps) as int);
                assert(i == (2 * m + ps) as nat / (2 * ps) as nat);
            }
            if s >= 56 {
                proof {
                    if s > 56 {
                        lemma_pow2_strictly_increases(56, s as nat);
                    }
                    let ps = pow2(s as nat);
                    lemma_small_div_mod((2 * m + ps) as nat, (2 * ps) as nat);
                    assert(0 * pow2(1074) == 0);
                    crate::num::magnitude::lemma_round_zero(1);
                }
                return assemble(self.sign(), 0);
            }
            proof {
                lemma_pow2_strictly_increases(s as nat, 56);
            }
            let p: u128 = power_of_two(s);
            let c: u128 = (2 * (m as u128) + p) / (2 * p);
            proof {
                lemma_div_is_ordered_by_denominator((2 * m + p) as int, 1, (2 * p) as int);
                lemma_div_basics((2 * m + p) as int);
            }
            assemble(self.sign(), nearest_to(c))
        }
    }

    /// The nearest number to an integer.
    #[verifier::when_used_as_spec(spec_whole)]
    pub fn whole(x: i64) -> (r: Real)
        ensures
            r == Real::spec_whole(x),
    {
        if x < 0 {
            assemble(true, nearest_to((-(x as i128)) as u128))
        } else {
            assemble(false, nearest_to(x as u128))
        }
    }

    /// The nearest number to a count.
    #[verifier::when_used_as_spec(spec_count)]
    pub fn count(x: usize) -> (r: Real)
        ensures
            r == Real::spec_count(x),
    {
        assemble(false, nearest_to(x as u128))
    }

    /// The nearest number to a time stamp or another 64-bit count.
    #[verifier::when_used_as_spec(spec_stamp)]
    pub fn stamp(x: u64) -> (r: Real)
        ensures
            r == Real::spec_stamp(x),
    {
        assemble(false, nearest_to(x as u128))
    }

    /// The nearest number to a fraction of two exact integers.
    #[verifier::when_used_as_spec(spec_ratio)]
    pub fn ratio(n: i64, d: i64) -> (r: Real)
        ensures
            r == Real::spec_ratio(n, d),
    {
        Real::whole(n) / Real::whole(d)
    }
}

/// Rounding leaves a magnitude that is already a number unchanged.
pub proof fn lemma_round_exact(b: nat)
    requires
        b < INF_MAG,
    ensures
        round_mag(mag_units(b), 1) == b,
{
    reveal(round_mag);
    lemma_split(b);
    lemma2_to64();
    lemma2_to64_rest();
    let m = crate::num::model::mag_significand(b);
    let k = crate::num::model::mag_exponent(b);
    let n = mag_units(b);
    lemma_pow2_pos(k);
    assert(n < 1 * pow2(53) * pow2(k)) by (nonlinear_arith)
        requires
            n == m * pow2(k),
            m < pow2(53),
            pow2(k) > 0,
    ;
    if k > 0 {
        let j = (k - 1) as nat;
        lemma_pow2_unfold(k);
        assert(n >= 1 * pow2(53) * pow2(j)) by (nonlinear_arith)
            requires
                n == m * pow2(k),
                2 * m >= pow2(53),
                pow2(k) == 2 * pow2(j),
        ;
    }
    crate::num::rounding::lemma_ulp_exponent(n, 1, k);
    assert(1 * pow2(k) == pow2(k));
    assert(m * pow2(k) <= n < (m + 1) * pow2(k) && 2 * n < (2 * m + 1) * pow2(k)) by (nonlinear_arith)
        requires
            n == m * pow2(k),
            pow2(k) > 0,
    ;
    crate::num::rounding::lemma_nearest_even(n, pow2(k), m);
}

/// The nearest magnitude to an integer.
fn nearest_to(x: u128) -> (r: u64)
    requires
        x <= 0xffff_ffff_ffff_ffff,
    ensures
        r == round_mag(x as nat * pow2(1074), 1),
        r <= INF_MAG,
{
    proof {
        lemma2_to64();
        lemma_pow2_pos(1074);
        let n = x as nat * pow2(1074);
        assert(in_cell(n, 1, x as nat, 1074, false)) by {
            assert(1 * x * up(1074) == n && n * down(1074) == n && n < 1 * (x + 1) * up(1074))
                by (nonlinear_arith)
                requires
                    n == x * pow2(1074),
                    up(1074) == pow2(1074),
                    down(1074) == 1,
                    pow2(1074) > 0,
            ;
        }
    }
    if x == 0 {
        proof {
            assert(x as nat * pow2(1074) == 0) by (nonlinear_arith)
                requires
                    x == 0,
            ;
            crate::num::magnitude::lemma_round_zero(1);
        }
        return 0;
    }
    round_scaled(x, 1074, false, Ghost(x as nat * pow2(1074)), Ghost(1))
}

impl core::ops::Add for Real {
    type Output = Real;

    fn add(self, rhs: Real) -> (r: Real) {
        proof {
            reveal(Real::spec_add);
        }
        let a: u64 = self.magnitude();
        let b: u64 = rhs.magnitude();
        if a > INF_MAG || b > INF_MAG {
            return Real { bits: NAN_BITS };
        }
        if a == INF_MAG {
            if b == INF_MAG && self.sign() != rhs.sign() {
                return Real { bits: NAN_BITS };
            }
            return self;
        }
        if b == INF_MAG {
            return rhs;
        }
        proof {
            lemma_units_zero(a as nat);
            lemma_units_zero(b as nat);
        }
        if self.sign() == rhs.sign() {
            let m: u64 = sum_of(a, b);
            proof {
                if a == 0 && b == 0 {
                    crate::num::magnitude::lemma_round_zero(1);
                }
            }
            assemble(self.sign(), m)
        } else if a > b {
            assemble(self.sign(), difference_of(a, b))
        } else if b > a {
            assemble(rhs.sign(), difference_of(b, a))
        } else {
            assemble(false, 0)
        }
    }
}

impl vstd::std_specs::ops::AddSpecImpl for Real {
    open spec fn obeys_add_spec() -> bool {
        true
    }

    open spec fn add_req(self, rhs: Real) -> bool {
        true
    }

    open spec fn add_spec(self, rhs: Real) -> Real {
        self.spec_add(rhs)
    }
}

impl core::ops::Sub for Real {
    type Output = Real;

    fn sub(self, rhs: Real) -> (r: Real) {
        self + rhs.neg()
    }
}

impl vstd::std_specs::ops::SubSpecImpl for Real {
    open spec fn obeys_sub_spec() -> bool {
        true
    }

    open spec fn sub_req(self, rhs: Real) -> bool {
        true
    }

    open spec fn sub_spec(self, rhs: Real) -> Real {
        self.spec_sub(rhs)
    }
}

impl core::ops::Mul for Real {
    type Output = Real;

    fn mul(self, rhs: Real) -> (r: Real) {
        proof {
            reveal(Real::spec_mul);
        }
        let a: u64 = self.magnitude();
        let b: u64 = rhs.magnitude();
        let negative: bool = self.sign() != rhs.sign();
        if a > INF_MAG || b > INF_MAG {
            return Real { bits: NAN_BITS };
        }
        if a == INF_MAG || b == INF_MAG {
            if a == 0 || b == 0 {
                return Real { bits: NAN_BITS };
            }
            return assemble(negative, INF_MAG);
        }
        assemble(negative, product_of(a, b))
    }
}

impl vstd::std_specs::ops::MulSpecImpl for Real {
    open spec fn obeys_mul_spec() -> bool {
        true
    }

    open spec fn mul_req(self, rhs: Real) -> bool {
        true
    }

    open spec fn mul_spec(self, rhs: Real) -> Real {
        self.spec_mul(rhs)
    }
}

impl core::ops::Div for Real {
    type Output = Real;

    fn div(self, rhs: Real) -> (r: Real) {
        proof {
            reveal(Real::spec_div);
        }
        let a: u64 = self.magnitude();
        let b: u64 = rhs.magnitude();
        let negative: bool = self.sign() != rhs.sign();
        if a > INF_MAG || b > INF_MAG {
            return Real { bits: NAN_BITS };
        }
        if a == INF_MAG {
            if b == INF_MAG {
                return Real { bits: NAN_BITS };
            }
            return assemble(negative, INF_MAG);
        }
        if b == INF_MAG {
            return assemble(negative, 0);
        }
        if b == 0 {
            if a == 0 {
                return Real { bits: NAN_BITS };
            }
            return assemble(negative, INF_MAG);
        }
        assemble(negative, quotient_of(a, b))
    }
}

impl vstd::std_specs::ops::DivSpecImpl for Real {
    open spec fn obeys_div_spec() -> bool {
        true
    }

    open spec fn div_req(self, rhs: Real) -> bool {
        true
    }

    open spec fn div_spec(self, rhs: Real) -> Real {
        self.spec_div(rhs)
    }
}

impl PartialEq for Real {
    fn eq(&self, rhs: &Real) -> (r: bool) {
        let a: u64 = self.magnitude();
        let b: u64 = rhs.magnitude();
        if a > INF_MAG || b > INF_MAG {
            return false;
        }
        proof {
            lemma_order_key(*self, *rhs);
        }
        a == b && (a == 0 || self.sign() == rhs.sign())
    }
}

impl vstd::std_specs::cmp::PartialEqSpecImpl for Real {
    open spec fn obeys_eq_spec() -> bool {
        true
    }

    open spec fn eq_spec(&self, rhs: &Real) -> bool {
        self.same_as(*rhs)
    }
}

impl PartialOrd for Real {
    fn partial_cmp(&self, rhs: &Real) -> (r: Option<Ordering>) {
        let a: u64 = self.magnitude();
        let b: u64 = rhs.magnitude();
        if a > INF_MAG || b > INF_MAG {
            return None;
        }
        proof {
            lemma_order_key(*self, *rhs);
        }
        let (s, t) = (self.sign(), rhs.sign());
        if a == 0 && b == 0 {
            Some(Ordering::Equal)
        } else if s != t {
            if s {
                Some(Ordering::Less)
            } else {
                Some(Ordering::Greater)
            }
        } else if a == b {
            Some(Ordering::Equal)
        } else if (a < b) != s {
            Some(Ordering::Less)
        } else {
            Some(Ordering::Greater)
        }
    }
}

impl vstd::std_specs::cmp::PartialOrdSpecImpl for Real {
    open spec fn obeys_partial_cmp_spec() -> bool {
        true
    }

    open spec fn partial_cmp_spec(&self, rhs: &Real) -> Option<Ordering> {
        if self.nan() || rhs.nan() {
            None
        } else if self.value() < rhs.value() {
            Some(Ordering::Less)
        } else if self.value() == rhs.value() {
            Some(Ordering::Equal)
        } else {
            Some(Ordering::Greater)
        }
    }
}

} // verus!
