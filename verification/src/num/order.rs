//! How rounding keeps the order of numbers.
use vstd::arithmetic::div_mod::*;
use vstd::arithmetic::power2::*;
use vstd::prelude::*;

use crate::num::magnitude::{lemma_units_monotone, lemma_units_zero};
use crate::num::model::{
    mag_units, nearest_even, round_mag, ulp_exponent, with_sign, Real, BINADE, INF_MAG,
};
use crate::num::ops::{lemma_order_key, lemma_round_exact, order_key};
use crate::num::rounding::lemma_ulp_exponent_bounds;

verus! {

/// A larger fraction is rounded to at least as large an integer.
proof fn lemma_nearest_even_monotone(n1: nat, d1: nat, n2: nat, d2: nat)
    requires
        d1 > 0,
        d2 > 0,
        n1 * d2 <= n2 * d1,
    ensures
        nearest_even(n1, d1) <= nearest_even(n2, d2),
{
    let (q1, r1) = (n1 / d1, n1 % d1);
    let (q2, r2) = (n2 / d2, n2 % d2);
    lemma_fundamental_div_mod(n1 as int, d1 as int);
    lemma_fundamental_div_mod(n2 as int, d2 as int);
    lemma_mod_bound(n1 as int, d1 as int);
    lemma_mod_bound(n2 as int, d2 as int);
    assert(q1 <= q2) by (nonlinear_arith)
        requires
            d1 > 0,
            d2 > 0,
            n1 * d2 <= n2 * d1,
            n1 == d1 * q1 + r1,
            n2 == d2 * q2 + r2,
            0 <= r1,
            0 <= r2 < d2,
    ;
    if q1 == q2 {
        assert(r1 * d2 <= r2 * d1) by (nonlinear_arith)
            requires
                n1 * d2 <= n2 * d1,
                n1 == d1 * q1 + r1,
                n2 == d2 * q2 + r2,
                q1 == q2,
        ;
        if 2 * r1 >= d1 {
            assert(2 * r2 >= d2) by (nonlinear_arith)
                requires
                    r1 * d2 <= r2 * d1,
                    2 * r1 >= d1,
                    d1 > 0,
                    d2 > 0,
            ;
        }
        if 2 * r1 > d1 {
            assert(2 * r2 > d2) by (nonlinear_arith)
                requires
                    r1 * d2 <= r2 * d1,
                    2 * r1 > d1,
                    d1 > 0,
                    d2 > 0,
            ;
        }
    }
}

/// A larger magnitude is rounded to at least as large a pattern.
pub proof fn lemma_round_monotone(n1: nat, d1: nat, n2: nat, d2: nat)
    requires
        d1 > 0,
        d2 > 0,
        n1 * d2 <= n2 * d1,
    ensures
        round_mag(n1, d1) <= round_mag(n2, d2),
{
    reveal(round_mag);
    let k1 = ulp_exponent(n1, d1);
    let k2 = ulp_exponent(n2, d2);
    lemma_ulp_exponent_bounds(n1, d1);
    lemma_ulp_exponent_bounds(n2, d2);
    lemma2_to64();
    lemma2_to64_rest();
    let (p1, p2) = (pow2(k1), pow2(k2));
    lemma_pow2_pos(k1);
    lemma_pow2_pos(k2);
    if k1 > k2 {
        let h = pow2((k1 - 1) as nat);
        if k2 < k1 - 1 {
            lemma_pow2_strictly_increases(k2, (k1 - 1) as nat);
        }
        assert(h >= p2);
        assert(false) by (nonlinear_arith)
            requires
                n1 * d2 <= n2 * d1,
                n1 >= d1 * pow2(53) * h,
                n2 < d2 * pow2(53) * p2,
                h >= p2,
                d1 > 0,
                d2 > 0,
        {
            assert(n1 * d2 >= d1 * pow2(53) * h * d2);
            assert(n2 * d1 < d2 * pow2(53) * p2 * d1);
            assert(d1 * pow2(53) * h * d2 >= d2 * pow2(53) * p2 * d1);
        }
    }
    let (e1, e2) = (d1 * p1, d2 * p2);
    assert(e1 > 0 && e2 > 0) by (nonlinear_arith)
        requires
            e1 == d1 * p1,
            e2 == d2 * p2,
            d1 > 0,
            d2 > 0,
            p1 > 0,
            p2 > 0,
    ;
    if k1 == k2 {
        assert(n1 * e2 <= n2 * e1) by (nonlinear_arith)
            requires
                n1 * d2 <= n2 * d1,
                e1 == d1 * p1,
                e2 == d2 * p1,
                p1 > 0,
        ;
        lemma_nearest_even_monotone(n1, e1, n2, e2);
    } else {
        let two = 0x20_0000_0000_0000nat;
        // n1 / e1 < 2^53 and n2 / e2 >= 2^52
        assert(n1 * 1 <= two * e1) by (nonlinear_arith)
            requires
                n1 < d1 * pow2(53) * p1,
                e1 == d1 * p1,
                pow2(53) == two,
        ;
        lemma_nearest_even_monotone(n1, e1, two, 1);
        lemma_fundamental_div_mod_converse(two as int, 1, two as int, 0);
        let h = pow2((k2 - 1) as nat);
        lemma_pow2_unfold(k2);
        let one = 0x10_0000_0000_0000nat;
        assert(one * e2 <= n2 * 1) by (nonlinear_arith)
            requires
                n2 >= d2 * pow2(53) * h,
                e2 == d2 * p2,
                p2 == 2 * h,
                pow2(53) == 2 * one,
        ;
        lemma_nearest_even_monotone(one, 1, n2, e2);
        lemma_fundamental_div_mod_converse(one as int, 1, one as int, 0);
        assert(k1 * BINADE + two <= k2 * BINADE + one) by (nonlinear_arith)
            requires
                k1 + 1 <= k2,
                two == 2 * BINADE,
                one == BINADE,
        ;
    }
}

/// Rounding gives a magnitude, at most infinity.
pub proof fn lemma_round_bound(n: nat, d: nat)
    ensures
        round_mag(n, d) <= INF_MAG,
{
    reveal(round_mag);
}

/// The order of magnitudes is that of their patterns.
pub proof fn lemma_units_order(a: nat, b: nat)
    requires
        a <= b <= INF_MAG,
    ensures
        mag_units(a) <= mag_units(b),
{
    if a < b {
        lemma_units_monotone(a, b);
    }
}

/// The pattern of `n * 2^e` units, for `n` of at most 53 bits whose leading bit
/// is at least bit `52 - e`.
proof fn lemma_pattern(n: nat, e: nat, g: nat) -> (b: nat)
    requires
        n < 0x20_0000_0000_0000,
        g <= e <= 1100,
        g <= 52,
        n * pow2(g) >= BINADE,
    ensures
        b < INF_MAG,
        mag_units(b) == n * pow2(e),
    decreases g,
{
    lemma2_to64();
    lemma2_to64_rest();
    if n >= BINADE {
        let b = (e * BINADE + n) as nat;
        lemma_fundamental_div_mod_converse(b as int, BINADE as int, (e + 1) as int, n - BINADE);
        reveal(mag_units);
        b
    } else {
        assert(g > 0) by {
            if g == 0 {
                assert(n * pow2(0) == n) by (nonlinear_arith)
                    requires
                        pow2(0) == 1,
                ;
            }
        }
        let h = (e - 1) as nat;
        let f = (g - 1) as nat;
        lemma_pow2_unfold(e);
        lemma_pow2_unfold(g);
        assert((2 * n) * pow2(h) == n * pow2(e)) by (nonlinear_arith)
            requires
                pow2(e) == 2 * pow2(h),
        ;
        assert((2 * n) * pow2(f) == n * pow2(g)) by (nonlinear_arith)
            requires
                pow2(g) == 2 * pow2(f),
        ;
        lemma_pattern(2 * n, h, f)
    }
}

/// Integers of at most 53 bits are numbers.
pub proof fn lemma_whole(n: i64)
    requires
        -0x20_0000_0000_0000 < n < 0x20_0000_0000_0000,
    ensures
        Real::whole(n).finite(),
        Real::whole(n).value() == n * pow2(1074),
        n >= 0 <==> !Real::whole(n).negative(),
{
    lemma2_to64();
    lemma2_to64_rest();
    let m: nat = if n < 0 {
        (-n) as nat
    } else {
        n as nat
    };
    let u = pow2(1074);
    if m == 0 {
        assert((n * u) as nat == 0) by (nonlinear_arith)
            requires
                n == 0,
        ;
        crate::num::magnitude::lemma_round_zero(1);
        lemma_units_zero(0);
        assert(n * u == 0) by (nonlinear_arith)
            requires
                n == 0,
        ;
    } else {
        lemma_pow2_pos(52);
        assert(m * pow2(52) >= BINADE) by (nonlinear_arith)
            requires
                m >= 1,
                pow2(52) == BINADE,
        ;
        let b = lemma_pattern(m, 1074, 52);
        lemma_round_exact(b);
        assert(m * u == mag_units(b));
        if n < 0 {
            assert((-n) * u == m * u);
            assert(n * u == -(m * u)) by (nonlinear_arith)
                requires
                    m == -n,
            ;
        }
    }
}

/// Multiples of one half are numbers.
pub proof fn lemma_halves(n: nat) -> (b: nat)
    requires
        n < 0x20_0000_0000_0000,
    ensures
        b < INF_MAG,
        mag_units(b) == n * pow2(1073),
        round_mag(n * pow2(1073), 1) == b,
{
    lemma2_to64();
    lemma2_to64_rest();
    let b = if n == 0 {
        lemma_units_zero(0);
        0
    } else {
        assert(n * pow2(52) >= BINADE) by (nonlinear_arith)
            requires
                n >= 1,
                pow2(52) == BINADE,
        ;
        lemma_pattern(n, 1073, 52)
    };
    assert(n == 0 ==> n * pow2(1073) == 0) by (nonlinear_arith);
    lemma_round_exact(b);
    b
}

/// The order of integers is that of the numbers they are.
pub proof fn lemma_whole_order(a: i64, b: i64)
    requires
        -0x20_0000_0000_0000 < a <= b < 0x20_0000_0000_0000,
    ensures
        Real::whole(a) <= Real::whole(b),
        a < b ==> Real::whole(a) < Real::whole(b),
{
    lemma_whole(a);
    lemma_whole(b);
    lemma_pow2_pos(1074);
    assert(a * pow2(1074) <= b * pow2(1074)) by (nonlinear_arith)
        requires
            a <= b,
            pow2(1074) > 0,
    ;
    if a < b {
        assert(a * pow2(1074) < b * pow2(1074)) by (nonlinear_arith)
            requires
                a < b,
                pow2(1074) > 0,
        ;
    }
}

/// A count is the integer that it is.
pub proof fn lemma_count(n: usize)
    requires
        n < 0x20_0000_0000_0000,
    ensures
        Real::count(n) == Real::whole(n as i64),
{
}

/// The pattern of a fraction of two positive integers.
proof fn lemma_ratio(n: i64, d: i64)
    requires
        0 <= n < 0x20_0000_0000_0000,
        0 < d < 0x20_0000_0000_0000,
    ensures
        !Real::ratio(n, d).nan(),
        !Real::ratio(n, d).negative(),
        Real::ratio(n, d).mag() == round_mag(
            (n * pow2(1074)) as nat * pow2(1074),
            (d * pow2(1074)) as nat,
        ),
{
    reveal(Real::spec_div);
    lemma_whole(n);
    lemma_whole(d);
    lemma_pow2_pos(1074);
    let u = pow2(1074);
    assert(d * u > 0) by (nonlinear_arith)
        requires
            d > 0,
            u > 0,
    ;
    assert(n * u >= 0) by (nonlinear_arith)
        requires
            n >= 0,
            u > 0,
    ;
    lemma_units_zero(Real::whole(d).mag());
    lemma_round_bound((n * u) as nat * u, (d * u) as nat);
}

/// The order of fractions is that of the numbers nearest to them.
pub proof fn lemma_ratio_order(n1: i64, d1: i64, n2: i64, d2: i64)
    requires
        0 <= n1 < 0x20_0000_0000_0000,
        0 < d1 < 0x20_0000_0000_0000,
        0 <= n2 < 0x20_0000_0000_0000,
        0 < d2 < 0x20_0000_0000_0000,
        n1 * d2 <= n2 * d1,
    ensures
        Real::ratio(n1, d1) <= Real::ratio(n2, d2),
{
    lemma_ratio(n1, d1);
    lemma_ratio(n2, d2);
    let u = pow2(1074);
    lemma_pow2_pos(1074);
    let (x1, y1) = ((n1 * u) as nat * u, (d1 * u) as nat);
    let (x2, y2) = ((n2 * u) as nat * u, (d2 * u) as nat);
    assert(n1 * u >= 0 && n2 * u >= 0 && d1 * u > 0 && d2 * u > 0) by (nonlinear_arith)
        requires
            n1 >= 0,
            n2 >= 0,
            d1 > 0,
            d2 > 0,
            u > 0,
    ;
    assert(x1 * y2 <= x2 * y1) by (nonlinear_arith)
        requires
            x1 == n1 * u * u,
            x2 == n2 * u * u,
            y1 == d1 * u,
            y2 == d2 * u,
            n1 * d2 <= n2 * d1,
            u > 0,
    {
        assert(x1 * y2 == (n1 * d2) * (u * u * u));
        assert(x2 * y1 == (n2 * d1) * (u * u * u));
        assert(u * u * u > 0);
    }
    lemma_round_monotone(x1, y1, x2, y2);
    lemma_round_bound(x2, y2);
    lemma_units_order(Real::ratio(n1, d1).mag(), Real::ratio(n2, d2).mag());
}

/// An integer that does not exceed a fraction, as numbers.
pub proof fn lemma_whole_below_ratio(m: i64, n: i64, d: i64)
    requires
        0 <= n < 0x20_0000_0000_0000,
        0 < d < 0x20_0000_0000_0000,
        0 <= m < 0x20_0000_0000_0000,
        m * d <= n,
    ensures
        Real::whole(m) <= Real::ratio(n, d),
{
    lemma_ratio(n, d);
    lemma_whole(m);
    let u = pow2(1074);
    lemma_pow2_pos(1074);
    let (x, y) = ((n * u) as nat * u, (d * u) as nat);
    let z = (m * u) as nat;
    assert(n * u >= 0 && d * u > 0 && m * u >= 0) by (nonlinear_arith)
        requires
            n >= 0,
            d > 0,
            m >= 0,
            u > 0,
    ;
    assert(z * y <= x * 1) by (nonlinear_arith)
        requires
            x == n * u * u,
            y == d * u,
            z == m * u,
            m * d <= n,
            u > 0,
    {
        assert(z * y == (m * d) * (u * u));
        assert(x == n * (u * u));
        assert(u * u > 0);
    }
    lemma_round_monotone(z, 1, x, y);
    lemma_round_bound(x, y);
    lemma_units_order(Real::whole(m).mag(), Real::ratio(n, d).mag());
}

/// Flipping signs turns the order around.
pub proof fn lemma_neg_order(a: Real, b: Real)
    requires
        a <= b,
    ensures
        b.neg() <= a.neg(),
{
}

/// An equal share of one is not negative.
pub proof fn lemma_share(n: usize)
    ensures
        Real::whole(0) <= Real::whole(1) / Real::count(n),
{
    reveal(Real::spec_div);
    lemma_whole(0);
    lemma_whole(1);
    lemma_round_bound(n as nat * pow2(1074), 1);
    let c = Real::count(n);
    lemma_round_bound(mag_units(Real::whole(1).mag()) * pow2(1074), mag_units(c.mag()));
    lemma_pow2_pos(1074);
    lemma_units_zero(Real::whole(1).mag());
}

/// An interval around zero is not empty.
pub proof fn lemma_symmetric(x: Real)
    requires
        Real::whole(0) <= x,
    ensures
        x.neg() <= x,
{
    lemma_whole(0);
}

/// The number moved into the unit interval.
pub fn clamp_unit(x: Real) -> (r: Real)
    ensures
        r == x.clamp(Real::whole(0), Real::whole(1)),
        !x.nan() ==> Real::whole(0) <= r && r <= Real::whole(1),
{
    proof {
        lemma_whole_order(0, 1);
    }
    x.clamp(Real::whole(0), Real::whole(1))
}

/// The pattern of a sum of finite numbers: rounded and signed.
proof fn lemma_sum_key(s: int)
    ensures
        ({
            let r = if s < 0 {
                with_sign(true, round_mag((-s) as nat, 1))
            } else {
                with_sign(false, round_mag(s as nat, 1))
            };
            &&& !r.nan()
            &&& order_key(r) == if s < 0 {
                -(round_mag((-s) as nat, 1) as int)
            } else {
                round_mag(s as nat, 1) as int
            }
        }),
{
    lemma_round_bound((-s) as nat, 1);
    lemma_round_bound(s as nat, 1);
}

/// What a sum of finite numbers is ordered by.
proof fn lemma_add_key(a: Real, b: Real)
    requires
        a.finite(),
        b.finite(),
    ensures
        !(a + b).nan(),
        order_key(a + b) == if a.value() + b.value() < 0 {
            -(round_mag((-(a.value() + b.value())) as nat, 1) as int)
        } else {
            round_mag((a.value() + b.value()) as nat, 1) as int
        },
{
    reveal(Real::spec_add);
    let s = a.value() + b.value();
    lemma_sum_key(s);
    if s == 0 {
        crate::num::magnitude::lemma_round_zero(1);
    }
}

/// Where a finite number stands between the infinities.
proof fn lemma_key_bounds(a: Real)
    requires
        !a.nan(),
    ensures
        -(INF_MAG as int) <= order_key(a) <= INF_MAG,
        a.infinite() ==> order_key(a) == if a.negative() {
            -(INF_MAG as int)
        } else {
            INF_MAG as int
        },
{
}

/// Adding the same number keeps the order.
pub proof fn lemma_add_monotone(a: Real, b: Real, c: Real)
    requires
        a <= b,
        !(a + c).nan(),
        !(b + c).nan(),
    ensures
        a + c <= b + c,
{
    reveal(Real::spec_add);
    lemma_key_bounds(a + c);
    lemma_key_bounds(b + c);
    lemma_order_key(a, b);
    if a.finite() && b.finite() && c.finite() {
        lemma_add_key(a, c);
        lemma_add_key(b, c);
        let (s, t) = (a.value() + c.value(), b.value() + c.value());
        if s < 0 && t < 0 {
            lemma_round_monotone((-t) as nat, 1, (-s) as nat, 1);
        } else if s >= 0 {
            lemma_round_monotone(s as nat, 1, t as nat, 1);
        }
    }
    lemma_order_key(a + c, b + c);
}

/// Adding a number that is not negative does not make a number smaller.
pub proof fn lemma_add_grows(a: Real, c: Real)
    requires
        !a.nan(),
        Real::whole(0) <= c,
        !(a + c).nan(),
    ensures
        a <= a + c,
{
    reveal(Real::spec_add);
    lemma_whole(0);
    lemma_key_bounds(a);
    lemma_key_bounds(a + c);
    if a.finite() && c.finite() {
        lemma_add_key(a, c);
        lemma_round_exact(a.mag());
        let (s, t) = (a.value(), a.value() + c.value());
        if s < 0 && t < 0 {
            lemma_round_monotone((-t) as nat, 1, (-s) as nat, 1);
        } else if s >= 0 {
            lemma_round_monotone(s as nat, 1, t as nat, 1);
        }
    } else if c.infinite() && !a.infinite() {
        assert(!c.negative()) by {
            lemma_units_zero(c.mag());
        }
    }
    lemma_order_key(a, a + c);
}

/// The order of the operands of a sum does not matter.
pub proof fn lemma_add_commutes(a: Real, b: Real)
    requires
        !a.nan(),
        !b.nan(),
    ensures
        a + b == b + a,
{
    reveal(Real::spec_add);
    assert(a.infinite() && b.infinite() && a.negative() == b.negative() ==> a == b);
}

/// A sum of numbers that are not negative is a number, and not negative.
pub proof fn lemma_add_not_negative(a: Real, b: Real)
    requires
        Real::whole(0) <= a,
        Real::whole(0) <= b,
    ensures
        !(a + b).nan(),
        Real::whole(0) <= a + b,
{
    assert(!(a + b).nan()) by {
        reveal(Real::spec_add);
        lemma_whole(0);
        lemma_units_zero(a.mag());
        lemma_units_zero(b.mag());
        let s = a.value() + b.value();
        lemma_round_bound(s as nat, 1);
        lemma_round_bound((-s) as nat, 1);
    }
    lemma_add_grows(a, b);
}

/// The value of a number that is not negative is its magnitude.
proof fn lemma_not_negative(a: Real)
    requires
        Real::whole(0) <= a,
    ensures
        a.mag() <= INF_MAG,
        a.value() == mag_units(a.mag()),
        a.negative() ==> a.mag() == 0,
{
    lemma_whole(0);
    assert(0 * pow2(1074) == 0);
    lemma_units_zero(a.mag());
}

/// Multiplying by a number that is not negative keeps the order.
pub proof fn lemma_mul_monotone(a: Real, b: Real, c: Real)
    requires
        Real::whole(0) <= a,
        a <= b,
        b.finite(),
        Real::whole(0) <= c,
        c.finite(),
    ensures
        Real::whole(0) <= c * a,
        c * a <= c * b,
{
    reveal(Real::spec_mul);
    lemma_whole(0);
    assert(0 * pow2(1074) == 0);
    lemma_not_negative(a);
    lemma_not_negative(b);
    lemma_not_negative(c);
    assert(a.finite()) by {
        lemma_order_key(a, b);
    }
    let w = pow2(1074);
    lemma_pow2_pos(1074);
    let (u, v, k) = (mag_units(a.mag()), mag_units(b.mag()), mag_units(c.mag()));
    assert(k * u * w <= k * v * w) by (nonlinear_arith)
        requires
            u <= v,
    ;
    lemma_round_monotone(k * u, w, k * v, w);
    lemma_round_bound(k * u, w);
    lemma_round_bound(k * v, w);
    lemma_units_order(round_mag(k * u, w), round_mag(k * v, w));
    lemma_units_zero(0);
    if k == 0 || u == 0 {
        assert(k * u == 0) by (nonlinear_arith)
            requires
                k == 0 || u == 0,
        ;
        crate::num::magnitude::lemma_round_zero(w);
    }
    if k == 0 || v == 0 {
        assert(k * v == 0) by (nonlinear_arith)
            requires
                k == 0 || v == 0,
        ;
        crate::num::magnitude::lemma_round_zero(w);
    }
}

/// Dividing by a positive number keeps the order.
pub proof fn lemma_div_monotone(a: Real, b: Real, c: Real)
    requires
        Real::whole(0) <= a,
        a <= b,
        b.finite(),
        Real::whole(0) < c,
    ensures
        Real::whole(0) <= a / c,
        a / c <= b / c,
{
    reveal(Real::spec_div);
    lemma_whole(0);
    assert(0 * pow2(1074) == 0);
    lemma_not_negative(a);
    lemma_not_negative(b);
    lemma_not_negative(c);
    assert(a.finite()) by {
        lemma_order_key(a, b);
    }
    lemma_units_zero(0);
    if c.finite() {
        let w = pow2(1074);
        lemma_pow2_pos(1074);
        let (u, v, k) = (mag_units(a.mag()), mag_units(b.mag()), mag_units(c.mag()));
        assert((u * w) * k <= (v * w) * k) by (nonlinear_arith)
            requires
                u <= v,
        ;
        lemma_round_monotone(u * w, k, v * w, k);
        lemma_round_bound(u * w, k);
        lemma_round_bound(v * w, k);
        lemma_units_order(round_mag(u * w, k), round_mag(v * w, k));
        if u == 0 {
            assert(u * w == 0) by (nonlinear_arith)
                requires
                    u == 0,
            ;
            crate::num::magnitude::lemma_round_zero(k);
        }
        if v == 0 {
            assert(v * w == 0) by (nonlinear_arith)
                requires
                    v == 0,
            ;
            crate::num::magnitude::lemma_round_zero(k);
        }
    }
}

/// Dividing by a larger number gives no more.
pub proof fn lemma_div_antitone(a: Real, b: Real, c: Real)
    requires
        Real::whole(0) < a,
        a.finite(),
        Real::whole(0) < b,
        b <= c,
        c.finite(),
    ensures
        a / c <= a / b,
{
    reveal(Real::spec_div);
    lemma_whole(0);
    assert(0 * pow2(1074) == 0);
    lemma_not_negative(a);
    lemma_not_negative(b);
    lemma_not_negative(c);
    assert(b.finite()) by {
        lemma_order_key(b, c);
    }
    lemma_units_zero(a.mag());
    lemma_units_zero(b.mag());
    lemma_units_zero(c.mag());
    let n = mag_units(a.mag()) * pow2(1074);
    let (k, m) = (mag_units(b.mag()), mag_units(c.mag()));
    assert(n * k <= n * m) by (nonlinear_arith)
        requires
            k <= m,
    ;
    lemma_round_monotone(n, m, n, k);
    lemma_round_bound(n, m);
    lemma_round_bound(n, k);
    lemma_units_order(round_mag(n, m), round_mag(n, k));
}

/// A larger count is no smaller a number.
pub proof fn lemma_count_order(m: usize, n: usize)
    requires
        m <= n,
    ensures
        Real::count(m) <= Real::count(n),
        Real::count(n).finite(),
        Real::whole(0) <= Real::count(m),
{
    let w = pow2(1074);
    lemma_pow2_pos(1074);
    lemma_whole(0);
    assert(0 * w == 0);
    assert(m * w * 1 <= n * w * 1) by (nonlinear_arith)
        requires
            m <= n,
    ;
    lemma_round_monotone(m as nat * w, 1, n as nat * w, 1);
    lemma_round_bound(m as nat * w, 1);
    lemma_round_bound(n as nat * w, 1);
    lemma_units_order(round_mag(m as nat * w, 1), round_mag(n as nat * w, 1));
    // A count has at most 64 bits.
    lemma2_to64();
    lemma2_to64_rest();
    let b = lemma_pattern(0x10_0000_0000_0000, 1086, 0);
    lemma_round_exact(b);
    lemma_pow2_adds(1074, 12);
    assert(n * w * 1 <= 0x10_0000_0000_0000 * pow2(1086) * 1) by (nonlinear_arith)
        requires
            n <= 0xffff_ffff_ffff_ffff,
            pow2(1086) == w * pow2(12),
            pow2(12) == 4096,
    ;
    lemma_round_monotone(n as nat * w, 1, mag_units(b), 1);
}

} // verus!
