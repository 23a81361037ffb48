//! Correctly rounded arithmetic on magnitudes, the patterns without a sign bit.
use vstd::arithmetic::div_mod::*;
use vstd::arithmetic::power2::*;
use vstd::prelude::*;

use crate::num::model::{
    floor_root, is_floor_root, mag_exponent, mag_significand, mag_units, root_exponent, root_mag, round_mag, BINADE,
    INF_MAG,
};
use crate::num::rounding::{
    bit_length, down, in_cell, lemma_shift_up, power_of_two, round_scaled, up,
};

verus! {

/// Significand and exponent of a magnitude.
pub fn split(b: u64) -> (r: (u64, u32))
    requires
        b <= INF_MAG,
    ensures
        r.0 == mag_significand(b as nat),
        r.1 == mag_exponent(b as nat),
        mag_units(b as nat) == r.0 * pow2(r.1 as nat),
        r.0 < 0x20_0000_0000_0000,
        r.1 > 0 ==> r.0 >= BINADE,
        r.1 <= 2046,
        r.0 == 0 <==> b == 0,
{
    proof {
        reveal(mag_units);
    }
    if b < BINADE {
        (b, 0)
    } else {
        let k: u64 = b / BINADE - 1;
        (b - k * BINADE, k as u32)
    }
}

/// The same facts for ghost code.
pub proof fn lemma_split(b: nat)
    requires
        b <= INF_MAG,
    ensures
        mag_units(b) == mag_significand(b) * pow2(mag_exponent(b)),
        mag_significand(b) < 0x20_0000_0000_0000,
        mag_exponent(b) > 0 ==> mag_significand(b) >= BINADE,
        mag_exponent(b) <= 2046,
        b == mag_exponent(b) * BINADE + mag_significand(b),
{
    reveal(mag_units);
}

/// Larger patterns denote larger magnitudes.
pub proof fn lemma_units_monotone(a: nat, b: nat)
    requires
        a < b <= INF_MAG,
    ensures
        mag_units(a) < mag_units(b),
{
    lemma_split(a);
    lemma_split(b);
    let (ma, ka) = (mag_significand(a), mag_exponent(a));
    let (mb, kb) = (mag_significand(b), mag_exponent(b));
    lemma_pow2_pos(ka);
    if ka == kb {
        assert(ma < mb);
        assert(ma * pow2(ka) < mb * pow2(ka)) by (nonlinear_arith)
            requires
                ma < mb,
                pow2(ka) > 0,
        ;
    } else {
        assert(ka < kb);
        let d = (kb - ka) as nat;
        lemma_pow2_adds(ka, d);
        lemma_pow2_unfold(d);
        lemma_pow2_pos((d - 1) as nat);
        assert(ma * pow2(ka) < mb * pow2(kb)) by (nonlinear_arith)
            requires
                ma < 0x20_0000_0000_0000,
                mb >= 0x10_0000_0000_0000,
                pow2(kb) == pow2(ka) * pow2(d),
                pow2(d) >= 2,
                pow2(ka) > 0,
        ;
    }
}

/// Zero denotes zero, and nothing else does.
pub proof fn lemma_units_zero(a: nat)
    requires
        a <= INF_MAG,
    ensures
        mag_units(a) == 0 <==> a == 0,
{
    lemma_split(0);
    lemma2_to64();
    if a > 0 {
        lemma_units_monotone(0, a);
    }
}

/// Rounding zero gives zero.
pub proof fn lemma_round_zero(d: nat)
    requires
        d > 0,
    ensures
        round_mag(0, d) == 0,
{
    reveal(round_mag);
    lemma2_to64();
    assert(d * pow2(0) == d) by (nonlinear_arith)
        requires
            pow2(0) == 1,
    ;
    lemma_fundamental_div_mod_converse(0, d as int, 0, 0);
}

/// A whole multiple of a power of two is the cell of its multiplier.
proof fn lemma_exact_cell(n: nat, m: nat, e: nat)
    requires
        n == m * pow2(e),
    ensures
        in_cell(n, 1, m, e as int, false),
{
    lemma2_to64();
    lemma_pow2_pos(e);
    assert(down(e as int) == 1);
    assert(1 * m * up(e as int) == n && n * down(e as int) == n && n < 1 * (m + 1) * up(e as int))
        by (nonlinear_arith)
        requires
            n == m * pow2(e),
            up(e as int) == pow2(e),
            down(e as int) == 1,
            pow2(e) > 0,
    ;
}

/// A multiple of a power of two plus a positive part of it lies inside the cell.
proof fn lemma_inner_cell(n: nat, m: nat, e: nat, rest: nat)
    requires
        n == m * pow2(e) + rest,
        0 < rest < pow2(e),
    ensures
        in_cell(n, 1, m, e as int, true),
{
    lemma2_to64();
    assert(down(e as int) == 1);
    assert(1 * m * up(e as int) < n && n * down(e as int) == n && n < 1 * (m + 1) * up(e as int))
        by (nonlinear_arith)
        requires
            n == m * pow2(e) + rest,
            0 < rest < pow2(e),
            up(e as int) == pow2(e),
            down(e as int) == 1,
    ;
}

/// The rounded sum of two magnitudes, the first at least as large in exponent.
fn sum_ordered(ma: u64, ka: u32, mb: u64, kb: u32) -> (r: u64)
    requires
        ma < 0x20_0000_0000_0000,
        mb < 0x20_0000_0000_0000,
        kb <= ka <= 2046,
        ka > 0 ==> ma >= BINADE,
    ensures
        r == round_mag(ma as nat * pow2(ka as nat) + mb as nat * pow2(kb as nat), 1),
        r <= INF_MAG,
{
    let ghost n = ma as nat * pow2(ka as nat) + mb as nat * pow2(kb as nat);
    let d: u32 = ka - kb;
    proof {
        lemma2_to64();
        lemma2_to64_rest();
        lemma_pow2_pos(kb as nat);
        lemma_pow2_pos(ka as nat);
    }
    if d <= 64 {
        let p: u128 = power_of_two(d);
        proof {
            if d < 64 {
                lemma_pow2_strictly_increases(d as nat, 64);
            }
            assert(ma as u128 * p <= 0x20_0000_0000_0000 * 0x1_0000_0000_0000_0000) by (nonlinear_arith)
                requires
                    ma < 0x20_0000_0000_0000,
                    p <= 0x1_0000_0000_0000_0000,
            ;
        }
        let m: u128 = ma as u128 * p + mb as u128;
        proof {
            lemma_pow2_adds(d as nat, kb as nat);
            assert(n == m as nat * pow2(kb as nat)) by (nonlinear_arith)
                requires
                    n == ma as nat * pow2(ka as nat) + mb as nat * pow2(kb as nat),
                    m == ma * p + mb,
                    pow2(ka as nat) == p * pow2(kb as nat),
            ;
        }
        if m == 0 {
            proof {
                lemma_round_zero(1);
            }
            return 0;
        }
        proof {
            lemma_exact_cell(n, m as nat, kb as nat);
        }
        round_scaled(m, kb as i64, false, Ghost(n), Ghost(1))
    } else if mb == 0 {
        proof {
            lemma_exact_cell(n, ma as nat, ka as nat);
        }
        round_scaled(ma as u128, ka as i64, false, Ghost(n), Ghost(1))
    } else {
        let m: u128 = ma as u128 * 1024;
        let e: u32 = ka - 10;
        proof {
            let rest = mb as nat * pow2(kb as nat);
            lemma_pow2_adds(10, e as nat);
            lemma_pow2_adds(53, kb as nat);
            lemma_pow2_strictly_increases((53 + kb) as nat, e as nat);
            assert(0 < rest < pow2(e as nat)) by (nonlinear_arith)
                requires
                    rest == mb as nat * pow2(kb as nat),
                    0 < mb < pow2(53),
                    pow2((53 + kb) as nat) == pow2(53) * pow2(kb as nat),
                    pow2((53 + kb) as nat) < pow2(e as nat),
                    pow2(kb as nat) > 0,
            ;
            assert(ma as nat * pow2(ka as nat) == m as nat * pow2(e as nat)) by (nonlinear_arith)
                requires
                    m == ma * 1024,
                    pow2(ka as nat) == 1024 * pow2(e as nat),
            ;
            lemma_inner_cell(n, m as nat, e as nat, rest);
        }
        round_scaled(m, e as i64, true, Ghost(n), Ghost(1))
    }
}

/// The rounded sum of two magnitudes.
pub fn sum_of(a: u64, b: u64) -> (r: u64)
    requires
        a < INF_MAG,
        b < INF_MAG,
    ensures
        r == round_mag(mag_units(a as nat) + mag_units(b as nat), 1),
        r <= INF_MAG,
{
    let (ma, ka) = split(a);
    let (mb, kb) = split(b);
    if ka >= kb {
        sum_ordered(ma, ka, mb, kb)
    } else {
        sum_ordered(mb, kb, ma, ka)
    }
}

/// The rounded difference of two magnitudes, the first the larger.
pub fn difference_of(a: u64, b: u64) -> (r: u64)
    requires
        b < a < INF_MAG,
    ensures
        mag_units(a as nat) > mag_units(b as nat),
        r == round_mag((mag_units(a as nat) - mag_units(b as nat)) as nat, 1),
        r <= INF_MAG,
{
    let (ma, ka) = split(a);
    let (mb, kb) = split(b);
    let ghost n = (mag_units(a as nat) - mag_units(b as nat)) as nat;
    proof {
        lemma_units_monotone(b as nat, a as nat);
        lemma2_to64();
        lemma2_to64_rest();
        lemma_pow2_pos(kb as nat);
        lemma_pow2_pos(ka as nat);
        assert(ka >= kb) by {
            if ka < kb {
                assert((ka + 1) * BINADE <= kb * BINADE) by (nonlinear_arith)
                    requires
                        ka + 1 <= kb,
                ;
                lemma_split(a as nat);
                lemma_split(b as nat);
            }
        }
    }
    let d: u32 = ka - kb;
    if d <= 64 {
        let p: u128 = power_of_two(d);
        proof {
            if d < 64 {
                lemma_pow2_strictly_increases(d as nat, 64);
            }
            assert(ma as u128 * p <= 0x20_0000_0000_0000 * 0x1_0000_0000_0000_0000) by (nonlinear_arith)
                requires
                    ma < 0x20_0000_0000_0000,
                    p <= 0x1_0000_0000_0000_0000,
            ;
            lemma_pow2_adds(d as nat, kb as nat);
            let w = ma * p - mb;
            assert(n == w * pow2(kb as nat)) by (nonlinear_arith)
                requires
                    n == ma as nat * pow2(ka as nat) - mb as nat * pow2(kb as nat),
                    w == ma * p - mb,
                    pow2(ka as nat) == p * pow2(kb as nat),
            ;
            assert(w > 0) by (nonlinear_arith)
                requires
                    n == w * pow2(kb as nat),
                    n > 0,
                    pow2(kb as nat) > 0,
            ;
        }
        let m: u128 = ma as u128 * p - mb as u128;
        proof {
            lemma_exact_cell(n, m as nat, kb as nat);
        }
        round_scaled(m, kb as i64, false, Ghost(n), Ghost(1))
    } else if mb == 0 {
        proof {
            lemma_units_zero(b as nat);
            lemma_exact_cell(n, ma as nat, ka as nat);
        }
        round_scaled(ma as u128, ka as i64, false, Ghost(n), Ghost(1))
    } else {
        let m: u128 = ma as u128 * 1024 - 1;
        let e: u32 = ka - 10;
        proof {
            let small = mb as nat * pow2(kb as nat);
            lemma_pow2_adds(10, e as nat);
            lemma_pow2_adds(53, kb as nat);
            lemma_pow2_strictly_increases((53 + kb) as nat, e as nat);
            assert(0 < small < pow2(e as nat)) by (nonlinear_arith)
                requires
                    small == mb as nat * pow2(kb as nat),
                    0 < mb < pow2(53),
                    pow2((53 + kb) as nat) == pow2(53) * pow2(kb as nat),
                    pow2((53 + kb) as nat) < pow2(e as nat),
                    pow2(kb as nat) > 0,
            ;
            let rest = (pow2(e as nat) - small) as nat;
            assert(n == m as nat * pow2(e as nat) + rest) by (nonlinear_arith)
                requires
                    n == ma as nat * pow2(ka as nat) - small,
                    rest == pow2(e as nat) - small,
                    m == ma * 1024 - 1,
                    pow2(ka as nat) == 1024 * pow2(e as nat),
            ;
            lemma_inner_cell(n, m as nat, e as nat, rest);
        }
        round_scaled(m, e as i64, true, Ghost(n), Ghost(1))
    }
}

/// Powers of two on both sides of a fraction cancel.
proof fn lemma_scale_cell(c: nat, x: nat, y: nat, e: int)
    requires
        e == x - y,
    ensures
        c * pow2(x) * down(e) == pow2(y) * c * up(e),
        up(e) > 0,
        down(e) > 0,
{
    if e >= 0 {
        lemma_shift_up(x, e, y);
    } else {
        lemma_shift_up(x, e, y);
    }
    assert(c * pow2(x) * down(e) == pow2(y) * c * up(e)) by (nonlinear_arith)
        requires
            pow2(x) * down(e) == up(e) * pow2(y),
    ;
}

/// The rounded product of two magnitudes.
pub fn product_of(a: u64, b: u64) -> (r: u64)
    requires
        a < INF_MAG,
        b < INF_MAG,
    ensures
        r == round_mag(mag_units(a as nat) * mag_units(b as nat), pow2(1074)),
        r <= INF_MAG,
{
    let (ma, ka) = split(a);
    let (mb, kb) = split(b);
    let ghost n = mag_units(a as nat) * mag_units(b as nat);
    let ghost d = pow2(1074);
    proof {
        lemma_pow2_pos(1074);
        assert(ma as u128 * mb as u128 <= 0x20_0000_0000_0000 * 0x20_0000_0000_0000) by (nonlinear_arith)
            requires
                ma < 0x20_0000_0000_0000,
                mb < 0x20_0000_0000_0000,
        ;
    }
    let m: u128 = ma as u128 * mb as u128;
    proof {
        lemma_pow2_adds(ka as nat, kb as nat);
        assert(n == m as nat * pow2((ka + kb) as nat)) by (nonlinear_arith)
            requires
                n == (ma as nat * pow2(ka as nat)) * (mb as nat * pow2(kb as nat)),
                m == ma * mb,
                pow2((ka + kb) as nat) == pow2(ka as nat) * pow2(kb as nat),
        ;
    }
    if m == 0 {
        proof {
            assert(n == 0) by (nonlinear_arith)
                requires
                    n == m as nat * pow2((ka + kb) as nat),
                    m == 0,
            ;
            lemma_round_zero(d);
        }
        return 0;
    }
    let e: i64 = ka as i64 + kb as i64 - 1074;
    proof {
        lemma_scale_cell(m as nat, (ka + kb) as nat, 1074, e as int);
        assert(d * (m + 1) * up(e as int) > d * m * up(e as int)) by (nonlinear_arith)
            requires
                d > 0,
                up(e as int) > 0,
        ;
    }
    round_scaled(m, e, false, Ghost(n), Ghost(d))
}

/// The rounded quotient of two magnitudes, the second not zero.
pub fn quotient_of(a: u64, b: u64) -> (r: u64)
    requires
        a < INF_MAG,
        0 < b < INF_MAG,
    ensures
        r == round_mag(mag_units(a as nat) * pow2(1074), mag_units(b as nat)),
        r <= INF_MAG,
{
    let (ma, ka) = split(a);
    let (mb, kb) = split(b);
    let ghost n = mag_units(a as nat) * pow2(1074);
    let ghost d = mag_units(b as nat);
    proof {
        lemma_units_zero(b as nat);
        lemma_units_zero(a as nat);
    }
    if a == 0 {
        proof {
            assert(n == 0) by (nonlinear_arith)
                requires
                    n == mag_units(a as nat) * pow2(1074),
                    mag_units(a as nat) == 0,
            ;
            lemma_round_zero(d);
        }
        return 0;
    }
    let l: u32 = bit_length(ma as u128);
    proof {
        lemma2_to64();
        lemma2_to64_rest();
        assert(l <= 53) by {
            if l > 53 {
                if l > 54 {
                    lemma_pow2_strictly_increases(53, (l - 1) as nat);
                }
            }
        }
        lemma_pow2_pos(kb as nat);
    }
    // Scale the dividend to exactly 127 bits, so the quotient has at least 74.
    let t: u32 = 127 - l;
    let p: u128 = power_of_two(t);
    proof {
        lemma_pow2_adds(l as nat, t as nat);
        lemma_pow2_adds((l - 1) as nat, t as nat);
        lemma_pow2_pos(t as nat);
        crate::num::rounding::lemma_shl_one(127);
        crate::num::rounding::lemma_shl_one(126);
        assert(1u128 << 127u128 == 0x8000_0000_0000_0000_0000_0000_0000_0000u128) by (bit_vector);
        assert(1u128 << 126u128 == 0x4000_0000_0000_0000_0000_0000_0000_0000u128) by (bit_vector);
        assert(pow2(126) <= ma * p < pow2(127)) by (nonlinear_arith)
            requires
                pow2((l - 1) as nat) <= ma < pow2(l as nat),
                pow2(127) == pow2(l as nat) * p,
                pow2(126) == pow2((l - 1) as nat) * p,
                p > 0,
        ;
    }
    let x: u128 = ma as u128 * p;
    let q: u128 = x / (mb as u128);
    let rest: u128 = x % (mb as u128);
    proof {
        lemma_fundamental_div_mod(x as int, mb as int);
        lemma_mod_bound(x as int, mb as int);
        assert(0x20_0000_0000_0000 <= q <= x) by (nonlinear_arith)
            requires
                x == mb * q + rest,
                0 <= rest < mb,
                0 < mb < 0x20_0000_0000_0000,
                x >= 0x4000_0000_0000_0000_0000_0000_0000_0000,
        ;
    }
    let e: i64 = ka as i64 + 1074 - kb as i64 - t as i64;
    proof {
        // n / d = (x / mb) * 2^e.
        let big = pow2((ka + 1074) as nat);
        lemma_pow2_adds(ka as nat, 1074);
        let low = pow2((kb + t) as nat);
        lemma_pow2_adds(kb as nat, t as nat);
        lemma_shift_up((ka + 1074) as nat, e as int, (kb + t) as nat);
        let (u, v) = (up(e as int), down(e as int));
        let pk = pow2(kb as nat);
        // n * v * p = ma * big * v * p = x * u * low = x * u * pk * p.
        assert(n * v * p == (x as nat * u * pk) * p) by (nonlinear_arith)
            requires
                n == (ma as nat * pow2(ka as nat)) * pow2(1074),
                big == pow2(ka as nat) * pow2(1074),
                big * v == u * low,
                low == pk * p,
                x == ma * p,
        ;
        assert(n * v == x as nat * u * pk) by (nonlinear_arith)
            requires
                n * v * p == (x as nat * u * pk) * p,
                p > 0,
        ;
        let c = u * pk;
        assert(c > 0) by (nonlinear_arith)
            requires
                c == u * pk,
                u > 0,
                pk > 0,
        ;
        assert(n * v == (mb * q) * c + rest * c) by (nonlinear_arith)
            requires
                n * v == x as nat * u * pk,
                c == u * pk,
                x == mb * q + rest,
        ;
        assert(d * q * u == (mb * q) * c && d * (q + 1) * u == (mb * q) * c + mb * c) by (nonlinear_arith)
            requires
                d == mb as nat * pk,
                c == u * pk,
        ;
        assert(0 <= rest * c < mb * c && (rest * c == 0 <==> rest == 0)) by (nonlinear_arith)
            requires
                0 <= rest < mb,
                c > 0,
        ;
    }
    round_scaled(q, e, rest != 0, Ghost(n), Ghost(d))
}

/// The integer square root is the only number between its two bounds.
pub proof fn lemma_floor_root(n: nat, r: nat)
    requires
        r * r <= n < (r + 1) * (r + 1),
    ensures
        floor_root(n) == r,
{
    assert(is_floor_root(n, r));
    let c = floor_root(n);
    assert(is_floor_root(n, c));
    if c < r {
        assert((c + 1) * (c + 1) <= r * r) by (nonlinear_arith)
            requires
                c + 1 <= r,
        ;
    } else if r < c {
        assert((r + 1) * (r + 1) <= c * c) by (nonlinear_arith)
            requires
                r + 1 <= c,
        ;
    }
}

/// The integer square root of a number below `2^108`.
fn integer_root(n: u128) -> (r: u64)
    requires
        n < pow2(108),
    ensures
        r == floor_root(n as nat),
        r * r <= n < (r + 1) * (r + 1),
        r < pow2(54),
{
    let mut r: u64 = 0;
    let mut i: u32 = 54;
    proof {
        lemma_pow2_adds(54, 54);
        lemma2_to64();
        lemma2_to64_rest();
    }
    while i > 0
        invariant
            i <= 54,
            r * r <= n,
            n < (r + pow2(i as nat)) * (r + pow2(i as nat)),
            r + pow2(i as nat) <= pow2(54),
            pow2(54) == 0x40_0000_0000_0000,
        decreases i,
    {
        i = i - 1;
        let p: u64 = power_of_two_word(i);
        proof {
            lemma_pow2_unfold((i + 1) as nat);
            lemma_pow2_pos(i as nat);
        }
        let c: u64 = r + p;
        proof {
            assert(c as u128 * c as u128 <= 0x40_0000_0000_0000 * 0x40_0000_0000_0000) by (nonlinear_arith)
                requires
                    c <= 0x40_0000_0000_0000,
            ;
        }
        if c as u128 * c as u128 <= n {
            r = c;
        }
    }
    proof {
        lemma2_to64();
        lemma_floor_root(n as nat, r as nat);
    }
    r
}

/// `2^s` in one word.
fn power_of_two_word(s: u32) -> (r: u64)
    requires
        s < 64,
    ensures
        r == pow2(s as nat),
{
    proof {
        lemma2_to64();
        lemma_pow2_strictly_increases(s as nat, 64);
    }
    power_of_two(s) as u64
}

/// The rounding exponent of a square root is characterised by its two bounds.
pub proof fn lemma_root_exponent(n: nat, k: nat)
    requires
        n < pow2(106 + 2 * k),
        k > 0 ==> n >= pow2((104 + 2 * k) as nat),
    ensures
        root_exponent(n) == k,
    decreases k,
{
    if k > 0 {
        let j = (k - 1) as nat;
        lemma_pow2_pos((104 + 2 * k) as nat);
        lemma_pow2_adds(2, 106 + 2 * j);
        lemma_pow2_adds(2, (104 + 2 * j) as nat);
        lemma2_to64();
        if j > 0 {
            lemma_pow2_strictly_increases(106, 106 + 2 * j);
        }
        lemma_root_exponent(n / 4, j);
    }
}

/// The rounded square root of a positive magnitude.
pub fn root_of(a: u64) -> (r: u64)
    requires
        0 < a < INF_MAG,
    ensures
        r == root_mag(mag_units(a as nat) * pow2(1074)),
        r < INF_MAG,
{
    let (m, e) = split(a);
    let l: u32 = bit_length(m as u128);
    let ghost n = mag_units(a as nat) * pow2(1074);
    proof {
        lemma2_to64();
        lemma2_to64_rest();
        if l > 54 {
            lemma_pow2_strictly_increases(53, (l - 1) as nat);
        }
    }
    let k: u32 = (l + e + 969) / 2;
    let t: u32 = e + 1076 - 2 * k;
    proof {
        // n = m * 2^(e + 1074), of l + e + 1074 bits.
        let f = (e + 1074) as nat;
        lemma_pow2_adds(e as nat, 1074);
        assert(n == m * pow2(f)) by (nonlinear_arith)
            requires
                n == (m * pow2(e as nat)) * pow2(1074),
                pow2(f) == pow2(e as nat) * pow2(1074),
        ;
        lemma_pow2_adds(l as nat, f);
        lemma_pow2_adds((l - 1) as nat, f);
        lemma_pow2_pos(f);
        assert(pow2((l - 1 + f) as nat) <= n < pow2(l as nat + f)) by (nonlinear_arith)
            requires
                n == m * pow2(f),
                pow2((l - 1) as nat) <= m < pow2(l as nat),
                pow2((l - 1 + f) as nat) == pow2((l - 1) as nat) * pow2(f),
                pow2(l as nat + f) == pow2(l as nat) * pow2(f),
                pow2(f) > 0,
        ;
        let k2 = k as nat;
        if l + f < 106 + 2 * k {
            lemma_pow2_strictly_increases(l as nat + f, 106 + 2 * k2);
        }
        if 104 + 2 * k < l - 1 + f {
            lemma_pow2_strictly_increases((104 + 2 * k) as nat, (l - 1 + f) as nat);
        }
        lemma_root_exponent(n, k2);
        // 4 * n / 4^k = m * 2^t.
        lemma_pow2_adds(t as nat, 2 * k2);
        lemma_pow2_adds(2, f);
        lemma_pow2_pos(2 * k2);
        assert(4 * n == (m * pow2(t as nat)) * pow2(2 * k2)) by (nonlinear_arith)
            requires
                n == m * pow2(f),
                4 * pow2(f) == pow2(t as nat) * pow2(2 * k2),
        ;
        lemma_div_by_multiple((m * pow2(t as nat)) as int, pow2(2 * k2) as int);
        lemma_pow2_adds(l as nat, t as nat);
        lemma_pow2_pos(t as nat);
        if l + t < 108 {
            lemma_pow2_strictly_increases((l + t) as nat, 108);
        }
        assert(m * pow2(t as nat) < pow2(108)) by (nonlinear_arith)
            requires
                m < pow2(l as nat),
                pow2(l as nat) * pow2(t as nat) <= pow2(108),
                pow2(t as nat) > 0,
        ;
        lemma_pow2_strictly_increases(108, 127);
        crate::num::rounding::lemma_shl_one(127);
    }
    let x: u128 = m as u128 * power_of_two(t);
    let r: u64 = integer_root(x);
    let s: u64 = (r + 1) / 2;
    k as u64 * BINADE + s
}

} // verus!
