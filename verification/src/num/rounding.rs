//! The rounding step shared by every arithmetic operation.
use vstd::arithmetic::div_mod::*;
use vstd::arithmetic::mul::*;
use vstd::arithmetic::power2::*;
use vstd::prelude::*;

use crate::num::model::{nearest_even, round_mag, ulp_exponent, BINADE, INF_MAG};

verus! {

/// Powers of two as machine integers.
pub proof fn lemma_shl_one(s: u128)
    requires
        s < 128,
    ensures
        (1u128 << s) == pow2(s as nat),
    decreases s,
{
    if s == 0 {
        assert(1u128 << 0u128 == 1u128) by (bit_vector);
        lemma2_to64();
    } else {
        let p = (s - 1) as u128;
        lemma_shl_one(p);
        lemma_pow2_unfold(s as nat);
        assert((1u128 << s) == 2 * (1u128 << p)) by (bit_vector)
            requires
                0 < s < 128,
                p == s - 1,
        ;
    }
}

/// `2^s`.
pub fn power_of_two(s: u32) -> (r: u128)
    requires
        s < 128,
    ensures
        r == pow2(s as nat),
{
    proof {
        lemma_shl_one(s as u128);
    }
    1u128 << (s as u128)
}

/// The rounding exponent is characterised by its two bounds.
pub proof fn lemma_ulp_exponent(n: nat, d: nat, k: nat)
    requires
        d > 0,
        n < d * pow2(53) * pow2(k),
        k > 0 ==> n >= d * pow2(53) * pow2((k - 1) as nat),
    ensures
        ulp_exponent(n, d) == k,
    decreases k,
{
    lemma2_to64();
    lemma2_to64_rest();
    assert(pow2(53) == 0x20_0000_0000_0000);
    if k == 0 {
        assert(pow2(0) == 1);
        assert(d * pow2(53) * 1 == d * pow2(53)) by (nonlinear_arith);
    } else {
        let j = (k - 1) as nat;
        lemma_pow2_unfold(k);
        lemma_pow2_pos(j);
        assert(n >= d * pow2(53)) by (nonlinear_arith)
            requires
                n >= d * pow2(53) * pow2(j),
                pow2(j) >= 1,
                d > 0,
                pow2(53) > 0,
        ;
        assert(n < (2 * d) * pow2(53) * pow2(j)) by (nonlinear_arith)
            requires
                n < d * pow2(53) * pow2(k),
                pow2(k) == 2 * pow2(j),
        ;
        if j > 0 {
            let i = (j - 1) as nat;
            lemma_pow2_unfold(j);
            assert(n >= (2 * d) * pow2(53) * pow2(i)) by (nonlinear_arith)
                requires
                    n >= d * pow2(53) * pow2(j),
                    pow2(j) == 2 * pow2(i),
            ;
        }
        lemma_ulp_exponent(n, 2 * d, j);
    }
}

/// Every magnitude has a rounding exponent, and it satisfies its two bounds.
pub proof fn lemma_ulp_exponent_bounds(n: nat, d: nat)
    requires
        d > 0,
    ensures
        n < d * pow2(53) * pow2(ulp_exponent(n, d)),
        ulp_exponent(n, d) > 0 ==> n >= d * pow2(53) * pow2((ulp_exponent(n, d) - 1) as nat),
    decreases (if n > d { n - d } else { 0 }),
{
    lemma2_to64();
    lemma2_to64_rest();
    if n < d * 0x20_0000_0000_0000 {
        assert(d * pow2(53) * 1 == d * pow2(53)) by (nonlinear_arith);
    } else {
        assert(n > d) by (nonlinear_arith)
            requires
                n >= d * 9007199254740992,
                d > 0,
        ;
        lemma_ulp_exponent_bounds(n, 2 * d);
        let j = ulp_exponent(n, 2 * d);
        lemma_pow2_unfold((j + 1) as nat);
        assert(n < d * pow2(53) * pow2(j + 1)) by (nonlinear_arith)
            requires
                n < (2 * d) * pow2(53) * pow2(j),
                pow2(j + 1) == 2 * pow2(j),
        ;
        if j > 0 {
            let i = (j - 1) as nat;
            lemma_pow2_unfold(j);
            assert(n >= d * pow2(53) * pow2(j)) by (nonlinear_arith)
                requires
                    n >= (2 * d) * pow2(53) * pow2(i),
                    pow2(j) == 2 * pow2(i),
            ;
        } else {
            assert(d * pow2(53) * 1 == d * pow2(53)) by (nonlinear_arith);
        }
    }
}

/// Rounding to the nearest integer is determined by which side of the midpoint
/// the fraction lies on.
pub proof fn lemma_nearest_even(n: nat, d: nat, q: nat)
    requires
        d > 0,
        q * d <= n < (q + 1) * d,
    ensures
        2 * n < (2 * q + 1) * d ==> nearest_even(n, d) == q,
        2 * n > (2 * q + 1) * d ==> nearest_even(n, d) == q + 1,
        2 * n == (2 * q + 1) * d ==> nearest_even(n, d) == q + q % 2,
{
    let r = (n - q * d) as nat;
    assert(n == q * d + r);
    assert(0 <= r < d) by (nonlinear_arith)
        requires
            n == q * d + r,
            q * d <= n < (q + 1) * d,
    ;
    lemma_fundamental_div_mod_converse(n as int, d as int, q as int, r as int);
    assert((2 * q + 1) * d == 2 * (q * d) + d) by (nonlinear_arith);
}

/// Scaling numerator and denominator alike does not change the rounding.
pub proof fn lemma_nearest_even_scaled(n: nat, d: nat, c: nat)
    requires
        d > 0,
        c > 0,
    ensures
        nearest_even(n * c, d * c) == nearest_even(n, d),
{
    let q = n / d;
    lemma_fundamental_div_mod(n as int, d as int);
    lemma_mod_bound(n as int, d as int);
    assert(q * d <= n < (q + 1) * d) by (nonlinear_arith)
        requires
            n == d * q + n % d,
            0 <= n % d < d,
    ;
    lemma_nearest_even(n, d, q);
    assert(d * c > 0) by (nonlinear_arith)
        requires
            d > 0,
            c > 0,
    ;
    assert(q * (d * c) <= n * c < (q + 1) * (d * c)) by (nonlinear_arith)
        requires
            q * d <= n < (q + 1) * d,
            c > 0,
    ;
    lemma_nearest_even(n * c, d * c, q);
    assert(2 * n < (2 * q + 1) * d ==> 2 * (n * c) < (2 * q + 1) * (d * c)) by (nonlinear_arith)
        requires
            c > 0,
    ;
    assert(2 * n > (2 * q + 1) * d ==> 2 * (n * c) > (2 * q + 1) * (d * c)) by (nonlinear_arith)
        requires
            c > 0,
    ;
    assert(2 * n == (2 * q + 1) * d ==> 2 * (n * c) == (2 * q + 1) * (d * c)) by (nonlinear_arith)
        requires
            c > 0,
    ;
}

/// `2^e` for a nonnegative exponent, one otherwise.
pub open spec fn up(e: int) -> nat {
    if e >= 0 {
        pow2(e as nat)
    } else {
        1
    }
}

/// `2^-e` for a negative exponent, one otherwise.
pub open spec fn down(e: int) -> nat {
    up(-e)
}

/// The magnitude `n / d` is `m * 2^e` exactly, or lies strictly between
/// `m * 2^e` and `(m + 1) * 2^e` when `sticky` holds.
pub open spec fn in_cell(n: nat, d: nat, m: nat, e: int, sticky: bool) -> bool {
    &&& d * m * up(e) <= n * down(e)
    &&& n * down(e) < d * (m + 1) * up(e)
    &&& sticky <==> n * down(e) != d * m * up(e)
}

/// `2^k * 2^-e == 2^e * 2^s` when `s` is the distance from `e` up to `k`.
pub proof fn lemma_shift_up(k: nat, e: int, s: nat)
    requires
        s == k - e,
    ensures
        pow2(k) * down(e) == up(e) * pow2(s),
        up(e) > 0,
        down(e) > 0,
{
    lemma_pow2_pos(k);
    lemma_pow2_pos(s);
    lemma2_to64();
    if e >= 0 {
        lemma_pow2_pos(e as nat);
        lemma_pow2_adds(e as nat, s);
        assert(down(e) == 1);
        assert(pow2(k) * 1 == up(e) * pow2(s));
    } else {
        lemma_pow2_pos((-e) as nat);
        lemma_pow2_adds(k, (-e) as nat);
        assert(up(e) == 1);
        assert(pow2(k) * down(e) == 1 * pow2(s));
    }
}

/// Halving a scaled bracket of `m`: if `m` lies in `[2^l * x, 2^l * (x + 1))`,
/// it lies in the bracket that drops `w` more bits of `x`.
proof fn lemma_drop_bits(m: nat, l: nat, x: nat, w: nat)
    requires
        pow2(l) * x <= m < pow2(l) * (x + 1),
    ensures
        pow2(l + w) * (x / pow2(w)) <= m < pow2(l + w) * (x / pow2(w) + 1),
{
    lemma_pow2_adds(l, w);
    lemma_pow2_pos(l);
    lemma_pow2_pos(w);
    let p = pow2(l);
    let g = pow2(w);
    let y = x / g;
    lemma_fundamental_div_mod(x as int, g as int);
    lemma_mod_bound(x as int, g as int);
    assert(y * g <= x && x + 1 <= (y + 1) * g) by (nonlinear_arith)
        requires
            x == g * y + x % g,
            0 <= x % g < g,
    ;
    assert((p * g) * y <= m) by (nonlinear_arith)
        requires
            p * x <= m,
            y * g <= x,
    ;
    assert(m < (p * g) * (y + 1)) by (nonlinear_arith)
        requires
            m < p * (x + 1),
            x + 1 <= (y + 1) * g,
    ;
}

/// One step of a bit count: drops `w` bits of the bracket of `m` if `x` has more.
fn drop_bits(x: u128, l: u32, w: u32, g: u128, Ghost(m): Ghost<nat>) -> (r: (u128, u32))
    requires
        g == pow2(w as nat),
        1 <= x < g * g,
        w <= 64,
        l <= 128,
        pow2(l as nat) * x <= m < pow2(l as nat) * (x + 1),
    ensures
        1 <= r.0 < g,
        r.1 <= l + w,
        pow2(r.1 as nat) * r.0 <= m < pow2(r.1 as nat) * (r.0 + 1),
{
    if x < g {
        return (x, l);
    }
    proof {
        lemma_pow2_pos(w as nat);
        lemma_drop_bits(m, l as nat, x as nat, w as nat);
        lemma_fundamental_div_mod(x as int, g as int);
        lemma_mod_bound(x as int, g as int);
        let y = x as int / g as int;
        assert(1 <= y < g) by (nonlinear_arith)
            requires
                x == g * y + x % g,
                0 <= x % g < g,
                g <= x < g * g,
                g > 0,
        ;
    }
    (x / g, l + w)
}

/// Number of bits in the binary representation of `m`.
pub fn bit_length(m: u128) -> (l: u32)
    requires
        m > 0,
    ensures
        1 <= l <= 128,
        pow2((l - 1) as nat) <= m < pow2(l as nat),
{
    proof {
        lemma2_to64();
        assert(pow2(0) * m <= m < pow2(0) * (m + 1));
    }
    let (x, l) = drop_bits(m, 0, 64, 0x1_0000_0000_0000_0000, Ghost(m as nat));
    let (x, l) = drop_bits(x, l, 32, 0x1_0000_0000, Ghost(m as nat));
    let (x, l) = drop_bits(x, l, 16, 0x1_0000, Ghost(m as nat));
    let (x, l) = drop_bits(x, l, 8, 0x100, Ghost(m as nat));
    let (x, l) = drop_bits(x, l, 4, 0x10, Ghost(m as nat));
    let (x, l) = drop_bits(x, l, 2, 4, Ghost(m as nat));
    let (x, l) = drop_bits(x, l, 1, 2, Ghost(m as nat));
    proof {
        let p = pow2(l as nat);
        assert(p * x == p && p * (x + 1) == 2 * p) by (nonlinear_arith)
            requires
                x == 1,
        ;
        lemma_pow2_unfold((l + 1) as nat);
    }
    l + 1
}

/// The rounding exponent of a magnitude in the cell of `m`, from the length of `m`.
proof fn lemma_cell_exponent(n: nat, d: nat, m: nat, e: int, sticky: bool, l: nat, k: nat)
    requires
        d > 0,
        in_cell(n, d, m, e, sticky),
        l >= 1,
        pow2((l - 1) as nat) <= m < pow2(l),
        k == if l + e > 53 {
            l + e - 53
        } else {
            0
        },
    ensures
        ulp_exponent(n, d) == k,
{
    let a = down(e);
    let b = up(e);
    let s = (53 + k - e) as nat;
    lemma_shift_up(53 + k, e, s);
    if l < s {
        lemma_pow2_strictly_increases(l, s);
    }
    assert(m + 1 <= pow2(s));
    let p = pow2(s);
    let top = pow2(53 + k);
    assert(n * a < d * top * a) by (nonlinear_arith)
        requires
            n * a < d * (m + 1) * b,
            m + 1 <= p,
            top * a == b * p,
            d > 0,
            b > 0,
    ;
    assert(n < d * top) by (nonlinear_arith)
        requires
            n * a < d * top * a,
            a > 0,
    ;
    lemma_pow2_adds(53, k);
    assert(d * pow2(53) * pow2(k) == d * top) by (nonlinear_arith)
        requires
            top == pow2(53) * pow2(k),
    ;
    if k > 0 {
        let j = (k - 1) as nat;
        let low = pow2(53 + j);
        lemma_shift_up(53 + j, e, (l - 1) as nat);
        let pl = pow2((l - 1) as nat);
        assert(n * a >= d * low * a) by (nonlinear_arith)
            requires
                n * a >= d * m * b,
                m >= pl,
                low * a == b * pl,
                d > 0,
                b > 0,
        ;
        assert(n >= d * low) by (nonlinear_arith)
            requires
                n * a >= d * low * a,
                a > 0,
        ;
        lemma_pow2_adds(53, j);
        assert(d * pow2(53) * pow2(j) == d * low) by (nonlinear_arith)
            requires
                low == pow2(53) * pow2(j),
        ;
    }
    lemma_ulp_exponent(n, d, k);
}

/// Rounding a magnitude in the cell of `m` at a unit `s` bits above the cell.
proof fn lemma_cell_rounds(n: nat, d: nat, m: nat, e: int, sticky: bool, k: nat, s: nat)
    requires
        d > 0,
        in_cell(n, d, m, e, sticky),
        s > 0,
        s == k - e,
    ensures
        ({
            let q = m / pow2(s);
            let r = m % pow2(s);
            let h = pow2((s - 1) as nat);
            nearest_even(n, d * pow2(k)) == if r < h {
                q
            } else if r > h || sticky {
                q + 1
            } else {
                q + q % 2
            }
        }),
{
    let a = down(e);
    let b = up(e);
    let p = pow2(s);
    let h = pow2((s - 1) as nat);
    let q = m / p;
    let r = m % p;
    let x = d * b;
    let nn = n * a;
    lemma_shift_up(k, e, s);
    lemma_pow2_pos(s);
    lemma_pow2_pos(k);
    lemma_pow2_unfold(s);
    lemma_fundamental_div_mod(m as int, p as int);
    lemma_mod_bound(m as int, p as int);
    let dk = d * pow2(k);
    assert(dk * a == x * p) by (nonlinear_arith)
        requires
            dk == d * pow2(k),
            x == d * b,
            pow2(k) * a == b * p,
    ;
    assert(dk > 0 && x > 0) by (nonlinear_arith)
        requires
            dk == d * pow2(k),
            x == d * b,
            d > 0,
            b > 0,
            pow2(k) > 0,
    ;
    lemma_nearest_even_scaled(n, dk, a);
    assert(nn >= x * m && nn < x * (m + 1) && (sticky <==> nn != x * m)) by {
        assert(d * m * b == x * m) by (nonlinear_arith)
            requires
                x == d * b,
        ;
        assert(d * (m + 1) * b == x * (m + 1)) by (nonlinear_arith)
            requires
                x == d * b,
        ;
    }
    let base = p * q;
    assert(m == base + r);
    assert(q * (x * p) == x * base && (q + 1) * (x * p) == x * (base + p)) by (nonlinear_arith)
        requires
            base == p * q,
    ;
    assert(x * base <= x * m && x * (m + 1) <= x * (base + p)) by (nonlinear_arith)
        requires
            base <= m,
            m + 1 <= base + p,
            x > 0,
    ;
    assert(x * p > 0) by (nonlinear_arith)
        requires
            x > 0,
            p > 0,
    ;
    lemma_nearest_even(nn, x * p, q);
    assert((2 * q + 1) * (x * p) == 2 * (x * (base + h))) by (nonlinear_arith)
        requires
            base == p * q,
            p == 2 * h,
    ;
    if r < h {
        assert(x * (m + 1) <= x * (base + h)) by (nonlinear_arith)
            requires
                m + 1 <= base + h,
                x > 0,
        ;
    } else if r > h {
        assert(x * (base + h) < x * m) by (nonlinear_arith)
            requires
                base + h < m,
                x > 0,
        ;
    }
}

/// A cell finer than the rounding unit by no bits is a whole number of units.
proof fn lemma_cell_exact(n: nat, d: nat, m: nat, e: int, k: nat, t: nat)
    requires
        d > 0,
        in_cell(n, d, m, e, false),
        t == e - k,
    ensures
        nearest_even(n, d * pow2(k)) == m * pow2(t),
{
    lemma2_to64();
    lemma_pow2_adds(k, t);
    lemma_pow2_pos(k);
    lemma_pow2_pos(t);
    assert(down(e) == 1);
    assert(n * down(e) == n) by (nonlinear_arith)
        requires
            down(e) == 1,
    ;
    let dk = d * pow2(k);
    let c = m * pow2(t);
    assert(n == c * dk) by (nonlinear_arith)
        requires
            n == d * m * up(e),
            up(e) == pow2(k) * pow2(t),
            dk == d * pow2(k),
            c == m * pow2(t),
    ;
    assert(dk > 0) by (nonlinear_arith)
        requires
            dk == d * pow2(k),
            d > 0,
            pow2(k) > 0,
    ;
    assert(c * dk <= n < (c + 1) * dk && 2 * n < (2 * c + 1) * dk) by (nonlinear_arith)
        requires
            n == c * dk,
            dk > 0,
    ;
    lemma_nearest_even(n, dk, c);
}

/// Rounds the magnitude that the cell of `m` at scale `2^e` stands for.
pub fn round_scaled(
    m: u128,
    e: i64,
    sticky: bool,
    Ghost(n): Ghost<nat>,
    Ghost(d): Ghost<nat>,
) -> (r: u64)
    requires
        d > 0,
        0 < m < 0x8000_0000_0000_0000_0000_0000_0000_0000u128,
        -0x10000 <= e <= 0x10000,
        in_cell(n, d, m as nat, e as int, sticky),
        sticky ==> m >= 0x20_0000_0000_0000,
    ensures
        r == round_mag(n, d),
        r <= INF_MAG,
{
    let l: i64 = bit_length(m) as i64;
    let k: i64 = if l + e > 53 {
        l + e - 53
    } else {
        0
    };
    proof {
        reveal(round_mag);
        lemma_cell_exponent(n, d, m as nat, e as int, sticky, l as nat, k as nat);
        lemma2_to64();
        lemma2_to64_rest();
    }
    if k > 2046 {
        proof {
            assert(k * BINADE >= 2047 * BINADE);
        }
        return INF_MAG;
    }
    let s: i64 = k - e;
    let q: u64;
    if s <= 0 {
        let t: u32 = (e - k) as u32;
        proof {
            if sticky {
                lemma_shl_one(127);
                if l < 54 {
                    if l < 53 {
                        lemma_pow2_strictly_increases(l as nat, 53);
                    }
                }
                assert(false);
            }
            lemma_cell_exact(n, d, m as nat, e as int, k as nat, t as nat);
            lemma_pow2_adds(l as nat, t as nat);
            if l + t < 53 {
                lemma_pow2_strictly_increases((l + t) as nat, 53);
            }
            lemma_pow2_pos(t as nat);
            assert(m * pow2(t as nat) < pow2(53)) by (nonlinear_arith)
                requires
                    m < pow2(l as nat),
                    pow2(l as nat) * pow2(t as nat) <= pow2(53),
                    pow2(t as nat) > 0,
            ;
        }
        q = (m * power_of_two(t)) as u64;
    } else {
        proof {
            lemma_cell_rounds(n, d, m as nat, e as int, sticky, k as nat, s as nat);
        }
        if s >= 128 {
            proof {
                assert(m < pow2(127)) by {
                    lemma_shl_one(127);
                    assert(1u128 << 127u128 == 0x8000_0000_0000_0000_0000_0000_0000_0000u128)
                        by (bit_vector);
                }
                if s > 128 {
                    lemma_pow2_strictly_increases(127, (s - 1) as nat);
                }
                lemma_pow2_unfold(s as nat);
                lemma_small_div_mod(m as nat, pow2(s as nat));
            }
            q = 0;
        } else {
            let p: u128 = power_of_two(s as u32);
            proof {
                lemma_pow2_pos(s as nat);
            }
            let h: u128 = power_of_two((s - 1) as u32);
            let c: u128 = m / p;
            let r: u128 = m % p;
            proof {
                lemma_pow2_adds(53, s as nat);
                if l < 53 + s {
                    lemma_pow2_strictly_increases(l as nat, (53 + s) as nat);
                }
                lemma_fundamental_div_mod(m as int, p as int);
                lemma_mod_bound(m as int, p as int);
                assert(c < pow2(53)) by (nonlinear_arith)
                    requires
                        m == p * c + r,
                        r >= 0,
                        m < pow2(53) * p,
                        p > 0,
                ;
            }
            if r < h {
                q = c as u64;
            } else if r > h || sticky {
                q = c as u64 + 1;
            } else {
                q = c as u64 + (c % 2) as u64;
            }
        }
    }
    let b: u64 = (k as u64) * BINADE + q;
    if b < INF_MAG {
        b
    } else {
        INF_MAG
    }
}

/// A number below the modulus is its own remainder.
pub proof fn lemma_small_div_mod(x: nat, p: nat)
    requires
        x < p,
    ensures
        x / p == 0,
        x % p == x,
{
    lemma_fundamental_div_mod_converse(x as int, p as int, 0, x as int);
}

} // verus!
