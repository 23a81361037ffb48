//! What a binary64 number is and what its operations return.
use vstd::prelude::*;
use vstd::arithmetic::power2::pow2;

verus! {

/// A binary64 floating-point number, held as its IEEE 754 bit pattern.
#[derive(Clone, Copy, Debug)]
pub struct Real {
    pub bits: u64,
}

/// Number of explicit significand patterns in one binade, `2^52`.
pub const BINADE: u64 = 0x10_0000_0000_0000;

/// Weight of the sign bit, `2^63`.
pub const SIGN: u64 = 0x8000_0000_0000_0000;

/// Magnitude pattern of infinity; larger magnitudes are not numbers.
pub const INF_MAG: u64 = 0x7ff0_0000_0000_0000;

/// The pattern produced when an operation has no numeric result.
pub const NAN_BITS: u64 = 0x7ff8_0000_0000_0000;

/// The unit in the last place of the magnitude pattern `b`, as a power of two
/// counted in the smallest positive number, `2^-1074`.
pub open spec fn mag_exponent(b: nat) -> nat {
    if b < BINADE {
        0
    } else {
        (b / BINADE as nat - 1) as nat
    }
}

/// The integer significand of the magnitude pattern `b`.
pub open spec fn mag_significand(b: nat) -> nat {
    (b - mag_exponent(b) * BINADE) as nat
}

/// The magnitude that the pattern `b` denotes, in units of `2^-1074`. Every
/// finite binary64 number is a whole number of these units; infinity is given
/// the value one binade above the largest finite number.
#[verifier::opaque]
pub open spec fn mag_units(b: nat) -> nat {
    mag_significand(b) * pow2(mag_exponent(b))
}

/// The exponent of the unit in the last place at which the magnitude `n / d`
/// (in units) is rounded: the least `k` with `n / d < 2^53 * 2^k`.
pub open spec fn ulp_exponent(n: nat, d: nat) -> nat
    decreases (if n > d { n - d } else { 0 }),
{
    if d == 0 || n < d * 0x20_0000_0000_0000 {
        0
    } else {
        1 + ulp_exponent(n, 2 * d)
    }
}

/// `n / d` rounded to the nearest integer, ties to even.
pub open spec fn nearest_even(n: nat, d: nat) -> nat {
    let q = n / d;
    let r = n % d;
    if 2 * r < d {
        q
    } else if 2 * r > d {
        q + 1
    } else {
        q + q % 2
    }
}

/// The magnitude pattern nearest to `n / d` units: the significand is rounded
/// to nearest, ties to even, and magnitudes past the last binade are infinite.
#[verifier::opaque]
pub open spec fn round_mag(n: nat, d: nat) -> nat {
    let k = ulp_exponent(n, d);
    let b = k * BINADE + nearest_even(n, d * pow2(k));
    if b < INF_MAG {
        b as nat
    } else {
        INF_MAG as nat
    }
}

/// The integer part of the square root of `n`.
pub open spec fn floor_root(n: nat) -> nat {
    choose|r: nat| is_floor_root(n, r)
}

/// Whether `r` is the integer part of the square root of `n`.
pub open spec fn is_floor_root(n: nat, r: nat) -> bool {
    r * r <= n < (r + 1) * (r + 1)
}

/// The exponent of the unit in the last place at which the square root of `n`
/// is rounded: the least `k` with `sqrt(n) < 2^53 * 2^k`.
pub open spec fn root_exponent(n: nat) -> nat
    decreases n,
{
    if n == 0 || n < pow2(106) {
        0
    } else {
        1 + root_exponent(n / 4)
    }
}

/// The magnitude pattern nearest to the square root of `n`. With `x = n / 4^k`,
/// the nearest integer to `sqrt(x)` is half of `sqrt(4 * x)` rounded up; a tie
/// cannot arise.
pub open spec fn root_mag(n: nat) -> nat {
    let k = root_exponent(n);
    k * BINADE as nat + (floor_root(4 * n / pow2(2 * k)) + 1) / 2
}

/// The pattern with the given sign and magnitude.
pub open spec fn with_sign(negative: bool, mag: nat) -> Real {
    Real {
        bits: if negative {
            (SIGN + mag) as u64
        } else {
            mag as u64
        },
    }
}

impl Real {
    /// Whether the sign bit is set.
    pub open spec fn negative(self) -> bool {
        self.bits >= SIGN
    }

    /// The pattern without its sign bit.
    pub open spec fn mag(self) -> nat {
        if self.negative() {
            (self.bits - SIGN) as nat
        } else {
            self.bits as nat
        }
    }

    pub open spec fn nan(self) -> bool {
        self.mag() > INF_MAG
    }

    pub open spec fn infinite(self) -> bool {
        self.mag() == INF_MAG
    }

    pub open spec fn finite(self) -> bool {
        self.mag() < INF_MAG
    }

    pub open spec fn zero(self) -> bool {
        self.mag() == 0
    }

    /// The number's value in units of `2^-1074`.
    pub open spec fn value(self) -> int {
        if self.negative() {
            -(mag_units(self.mag()) as int)
        } else {
            mag_units(self.mag()) as int
        }
    }

    /// The correctly rounded sum.
    #[verifier::opaque]
    pub open spec fn spec_add(self, rhs: Real) -> Real {
        if self.nan() || rhs.nan() {
            not_a_number()
        } else if self.infinite() {
            if rhs.infinite() && self.negative() != rhs.negative() {
                not_a_number()
            } else {
                self
            }
        } else if rhs.infinite() {
            rhs
        } else {
            let s = self.value() + rhs.value();
            if s == 0 {
                with_sign(self.negative() && rhs.negative(), 0)
            } else if s < 0 {
                with_sign(true, round_mag((-s) as nat, 1))
            } else {
                with_sign(false, round_mag(s as nat, 1))
            }
        }
    }

    /// The correctly rounded difference.
    pub open spec fn spec_sub(self, rhs: Real) -> Real {
        self.spec_add(rhs.spec_neg())
    }

    /// The correctly rounded product.
    #[verifier::opaque]
    pub open spec fn spec_mul(self, rhs: Real) -> Real {
        let negative = self.negative() != rhs.negative();
        if self.nan() || rhs.nan() {
            not_a_number()
        } else if self.infinite() || rhs.infinite() {
            if self.zero() || rhs.zero() {
                not_a_number()
            } else {
                with_sign(negative, INF_MAG as nat)
            }
        } else {
            with_sign(
                negative,
                round_mag(mag_units(self.mag()) * mag_units(rhs.mag()), pow2(1074)),
            )
        }
    }

    /// What `/` denotes in specifications: the correctly rounded quotient.
    #[verifier::inline]
    pub open spec fn spec_euclidean_or_real_div(self, rhs: Real) -> Real {
        self.spec_div(rhs)
    }

    /// The correctly rounded quotient.
    #[verifier::opaque]
    pub open spec fn spec_div(self, rhs: Real) -> Real {
        let negative = self.negative() != rhs.negative();
        if self.nan() || rhs.nan() {
            not_a_number()
        } else if self.infinite() {
            if rhs.infinite() {
                not_a_number()
            } else {
                with_sign(negative, INF_MAG as nat)
            }
        } else if rhs.infinite() {
            with_sign(negative, 0)
        } else if rhs.zero() {
            if self.zero() {
                not_a_number()
            } else {
                with_sign(negative, INF_MAG as nat)
            }
        } else {
            with_sign(
                negative,
                round_mag(mag_units(self.mag()) * pow2(1074), mag_units(rhs.mag())),
            )
        }
    }

    /// Numeric order; a value that is not a number compares with nothing.
    pub open spec fn spec_lt(self, rhs: Real) -> bool {
        !self.nan() && !rhs.nan() && self.value() < rhs.value()
    }

    pub open spec fn spec_le(self, rhs: Real) -> bool {
        !self.nan() && !rhs.nan() && self.value() <= rhs.value()
    }

    pub open spec fn spec_gt(self, rhs: Real) -> bool {
        rhs.spec_lt(self)
    }

    pub open spec fn spec_ge(self, rhs: Real) -> bool {
        rhs.spec_le(self)
    }

    /// Numeric equality: the two zeros are equal, and a value that is not a
    /// number equals nothing.
    pub open spec fn same_as(self, rhs: Real) -> bool {
        !self.nan() && !rhs.nan() && self.value() == rhs.value()
    }
}

/// The result of an operation that has no numeric result.
pub open spec fn not_a_number() -> Real {
    Real { bits: NAN_BITS }
}

} // verus!
