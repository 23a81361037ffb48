//! Numbers that no short fraction gives, by their bit patterns.
use vstd::prelude::*;

use crate::num::model::Real;

verus! {

/// The circle constant.
pub open spec fn spec_pi() -> Real {
    Real { bits: 0x4009_21fb_5444_2d18 }
}

/// The circle constant.
#[verifier::when_used_as_spec(spec_pi)]
pub fn pi() -> (r: Real)
    ensures
        r == spec_pi(),
{
    Real::from_bits(0x4009_21fb_5444_2d18)
}

/// The square root of two.
pub open spec fn spec_sqrt2() -> Real {
    Real { bits: 0x3ff6_a09e_667f_3bcd }
}

/// The square root of two.
#[verifier::when_used_as_spec(spec_sqrt2)]
pub fn sqrt2() -> (r: Real)
    ensures
        r == spec_sqrt2(),
{
    Real::from_bits(0x3ff6_a09e_667f_3bcd)
}

/// The number nearest to `1e-20`.
pub open spec fn spec_tiny20() -> Real {
    Real { bits: 0x3bc7_9ca1_0c92_4223 }
}

/// The number nearest to `1e-20`.
#[verifier::when_used_as_spec(spec_tiny20)]
pub fn tiny20() -> (r: Real)
    ensures
        r == spec_tiny20(),
{
    Real::from_bits(0x3bc7_9ca1_0c92_4223)
}

/// The number nearest to `1e-30`.
pub open spec fn spec_tiny30() -> Real {
    Real { bits: 0x39b4_484b_feeb_c2a0 }
}

/// The number nearest to `1e-30`.
#[verifier::when_used_as_spec(spec_tiny30)]
pub fn tiny30() -> (r: Real)
    ensures
        r == spec_tiny30(),
{
    Real::from_bits(0x39b4_484b_feeb_c2a0)
}

/// The number nearest to `1e-300`.
pub open spec fn spec_tiny300() -> Real {
    Real { bits: 0x01a5_6e1f_c2f8_f359 }
}

/// The number nearest to `1e-300`.
#[verifier::when_used_as_spec(spec_tiny300)]
pub fn tiny300() -> (r: Real)
    ensures
        r == spec_tiny300(),
{
    Real::from_bits(0x01a5_6e1f_c2f8_f359)
}

/// The smallest positive number of full precision.
pub open spec fn spec_least_normal() -> Real {
    Real { bits: 0x0010_0000_0000_0000 }
}

/// The smallest positive number of full precision.
#[verifier::when_used_as_spec(spec_least_normal)]
pub fn least_normal() -> (r: Real)
    ensures
        r == spec_least_normal(),
{
    Real::from_bits(0x0010_0000_0000_0000)
}

/// Below all numbers.
pub open spec fn spec_minus_infinity() -> Real {
    Real { bits: 0xfff0_0000_0000_0000 }
}

/// Below all numbers.
#[verifier::when_used_as_spec(spec_minus_infinity)]
pub fn minus_infinity() -> (r: Real)
    ensures
        r == spec_minus_infinity(),
{
    Real::from_bits(0xfff0_0000_0000_0000)
}

/// Above all numbers.
pub open spec fn spec_infinity() -> Real {
    Real { bits: 0x7ff0_0000_0000_0000 }
}

/// Above all numbers.
#[verifier::when_used_as_spec(spec_infinity)]
pub fn infinity() -> (r: Real)
    ensures
        r == spec_infinity(),
{
    Real::from_bits(0x7ff0_0000_0000_0000)
}

} // verus!
