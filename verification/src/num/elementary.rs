//! Elementary functions that a caller supplies.
//!
//! The logarithm, the exponential and their kin are not correctly rounded on
//! real machines. The library therefore takes them as an argument `math`, a
//! function from a request to a number, and is verified for every such
//! function.
use vstd::prelude::*;

use crate::num::model::Real;

verus! {

/// A request for the value of an elementary function.
#[derive(Clone, Copy, Debug)]
pub enum Elementary {
    /// The exponential.
    Exp(Real),
    /// The natural logarithm.
    Ln(Real),
    /// The sine.
    Sin(Real),
    /// The cosine.
    Cos(Real),
    /// The tangent.
    Tan(Real),
    /// The inverse tangent.
    Atan(Real),
    /// The angle of the point with the given ordinate and abscissa.
    Atan2(Real, Real),
    /// The hyperbolic tangent.
    Tanh(Real),
    /// The first number raised to the second.
    Powf(Real, Real),
    /// The logarithm of the gamma function.
    LnGamma(Real),
}

/// A mathematical function from requests to numbers.
pub type Oracle = spec_fn(Elementary) -> Real;

/// `math` answers every request, and answers the same request alike each time.
pub open spec fn is_function<M: Fn(Elementary) -> Real>(math: M) -> bool {
    &&& forall|e: Elementary| #[trigger] math.requires((e,))
    &&& forall|e: Elementary, x: Real, y: Real|
        #[trigger] math.ensures((e,), x) && #[trigger] math.ensures((e,), y) ==> x == y
}

/// The function from requests to numbers that `math` computes.
pub open spec fn oracle<M: Fn(Elementary) -> Real>(math: M) -> Oracle {
    |e: Elementary| choose|x: Real| math.ensures((e,), x)
}

/// Asks `math`.
pub fn ask<M: Fn(Elementary) -> Real>(math: &M, e: Elementary) -> (r: Real)
    requires
        is_function(*math),
    ensures
        r == oracle(*math)(e),
{
    math(e)
}

/// The exponential.
pub open spec fn exp_of(f: Oracle, x: Real) -> Real {
    f(Elementary::Exp(x))
}

/// The exponential that is supplied behaves like one: it is never negative, never
/// falls, and is one at zero.
pub open spec fn exp_is_monotone(f: Oracle) -> bool {
    &&& forall|x: Real, y: Real|
        x <= y ==> #[trigger] exp_of(f, x) <= #[trigger] exp_of(f, y)
    &&& forall|x: Real| !x.nan() ==> Real::whole(0) <= #[trigger] exp_of(f, x)
    &&& exp_of(f, Real::whole(0)) == Real::whole(1)
}

/// The natural logarithm.
pub open spec fn ln_of(f: Oracle, x: Real) -> Real {
    f(Elementary::Ln(x))
}

/// The exponential.
pub fn exp<M: Fn(Elementary) -> Real>(math: &M, x: Real) -> (r: Real)
    requires
        is_function(*math),
    ensures
        r == exp_of(oracle(*math), x),
{
    ask(math, Elementary::Exp(x))
}

/// The natural logarithm.
pub fn ln<M: Fn(Elementary) -> Real>(math: &M, x: Real) -> (r: Real)
    requires
        is_function(*math),
    ensures
        r == ln_of(oracle(*math), x),
{
    ask(math, Elementary::Ln(x))
}

} // verus!
