//! Shared pieces of the distribution fits.
use vstd::prelude::*;

use crate::num::series::{squared_deviations, sum_of_seq, sum_squared_deviations};
use crate::num::Real;

verus! {

/// Why there is no fit: fewer than thirty observations.
#[derive(Debug, Clone, Copy, PartialEq, Eq, Structural)]
pub struct TooFewObservations {
    pub have: usize,
}

/// The root mean squared distance from `mu`.
pub open spec fn spread_of(s: Seq<Real>, mu: Real) -> Real {
    (sum_of_seq(squared_deviations(s, mu)) / Real::count(s.len() as usize)).sqrt()
}

/// The root mean squared distance from `mu`.
pub fn sample_std(xs: &[Real], mu: Real) -> (r: Real)
    ensures
        r == spread_of(xs@, mu),
{
    (sum_squared_deviations(xs, mu) / Real::count(xs.len())).sqrt()
}

/// The middle of a sequence in ascending order; the mean of the two middle
/// elements of an even number.
pub open spec fn middle_of(s: Seq<Real>) -> Real {
    let n = s.len() as int;
    if n % 2 == 0 {
        (s[n / 2 - 1] + s[n / 2]) / Real::whole(2)
    } else {
        s[n / 2]
    }
}

/// The middle of a sequence in ascending order.
pub fn middle(s: &Vec<Real>) -> (r: Real)
    requires
        s@.len() > 0,
    ensures
        r == middle_of(s@),
{
    let n: usize = s.len();
    if n % 2 == 0 {
        (s[n / 2 - 1] + s[n / 2]) / Real::whole(2)
    } else {
        s[n / 2]
    }
}

/// The largest distance between the empirical distribution function and a
/// theoretical one, given at the first `n` observations in ascending order.
pub open spec fn ks_of(theoretical: Seq<Real>, n: nat) -> Real
    decreases n,
{
    if n == 0 {
        Real::whole(0)
    } else {
        ks_of(theoretical, (n - 1) as nat).max(
            (Real::count(n as usize) / Real::count(theoretical.len() as usize) - theoretical[n
                - 1]).abs(),
        )
    }
}

/// The largest distance between the empirical distribution function and a
/// theoretical one.
pub fn ks_statistic(theoretical: &Vec<Real>) -> (r: Real)
    ensures
        r == ks_of(theoretical@, theoretical@.len()),
{
    let n = Real::count(theoretical.len());
    let mut worst = Real::whole(0);
    let mut i: usize = 0;
    while i < theoretical.len()
        invariant
            i <= theoretical@.len(),
            n == Real::count(theoretical@.len() as usize),
            worst == ks_of(theoretical@, i as nat),
        decreases theoretical@.len() - i,
    {
        let empirical = Real::count(i + 1) / n;
        worst = worst.max((empirical - theoretical[i]).abs());
        i += 1;
    }
    worst
}

} // verus!
