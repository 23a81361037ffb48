//! Two-dimensional Kalman filter for level and velocity of a price.
use vstd::prelude::*;

use crate::num::linear::{Mat2, Vec2};
use crate::num::Real;

verus! {

/// The filter.
#[derive(Debug, Clone, Copy)]
pub struct KalmanFilter {
    /// Level and velocity.
    pub x: Vec2,
    /// Their covariance.
    pub p: Mat2,
    /// Covariance of the process noise.
    pub q: Mat2,
    /// Variance of the observation noise.
    pub r: Real,
}

/// The transition of one bar: the velocity adds to the level.
pub open spec fn spec_one_bar() -> Mat2 {
    Mat2::new(Real::whole(1), Real::whole(1), Real::whole(0), Real::whole(1))
}

/// The transition of one bar: the velocity adds to the level.
#[verifier::when_used_as_spec(spec_one_bar)]
pub fn one_bar() -> (r: Mat2)
    ensures
        r == spec_one_bar(),
{
    Mat2::new(Real::whole(1), Real::whole(1), Real::whole(0), Real::whole(1))
}

impl KalmanFilter {
    /// The filter without observations.
    pub open spec fn fresh(q_level: Real, q_velocity: Real, r: Real) -> KalmanFilter {
        let o = Real::whole(0);
        KalmanFilter {
            x: Vec2::new(o, o),
            p: Mat2::identity(),
            q: Mat2::new(q_level, o, o, q_velocity),
            r,
        }
    }

    /// A filter with the given variances of level, velocity and observation
    /// noise.
    pub fn new(q_level: Real, q_velocity: Real, r: Real) -> (k: Self)
        ensures
            k == KalmanFilter::fresh(q_level, q_velocity, r),
    {
        let o = Real::whole(0);
        KalmanFilter {
            x: Vec2::new(o, o),
            p: Mat2::identity(),
            q: Mat2::new(q_level, o, o, q_velocity),
            r,
        }
    }

    /// Variances suitable for daily returns.
    pub fn default_crypto() -> (k: Self)
        ensures
            k == KalmanFilter::fresh(
                Real::ratio(1, 10_000),
                Real::ratio(1, 10_000_000),
                Real::ratio(1, 1000),
            ),
    {
        Self::new(Real::ratio(1, 10_000), Real::ratio(1, 10_000_000), Real::ratio(1, 1000))
    }

    /// The filter after an observed price.
    pub open spec fn updated(self, price: Real) -> KalmanFilter {
        let f = one_bar();
        let h = Vec2::new(Real::whole(1), Real::whole(0));
        let x_pred = f.apply(self.x);
        let p_pred = f.times(self.p).times(f.transposed()).plus(self.q);
        let y = price - h.dot(x_pred);
        let ph = p_pred.apply(h);
        let s = h.dot(ph) + self.r;
        let k = Vec2::new(ph.x / s, ph.y / s);
        KalmanFilter {
            x: x_pred.plus(k.scaled(y)),
            p: Mat2::identity().minus(Mat2::outer(k, h)).times(p_pred),
            ..self
        }
    }

    /// Takes a price and gives the updated level and velocity.
    pub fn update(&mut self, price: Real) -> (r: (Real, Real))
        ensures
            *final(self) == old(self).updated(price),
            r == (final(self).x.x, final(self).x.y),
    {
        let f = one_bar();
        let h = Vec2::new(Real::whole(1), Real::whole(0));
        let x_pred = f.apply(self.x);
        let p_pred = f.times(self.p).times(f.transposed()).plus(self.q);
        let y = price - h.dot(x_pred);
        let ph = p_pred.apply(h);
        let s = h.dot(ph) + self.r;
        let k = Vec2::new(ph.x / s, ph.y / s);
        self.x = x_pred.plus(k.scaled(y));
        self.p = Mat2::identity().minus(Mat2::outer(k, h)).times(p_pred);
        (self.x.x, self.x.y)
    }

    /// The filter after the first `n` prices.
    pub open spec fn after(self, prices: Seq<Real>, n: nat) -> KalmanFilter
        decreases n,
    {
        if n == 0 {
            self
        } else {
            self.after(prices, (n - 1) as nat).updated(prices[n - 1])
        }
    }

    /// Takes a series of prices and gives the levels and velocities.
    pub fn filter_series(&mut self, prices: &[Real]) -> (r: (Vec<Real>, Vec<Real>))
        ensures
            *final(self) == old(self).after(prices@, prices@.len()),
            r.0@ == Seq::new(prices@.len(), |i: int| old(self).after(prices@, (i + 1) as nat).x.x),
            r.1@ == Seq::new(prices@.len(), |i: int| old(self).after(prices@, (i + 1) as nat).x.y),
    {
        let ghost before = *self;
        let mut levels: Vec<Real> = Vec::new();
        let mut velocities: Vec<Real> = Vec::new();
        let mut n: usize = 0;
        while n < prices.len()
            invariant
                n <= prices@.len(),
                before == *old(self),
                *self == before.after(prices@, n as nat),
                levels@.len() == n,
                velocities@.len() == n,
                forall|i: int|
                    0 <= i < n ==> #[trigger] levels@[i] == before.after(
                        prices@,
                        (i + 1) as nat,
                    ).x.x,
                forall|i: int|
                    0 <= i < n ==> #[trigger] velocities@[i] == before.after(
                        prices@,
                        (i + 1) as nat,
                    ).x.y,
            decreases prices@.len() - n,
        {
            let (l, v) = self.update(prices[n]);
            levels.push(l);
            velocities.push(v);
            n += 1;
        }
        assert(levels@ =~= Seq::new(
            prices@.len(),
            |i: int| before.after(prices@, (i + 1) as nat).x.x,
        ));
        assert(velocities@ =~= Seq::new(
            prices@.len(),
            |i: int| before.after(prices@, (i + 1) as nat).x.y,
        ));
        (levels, velocities)
    }

    /// Latest level.
    pub fn level(&self) -> (r: Real)
        ensures
            r == self.x.x,
    {
        self.x.x
    }

    /// Latest velocity.
    pub fn velocity(&self) -> (r: Real)
        ensures
            r == self.x.y,
    {
        self.x.y
    }
}

} // verus!
