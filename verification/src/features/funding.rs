//! Funding rate features: extreme funding points to crowded positions, and is a
//! contrarian signal.
use std::collections::VecDeque;
use vstd::prelude::*;

use crate::data::store::FundingSample;
use crate::features::technical::{deviation_of, negligible};
use crate::num::elementary::{ask, is_function, oracle, Elementary, Oracle};
use crate::num::series::{sum, sum_of_seq, sum_squared_deviations};
use crate::num::Real;

verus! {

/// Funding features of one asset.
#[derive(Debug, Clone, Copy)]
pub struct FundingFeatures {
    /// Current rate per eight hours.
    pub current_rate: Real,
    /// Rate per year.
    pub annualised: Real,
    /// Distance from the mean rate in standard deviations.
    pub z_score: Real,
    /// Current rate less the one before.
    pub momentum: Real,
    /// Mark over oracle price, less one.
    pub premium_pct: Real,
}

/// The features without history.
pub open spec fn no_funding() -> FundingFeatures {
    let o = Real::whole(0);
    FundingFeatures { current_rate: o, annualised: o, z_score: o, momentum: o, premium_pct: o }
}

impl Default for FundingFeatures {
    fn default() -> (r: Self)
        ensures
            r == no_funding(),
    {
        let o = Real::whole(0);
        FundingFeatures { current_rate: o, annualised: o, z_score: o, momentum: o, premium_pct: o }
    }
}

/// The span of the rolling mean and deviation in milliseconds: thirty days.
pub const WINDOW_MS: u64 = 2_592_000_000;

/// The sample lies within thirty days before `now`.
pub open spec fn recent(s: FundingSample, now: u64) -> bool {
    s.time + WINDOW_MS >= now
}

/// The rates of the samples within thirty days before `now`.
pub open spec fn recent_rates(history: Seq<FundingSample>, now: u64) -> Seq<Real>
    decreases history.len(),
{
    if history.len() == 0 {
        Seq::empty()
    } else {
        let before = recent_rates(history.drop_last(), now);
        if recent(history.last(), now) {
            before.push(history.last().rate)
        } else {
            before
        }
    }
}

/// The features of a history of samples and the latest prices. Mean and deviation
/// are those of the thirty days before the latest sample.
pub open spec fn funding_of(
    history: Seq<FundingSample>,
    mark_px: Real,
    oracle_px: Real,
) -> FundingFeatures {
    let rates = recent_rates(history, history.last().time);
    let n = Real::count(rates.len() as usize);
    let rate = history.last().rate;
    let sigma = deviation_of(rates, n).max(negligible());
    if history.len() == 0 {
        no_funding()
    } else {
        FundingFeatures {
            current_rate: rate,
            annualised: rate * Real::whole(3) * Real::whole(365),
            z_score: (rate - sum_of_seq(rates) / n) / sigma,
            momentum: if history.len() >= 2 {
                rate - history[history.len() - 2].rate
            } else {
                Real::whole(0)
            },
            premium_pct: if oracle_px > Real::ratio(1, 10_000_000_000) {
                (mark_px - oracle_px) / oracle_px
            } else {
                Real::whole(0)
            },
        }
    }
}

impl FundingFeatures {
    /// The features of a history of samples and the latest prices.
    pub fn compute(history: &VecDeque<FundingSample>, mark_px: Real, oracle_px: Real) -> (r: Self)
        ensures
            r == funding_of(history@, mark_px, oracle_px),
    {
        let len: usize = history.len();
        if len == 0 {
            return Self::default();
        }
        let current = history[len - 1];
        let now: u64 = current.time;
        let mut rates: Vec<Real> = Vec::new();
        let mut i: usize = 0;
        while i < len
            invariant
                i <= len,
                len == history@.len(),
                now == current.time,
                rates@ == recent_rates(history@.take(i as int), now),
            decreases len - i,
        {
            let s = history[i];
            assert(history@.take(i + 1).drop_last() =~= history@.take(i as int));
            if s.time >= now.saturating_sub(WINDOW_MS) {
                rates.push(s.rate);
            }
            i += 1;
        }
        assert(history@.take(len as int) =~= history@);
        let n = Real::count(rates.len());
        let mu = sum(rates.as_slice()) / n;
        let sigma = (sum_squared_deviations(rates.as_slice(), mu) / n).sqrt().max(negligible());
        let z_score = (current.rate - mu) / sigma;
        let momentum = if len >= 2 {
            current.rate - history[len - 2].rate
        } else {
            Real::whole(0)
        };
        let premium_pct = if oracle_px > Real::ratio(1, 10_000_000_000) {
            (mark_px - oracle_px) / oracle_px
        } else {
            Real::whole(0)
        };
        Self {
            current_rate: current.rate,
            annualised: current.rate * Real::whole(3) * Real::whole(365),
            z_score,
            momentum,
            premium_pct,
        }
    }

    /// The contrarian signal.
    pub open spec fn contrarian(&self, f: Oracle) -> Real {
        f(Elementary::Tanh(self.z_score.neg() / Real::ratio(5, 2)))
    }

    /// Contrarian signal: positive when shorts are crowded, negative when longs
    /// are.
    pub fn contrarian_signal<M: Fn(Elementary) -> Real>(&self, math: &M) -> (r: Real)
        requires
            is_function(*math),
        ensures
            r == self.contrarian(oracle(*math)),
    {
        ask(math, Elementary::Tanh(self.z_score.neg() / Real::ratio(5, 2)))
    }

    /// The features as one vector.
    pub fn to_vec<M: Fn(Elementary) -> Real>(&self, math: &M) -> (r: Vec<Real>)
        requires
            is_function(*math),
        ensures
            r@ == seq![
                self.current_rate,
                self.annualised,
                self.z_score,
                self.momentum,
                self.premium_pct,
                self.contrarian(oracle(*math)),
            ],
    {
        let c = self.contrarian_signal(math);
        let v = vec![
            self.current_rate,
            self.annualised,
            self.z_score,
            self.momentum,
            self.premium_pct,
            c,
        ];
        assert(v@ =~= seq![
            self.current_rate,
            self.annualised,
            self.z_score,
            self.momentum,
            self.premium_pct,
            c,
        ]);
        v
    }
}

/// The volatility of returns per year; zero without returns.
pub open spec fn annual_vol_of(rets: Seq<Real>, bars_per_year: Real) -> Real {
    let n = Real::count(rets.len() as usize);
    let var = sum_of_seq(
        crate::num::series::squared_deviations(rets, sum_of_seq(rets) / n),
    ) / n;
    if rets.len() == 0 {
        Real::whole(0)
    } else {
        (var * bars_per_year).sqrt()
    }
}

fn annualised_vol(rets: &[Real], bars_per_year: Real) -> (r: Real)
    ensures
        r == annual_vol_of(rets@, bars_per_year),
{
    if rets.len() == 0 {
        return Real::whole(0);
    }
    let n = Real::count(rets.len());
    let mu = sum(rets) / n;
    let var = sum_squared_deviations(rets, mu) / n;
    (var * bars_per_year).sqrt()
}

/// Hourly over daily volatility, both per year; one where the daily one vanishes.
pub open spec fn volatility_ratio_of(returns_1h: Seq<Real>, returns_1d: Seq<Real>) -> Real {
    let short = annual_vol_of(returns_1h, Real::whole(8760));
    let long = annual_vol_of(returns_1d, Real::whole(365));
    if long < Real::ratio(1, 10_000_000_000) {
        Real::whole(1)
    } else {
        short / long
    }
}

/// Hourly over daily volatility, both per year.
pub fn volatility_ratio(returns_1h: &[Real], returns_1d: &[Real]) -> (r: Real)
    ensures
        r == volatility_ratio_of(returns_1h@, returns_1d@),
{
    let rv_short = annualised_vol(returns_1h, Real::whole(8760));
    let rv_long = annualised_vol(returns_1d, Real::whole(365));
    if rv_long < Real::ratio(1, 10_000_000_000) {
        return Real::whole(1);
    }
    rv_short / rv_long
}

} // verus!
