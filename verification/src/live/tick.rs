//! The computations of one tick.
use std::collections::VecDeque;
use vstd::prelude::*;

use crate::assets::Asset;
use crate::data::store::{or_empty, Bar, DataStore};
use crate::data::table::Table;
use crate::ensemble::distribution::{EnsembleDistribution, SignalOutput};
use crate::ensemble::fusion::{
    ema_after, frequency_output, frequency_signal, is_mixture, kalman_output, kalman_signal,
    mixture, orderbook_output, orderbook_signal, BayesianFusion,
};
use crate::estimation::dual_kalman::{fresh_filter, DualKalmanFilter};
use crate::estimation::posterior::{Observation, StateEstimator, StatePosterior};
use crate::features::frequency::{band_shares, entropy_of, noise_ratio_of, FrequencyExtractor};
use crate::ml::ensemble::EnsembleOutput;
use crate::num::elementary::{is_function, oracle, Elementary, Oracle};
use crate::num::series::{sum, sum_of_seq};
use crate::num::Real;
use crate::optimizer::kelly::{current_fraction_of, held_fraction};
use crate::optimizer::types::AssetDistribution;
use crate::orderbook::hawkes::{fitted, HawkesProcess};
use crate::risk::manager::PortfolioState;
use crate::stats::cointegration::OuProcess;
use crate::stats::garch::Garch11;
use crate::text::same_text;

verus! {

/// Ticks of five minutes in a week.
pub const TICKS_PER_WEEK: u64 = 2016;

/// Models are retrained once a week.
pub fn is_retraining_tick(tick: u64) -> (r: bool)
    ensures
        r == (tick % TICKS_PER_WEEK == 0),
{
    tick % TICKS_PER_WEEK == 0
}

fn to_vec(d: &VecDeque<u64>) -> (r: Vec<u64>)
    ensures
        r@ == d@,
{
    let mut out: Vec<u64> = Vec::new();
    let mut i: usize = 0;
    while i < d.len()
        invariant
            i <= d@.len(),
            out@ =~= d@.take(i as int),
        decreases d@.len() - i,
    {
        out.push(d[i]);
        i += 1;
    }
    assert(out@ =~= d@);
    out
}

/// The cross-excitation of the model held for an asset, or zero.
pub open spec fn held_ratio(models: Map<Seq<char>, HawkesProcess>, asset: Seq<char>) -> Real {
    if models.contains_key(asset) {
        models[asset].cross_excitation_ratio()
    } else {
        Real::whole(0)
    }
}

/// There are enough trades on both sides for a fit.
pub open spec fn has_arrivals(store: DataStore, asset: Seq<char>) -> bool {
    store.trades_at(asset) is Some && store.trades_at(asset)->0.buys.len() >= 10
        && store.trades_at(asset)->0.sells.len() >= 10
}

/// Refits the arrival model of an asset where there are enough trades, and gives
/// its cross-excitation; without trades zero, with too few that of the model
/// held.
pub fn estimate_hawkes<M: Fn(Elementary) -> Real>(
    store: &DataStore,
    asset: &str,
    models: &mut Table<HawkesProcess>,
    math: &M,
) -> (r: Real)
    requires
        is_function(*math),
    ensures
        final(models)@ == if has_arrivals(*store, asset@) {
            old(models)@.insert(
                asset@,
                fitted(
                    oracle(*math),
                    store.trades_at(asset@)->0.buys,
                    store.trades_at(asset@)->0.sells,
                ),
            )
        } else {
            old(models)@
        },
        r == if store.trades_at(asset@) is None {
            Real::whole(0)
        } else {
            held_ratio(final(models)@, asset@)
        },
{
    let hist = match store.trades.get(asset) {
        Some(h) => h,
        None => {
            return Real::whole(0);
        },
    };
    let buys = to_vec(&hist.buy_times_ms);
    let sells = to_vec(&hist.sell_times_ms);
    match HawkesProcess::fit(buys.as_slice(), sells.as_slice(), math) {
        Ok(h) => {
            let ratio = h.cross_excitation_ratio();
            models.insert(asset, h);
            ratio
        },
        Err(_) => match models.get(asset) {
            Some(h) => h.cross_excitation_ratio(),
            None => Real::whole(0),
        },
    }
}

/// The latest close of an asset's five-minute bars, or zero.
pub open spec fn close_or_zero(store: DataStore, asset: Seq<char>) -> Real {
    let bars = or_empty(store.bars_at(asset, "5m"@));
    if bars.len() == 0 {
        Real::whole(0)
    } else {
        bars.last().close
    }
}

fn last_close(store: &DataStore, asset: &str) -> (r: Real)
    ensures
        r == close_or_zero(*store, asset@),
{
    match store.bars_for(asset, "5m") {
        Some(bars) => if bars.len() == 0 {
            Real::whole(0)
        } else {
            bars[bars.len() - 1].close
        },
        None => Real::whole(0),
    }
}

/// The first of the spreads from `from` on that an asset is part of, or their
/// number.
pub open spec fn first_spread(ous: Seq<OuProcess>, from: nat, asset: Seq<char>) -> nat
    decreases ous.len() - from,
{
    if from >= ous.len() || ous[from as int].asset1@ == asset || ous[from as int].asset2@ == asset {
        from
    } else {
        first_spread(ous, from + 1, asset)
    }
}

/// The z-score of the first spread that an asset is part of, or zero.
pub open spec fn spread_z(ous: Seq<OuProcess>, store: DataStore, asset: Seq<char>) -> Real {
    let k = first_spread(ous, 0, asset) as int;
    if k < ous.len() {
        ous[k].z_score(
            close_or_zero(store, ous[k].asset1@),
            close_or_zero(store, ous[k].asset2@),
        )
    } else {
        Real::whole(0)
    }
}

/// The z-score of the first spread that an asset is part of, or zero.
pub fn ou_z_for(ous: &Vec<OuProcess>, store: &DataStore, asset: &str) -> (r: Real)
    ensures
        r == spread_z(ous@, *store, asset@),
{
    let mut i: usize = 0;
    while i < ous.len()
        invariant
            i <= ous@.len(),
            first_spread(ous@, 0, asset@) == first_spread(ous@, i as nat, asset@),
        decreases ous@.len() - i,
    {
        let ou = &ous[i];
        if same_text(ou.asset1.as_str(), asset) || same_text(ou.asset2.as_str(), asset) {
            let p1 = last_close(store, ou.asset1.as_str());
            let p2 = last_close(store, ou.asset2.as_str());
            return ou.z_score(p1, p2);
        }
        i += 1;
    }
    Real::whole(0)
}

/// The log returns of an asset's five-minute bars.
pub open spec fn recent_returns(store: DataStore, asset: Seq<char>) -> Seq<Real> {
    or_empty(store.bars_at(asset, "5m"@)).map_values(|b: Bar| b.log_return)
}

/// The conditional volatility of an asset; one percent without a model or
/// returns.
pub fn garch_vol_for(models: &Table<Garch11>, store: &DataStore, asset: &str) -> (r: Real)
    ensures
        r == if models@.contains_key(asset@) && recent_returns(*store, asset@).len() > 0 {
            models@[asset@].sigma_ahead(recent_returns(*store, asset@))
        } else {
            Real::ratio(1, 100)
        },
{
    match models.get(asset) {
        Some(g) => {
            let rets = store.log_returns(asset, "5m");
            if rets.len() == 0 {
                Real::ratio(1, 100)
            } else {
                g.forecast_sigma(rets.as_slice())
            }
        },
        None => Real::ratio(1, 100),
    }
}

/// The predicted volatilities of outputs.
pub open spec fn vols_of(all: Seq<EnsembleOutput>) -> Seq<Real> {
    all.map_values(|o: EnsembleOutput| o.predicted_vol_4h)
}

/// The observation of the regime model: the edges of two assets, the mean
/// volatility, a fixed correlation, the exposure, no funding, and the number of
/// positions.
pub open spec fn observation_of(
    btc: EnsembleOutput,
    eth: EnsembleOutput,
    all: Seq<EnsembleOutput>,
    portfolio: PortfolioState,
) -> Seq<Real> {
    let five = Real::whole(5);
    let leverage = if portfolio.nav < Real::ratio(1, 10_000_000_000) {
        Real::whole(0)
    } else {
        portfolio.gross() / portfolio.nav
    };
    seq![
        btc.directional_edge,
        eth.directional_edge,
        sum_of_seq(vols_of(all)) / Real::count(
            if all.len() == 0 {
                1
            } else {
                all.len() as usize
            },
        ),
        Real::ratio(7, 10),
        leverage / five,
        Real::whole(0),
        Real::count(portfolio.positions@.len() as usize) / five,
    ]
}

/// The observation of the regime model.
pub fn hmm_observation(
    btc: &EnsembleOutput,
    eth: &EnsembleOutput,
    all: &Vec<EnsembleOutput>,
    portfolio: &PortfolioState,
) -> (r: Vec<Real>)
    ensures
        r@ == observation_of(*btc, *eth, all@, *portfolio),
{
    let mut vols: Vec<Real> = Vec::new();
    let mut i: usize = 0;
    while i < all.len()
        invariant
            i <= all@.len(),
            vols@ =~= vols_of(all@).take(i as int),
        decreases all@.len() - i,
    {
        vols.push(all[i].predicted_vol_4h);
        i += 1;
    }
    assert(vols@ =~= vols_of(all@));
    let n: usize = if all.len() == 0 {
        1
    } else {
        all.len()
    };
    let vol_agg = sum(vols.as_slice()) / Real::count(n);
    let five = Real::whole(5);
    let exposure = portfolio.leverage_ratio() / five;
    let n_pos = Real::count(portfolio.n_open_positions()) / five;
    let v = vec![
        btc.directional_edge,
        eth.directional_edge,
        vol_agg,
        Real::ratio(7, 10),
        exposure,
        Real::whole(0),
        n_pos,
    ];
    assert(v@ =~= observation_of(*btc, *eth, all@, *portfolio));
    v
}

/// The estimators of one asset in live trading: filter, frequencies and order
/// arrivals.
#[derive(Debug)]
pub struct LivePipeline {
    pub kf: DualKalmanFilter,
    pub freq: FrequencyExtractor,
    pub fusion: BayesianFusion,
}

/// Least length of the frequency window, and its length unless set otherwise.
pub const WINDOW: usize = 64;

/// Settings of the estimators of one asset.
#[derive(Debug, Clone, Copy)]
pub struct PipelineSettings {
    /// Standard deviation of the noise of an observed price.
    pub sigma_obs: Real,
    /// Standard deviation of a step of each parameter of the filter.
    pub sigma_param_walk: Real,
    /// Length of the frequency window.
    pub window_bars: usize,
    /// Weight of the past in the evidence of a source.
    pub evidence_decay: Real,
    /// Least weight of a source.
    pub min_weight: Real,
}

/// The settings for bars of five minutes.
pub open spec fn default_pipeline() -> PipelineSettings {
    PipelineSettings {
        sigma_obs: Real::ratio(1, 1000),
        sigma_param_walk: Real::ratio(1, 100_000),
        window_bars: WINDOW,
        evidence_decay: Real::ratio(99, 100),
        min_weight: Real::ratio(5, 100),
    }
}

impl Default for PipelineSettings {
    fn default() -> (r: Self)
        ensures
            r == default_pipeline(),
    {
        Self {
            sigma_obs: Real::ratio(1, 1000),
            sigma_param_walk: Real::ratio(1, 100_000),
            window_bars: WINDOW,
            evidence_decay: Real::ratio(99, 100),
            min_weight: Real::ratio(5, 100),
        }
    }
}

impl LivePipeline {
    /// The window is well formed, and there are three sources.
    pub open spec fn wf(&self) -> bool {
        &&& self.freq.wf()
        &&& self.fusion.log_evidence_ema@.len() == 3
    }

    /// Estimators without prices, with the settings of bars of five minutes.
    pub fn new<M: Fn(Elementary) -> Real>(math: &M) -> (r: Self)
        requires
            is_function(*math),
        ensures
            r.is_fresh(oracle(*math), default_pipeline()),
    {
        Self::from_settings(&PipelineSettings::default(), math)
    }

    /// Estimators without prices.
    pub fn from_settings<M: Fn(Elementary) -> Real>(settings: &PipelineSettings, math: &M) -> (r:
        Self)
        requires
            is_function(*math),
            settings.window_bars >= WINDOW,
        ensures
            r.is_fresh(oracle(*math), *settings),
    {
        let mut fusion = BayesianFusion::new(3, settings.evidence_decay, settings.min_weight);
        fusion.register_source("dual_kalman");
        fusion.register_source("frequency");
        fusion.register_source("orderbook");
        assert(fusion.sources@ =~= seq!["dual_kalman", "frequency", "orderbook"]);
        Self {
            kf: DualKalmanFilter::new(settings.sigma_obs, settings.sigma_param_walk, math),
            freq: FrequencyExtractor::new(settings.window_bars),
            fusion,
        }
    }

    /// The estimators have the settings and have seen no prices.
    pub open spec fn is_fresh(&self, f: Oracle, settings: PipelineSettings) -> bool {
        &&& self.wf()
        &&& self.kf == fresh_filter(f, settings.sigma_obs, settings.sigma_param_walk)
        &&& self.freq.size() == settings.window_bars
        &&& self.freq.seen() == 0
        &&& self.freq.history() == Seq::new(settings.window_bars as nat, |i: int| Real::whole(0))
        &&& self.fusion.log_evidence_ema@ == Seq::new(3, |i: int| Real::whole(0))
        &&& self.fusion.evidence_decay == settings.evidence_decay
        &&& self.fusion.min_weight == settings.min_weight.clamp(
            Real::whole(0),
            Real::whole(1) / Real::count(3),
        )
        &&& self.fusion.sources@ == seq!["dual_kalman", "frequency", "orderbook"]
    }

    /// The signals after a price: that of the filter, that of the frequencies once
    /// the window is full, and that of the order arrivals where they are modelled.
    pub open spec fn signals_after(
        &self,
        f: Oracle,
        price: Real,
        hawkes: Option<HawkesProcess>,
    ) -> Seq<Option<SignalOutput>> {
        let post = self.kf.updated(f, price).summary(f);
        let shares = band_shares(f, self.freq.history().drop_first().push(price));
        seq![
            Some(kalman_output(f, post)),
            if self.freq.seen() + 1 >= self.freq.size() {
                Some(
                    frequency_output(
                        f,
                        entropy_of(f, shares),
                        noise_ratio_of(shares),
                        post.velocity,
                    ),
                )
            } else {
                None
            },
            match hawkes {
                Some(h) => Some(orderbook_output(f, h)),
                None => None,
            },
        ]
    }

    /// The estimators `after` are these after a price: the filter updated, the
    /// window moved on, and the evidence of the signals taken in.
    pub open spec fn observed(
        &self,
        after: LivePipeline,
        f: Oracle,
        price: Real,
        hawkes: Option<HawkesProcess>,
    ) -> bool {
        &&& after.wf()
        &&& after.kf == self.kf.updated(f, price)
        &&& after.freq.history() == self.freq.history().drop_first().push(price)
        &&& after.freq.size() == self.freq.size()
        &&& after.freq.seen() == if self.freq.seen() < self.freq.size() {
            self.freq.seen() + 1
        } else {
            self.freq.size()
        }
        &&& after.fusion.log_evidence_ema@ == ema_after(
            self.fusion.log_evidence_ema@,
            self.signals_after(f, price, hawkes),
            self.fusion.evidence_decay,
        )
        &&& after.fusion.evidence_decay == self.fusion.evidence_decay
        &&& after.fusion.min_weight == self.fusion.min_weight
        &&& after.fusion.sources == self.fusion.sources
    }

    /// Takes a price and gives the posterior and the fused distribution.
    pub fn observe<M: Fn(Elementary) -> Real>(
        &mut self,
        obs: &Observation,
        hawkes: Option<HawkesProcess>,
        math: &M,
    ) -> (r: Option<(StatePosterior, EnsembleDistribution)>)
        requires
            old(self).wf(),
            is_function(*math),
        ensures
            old(self).observed(*final(self), oracle(*math), obs.price, hawkes),
            r matches Some(x) && x.0 == final(self).kf.summary(oracle(*math)) && is_mixture(
                x.1,
                mixture(
                    oracle(*math),
                    final(self).fusion.log_evidence_ema@,
                    old(self).fusion.min_weight,
                    old(self).signals_after(oracle(*math), obs.price, hawkes),
                ),
                old(self).fusion.sources@,
            ),
    {
        let ghost before = *self;
        let posterior = match self.kf.update(obs, math) {
            Ok(p) => p,
            Err(_) => {
                return None;
            },
        };
        let ks = kalman_signal(&posterior, math);
        let fs = match self.freq.update(obs.price, math) {
            Some(x) => Some(frequency_signal(&x, posterior.velocity, math)),
            None => None,
        };
        let os = match hawkes {
            Some(h) => Some(orderbook_signal(&h, math)),
            None => None,
        };
        let signals = [Some(ks), fs, os];
        let fused = self.fusion.fuse(signals.as_slice(), math);
        proof {
            assert(signals@ =~= before.signals_after(oracle(*math), obs.price, hawkes));
            assert(signals@[0] is Some);
        }
        match fused {
            Some(d) => Some((posterior, d)),
            None => None,
        }
    }
}

/// What the optimizer is given of an asset: its fused distribution, the fraction
/// held, the estimated level as entry price, and the spread as transaction cost,
/// or the given one without a book.
pub fn asset_distribution(
    asset: &Asset,
    ensemble: EnsembleDistribution,
    posterior: &StatePosterior,
    portfolio: &PortfolioState,
    store: &DataStore,
    default_tc_bps: Real,
) -> (r: AssetDistribution)
    ensures
        r.asset@ == asset.symbol@,
        r.ensemble == ensemble,
        r.current_fraction == held_fraction(*portfolio, asset.symbol@),
        r.entry_price == posterior.level,
        r.estimated_tc_bps == cost_of(*store, asset.symbol@, default_tc_bps),
{
    let tc = match store.books.get(asset.symbol.as_str()) {
        Some(book) => match book.spread_bps() {
            Some(s) => s,
            None => default_tc_bps,
        },
        None => default_tc_bps,
    };
    AssetDistribution {
        asset: asset.symbol.clone(),
        ensemble,
        current_fraction: current_fraction_of(portfolio, asset.symbol.as_str()),
        entry_price: posterior.level,
        estimated_tc_bps: tc,
    }
}

/// The arrival model held for an asset.
pub open spec fn held_model(
    models: Map<Seq<char>, HawkesProcess>,
    asset: Seq<char>,
) -> Option<HawkesProcess> {
    if models.contains_key(asset) {
        Some(models[asset])
    } else {
        None
    }
}

/// Takes the latest five-minute close of an asset, if there is one, and gives what
/// the optimizer is given of it.
pub fn latest_distribution<M: Fn(Elementary) -> Real>(
    asset: &Asset,
    store: &DataStore,
    pipeline: &mut LivePipeline,
    models: &Table<HawkesProcess>,
    portfolio: &PortfolioState,
    default_tc_bps: Real,
    math: &M,
) -> (r: Option<AssetDistribution>)
    requires
        old(pipeline).wf(),
        is_function(*math),
    ensures
        final(pipeline).wf(),
        ({
            let f = oracle(*math);
            let bars = or_empty(store.bars_at(asset.symbol@, "5m"@));
            let price = bars.last().close;
            let signals = old(pipeline).signals_after(
                f,
                price,
                held_model(models@, asset.symbol@),
            );
            if bars.len() == 0 {
                r is None && *final(pipeline) == *old(pipeline)
            } else {
                &&& old(pipeline).observed(
                    *final(pipeline),
                    f,
                    price,
                    held_model(models@, asset.symbol@),
                )
                &&& r matches Some(d) && {
                    &&& d.asset@ == asset.symbol@
                    &&& is_mixture(
                        d.ensemble,
                        mixture(
                            f,
                            final(pipeline).fusion.log_evidence_ema@,
                            old(pipeline).fusion.min_weight,
                            signals,
                        ),
                        old(pipeline).fusion.sources@,
                    )
                    &&& d.current_fraction == held_fraction(*portfolio, asset.symbol@)
                    &&& d.entry_price == final(pipeline).kf.summary(f).level
                    &&& d.estimated_tc_bps == cost_of(*store, asset.symbol@, default_tc_bps)
                }
            }
        }),
{
    let sym = asset.symbol.as_str();
    let bars = store.bars_for(sym, "5m")?;
    if bars.len() == 0 {
        return None;
    }
    let bar = &bars[bars.len() - 1];
    let obs = Observation { price: bar.close, volume: bar.volume, timestamp_ms: bar.open_time };
    let hawkes = match models.get(sym) {
        Some(h) => Some(*h),
        None => None,
    };
    match pipeline.observe(&obs, hawkes, math) {
        Some((posterior, ensemble)) => Some(
            asset_distribution(asset, ensemble, &posterior, portfolio, store, default_tc_bps),
        ),
        None => None,
    }
}

/// The spread of an asset's book, or a default.
pub open spec fn cost_of(store: DataStore, asset: Seq<char>, default_tc_bps: Real) -> Real {
    if store.books@.contains_key(asset) {
        match store.books@[asset].spread() {
            Some(s) => s,
            None => default_tc_bps,
        }
    } else {
        default_tc_bps
    }
}

} // verus!
