//! Feature rows: all signals of one asset at one bar, and their rolling store.
use vstd::prelude::*;

use crate::assets::Asset;
use crate::data::store::{or_empty, rolled, Bar, DataStore};
use crate::data::table::Table;
use crate::features::funding::{
    funding_of, no_funding, volatility_ratio, volatility_ratio_of, FundingFeatures,
};
use crate::features::kalman::KalmanFilter;
use crate::features::technical::{beta_of, correlation_of, rolling_beta, rolling_correlation};
use crate::num::series::{sum, sum_of_seq};
use crate::num::Real;
use crate::orderbook::features::{book_features, no_features, OrderBookFeatures};

verus! {

/// One feature row of one asset at one bar.
#[derive(Debug)]
pub struct FeatureRow {
    pub asset: String,
    pub timestamp_ms: u64,
    pub garch_vol: Real,
    pub kalman_level: Real,
    pub kalman_velocity: Real,
    /// Distance of the price from the level, as a fraction of it.
    pub kalman_level_dev: Real,
    pub spread_bps: Real,
    pub depth_ofi: Real,
    pub depth_ratio: Real,
    pub price_impact: Real,
    pub micro_price_dev: Real,
    pub trade_imbalance: Real,
    pub hawkes_cross_ratio: Real,
    pub funding_z: Real,
    pub funding_momentum: Real,
    pub vol_ratio: Real,
    pub premium_pct: Real,
    pub beta_to_btc: Real,
    pub idiosyncratic_ret: Real,
    pub ou_z_score: Real,
    pub corr_to_btc: Real,
}

/// Number of features of a row.
pub const N_FEATURES: usize = 18;

impl FeatureRow {
    /// The row as one vector.
    pub open spec fn vector(&self) -> Seq<Real> {
        seq![
            self.garch_vol,
            self.kalman_level_dev,
            self.kalman_velocity,
            self.spread_bps,
            self.depth_ofi,
            self.depth_ratio,
            self.price_impact,
            self.micro_price_dev,
            self.trade_imbalance,
            self.hawkes_cross_ratio,
            self.funding_z,
            self.funding_momentum,
            self.vol_ratio,
            self.premium_pct,
            self.beta_to_btc,
            self.idiosyncratic_ret,
            self.ou_z_score,
            self.corr_to_btc,
        ]
    }

    /// The row as one vector, in the order that models are trained on.
    pub fn to_feature_vec(&self) -> (r: Vec<Real>)
        ensures
            r@ == self.vector(),
            r@.len() == N_FEATURES,
    {
        let v = vec![
            self.garch_vol,
            self.kalman_level_dev,
            self.kalman_velocity,
            self.spread_bps,
            self.depth_ofi,
            self.depth_ratio,
            self.price_impact,
            self.micro_price_dev,
            self.trade_imbalance,
            self.hawkes_cross_ratio,
            self.funding_z,
            self.funding_momentum,
            self.vol_ratio,
            self.premium_pct,
            self.beta_to_btc,
            self.idiosyncratic_ret,
            self.ou_z_score,
            self.corr_to_btc,
        ];
        assert(v@ =~= self.vector());
        v
    }

    pub fn n_features() -> (r: usize)
        ensures
            r == N_FEATURES,
    {
        N_FEATURES
    }

    /// A copy of the row.
    pub fn copy(&self) -> (r: FeatureRow)
        ensures
            r == *self,
    {
        FeatureRow {
            asset: self.asset.clone(),
            timestamp_ms: self.timestamp_ms,
            garch_vol: self.garch_vol,
            kalman_level: self.kalman_level,
            kalman_velocity: self.kalman_velocity,
            kalman_level_dev: self.kalman_level_dev,
            spread_bps: self.spread_bps,
            depth_ofi: self.depth_ofi,
            depth_ratio: self.depth_ratio,
            price_impact: self.price_impact,
            micro_price_dev: self.micro_price_dev,
            trade_imbalance: self.trade_imbalance,
            hawkes_cross_ratio: self.hawkes_cross_ratio,
            funding_z: self.funding_z,
            funding_momentum: self.funding_momentum,
            vol_ratio: self.vol_ratio,
            premium_pct: self.premium_pct,
            beta_to_btc: self.beta_to_btc,
            idiosyncratic_ret: self.idiosyncratic_ret,
            ou_z_score: self.ou_z_score,
            corr_to_btc: self.corr_to_btc,
        }
    }
}

/// Rolling store of feature rows per asset.
#[derive(Debug)]
pub struct FeatureStore {
    pub rows: Table<Vec<FeatureRow>>,
    pub max_rows: usize,
}

/// The rows of all assets with one more, without its asset's oldest where there
/// would be too many.
pub open spec fn with_row(
    rows: Map<Seq<char>, Seq<FeatureRow>>,
    row: FeatureRow,
    max_rows: nat,
) -> Map<Seq<char>, Seq<FeatureRow>> {
    let held = if rows.contains_key(row.asset@) {
        rows[row.asset@]
    } else {
        Seq::empty()
    };
    rows.insert(row.asset@, rolled(held, row, max_rows))
}

impl FeatureStore {
    /// The rows of an asset, where there are any.
    pub open spec fn rows_at(&self, asset: Seq<char>) -> Option<Seq<FeatureRow>> {
        if self.rows@.contains_key(asset) {
            Some(self.rows@[asset]@)
        } else {
            None
        }
    }

    /// The rows of all assets.
    pub open spec fn all_rows(&self) -> Map<Seq<char>, Seq<FeatureRow>> {
        self.rows@.map_values(|v: Vec<FeatureRow>| v@)
    }

    /// No asset has more rows than are kept.
    pub open spec fn bounded(&self) -> bool {
        forall|a: Seq<char>| or_empty(#[trigger] self.rows_at(a)).len() <= self.max_rows
    }

    /// An empty store.
    pub fn new(max_rows: usize) -> (r: Self)
        ensures
            r.max_rows == max_rows,
            forall|a: Seq<char>| #[trigger] r.rows_at(a) is None,
            r.bounded(),
    {
        Self { rows: Table::new(), max_rows }
    }

    /// Adds a row to its asset's and forgets the oldest where there are too many.
    pub fn push(&mut self, row: FeatureRow)
        ensures
            final(self).rows_at(row.asset@) == Some(
                rolled(or_empty(old(self).rows_at(row.asset@)), row, old(self).max_rows as nat),
            ),
            forall|a: Seq<char>|
                a != row.asset@ ==> #[trigger] final(self).rows_at(a) == old(self).rows_at(a),
            final(self).all_rows() == with_row(
                old(self).all_rows(),
                row,
                old(self).max_rows as nat,
            ),
            final(self).max_rows == old(self).max_rows,
            old(self).bounded() ==> final(self).bounded(),
    {
        let max_rows: usize = self.max_rows;
        let name = row.asset.clone();
        let v = self.rows.entry(name.as_str(), Vec::new());
        let ghost before = v@;
        v.push(row);
        if v.len() > max_rows {
            let _ = v.remove(0);
        }
        assert(v@ =~= rolled(before, row, max_rows as nat));
        assert(before =~= or_empty(old(self).rows_at(row.asset@)));
        proof {
            assert(self.all_rows() =~= with_row(old(self).all_rows(), row, max_rows as nat));
            if old(self).bounded() {
                assert forall|a: Seq<char>| or_empty(#[trigger] self.rows_at(a)).len()
                    <= self.max_rows by {
                    assert(or_empty(old(self).rows_at(a)).len() <= max_rows);
                }
            }
        }
    }

    /// The latest row of an asset.
    pub fn latest(&self, asset: &str) -> (r: Option<&FeatureRow>)
        ensures
            r == {
                let rows = or_empty(self.rows_at(asset@));
                if rows.len() == 0 {
                    None
                } else {
                    Some(&rows.last())
                }
            },
    {
        let rows = self.rows.get(asset)?;
        if rows.len() == 0 {
            None
        } else {
            Some(&rows[rows.len() - 1])
        }
    }

    /// The rows of an asset as vectors.
    pub fn feature_matrix(&self, asset: &str) -> (r: Vec<Vec<Real>>)
        ensures
            r@.len() == or_empty(self.rows_at(asset@)).len(),
            forall|i: int|
                0 <= i < r@.len() ==> (#[trigger] r@[i])@ == or_empty(
                    self.rows_at(asset@),
                )[i].vector(),
    {
        match self.rows.get(asset) {
            Some(rows) => row_vectors(rows, rows.len()),
            None => Vec::new(),
        }
    }
}

/// The first `n` rows as vectors.
pub fn row_vectors(rows: &Vec<FeatureRow>, n: usize) -> (r: Vec<Vec<Real>>)
    requires
        n <= rows@.len(),
    ensures
        r@.len() == n,
        forall|i: int| 0 <= i < n ==> (#[trigger] r@[i])@ == rows@[i].vector(),
{
    let mut out: Vec<Vec<Real>> = Vec::new();
    let mut i: usize = 0;
    while i < n
        invariant
            i <= n <= rows@.len(),
            out@.len() == i,
            forall|j: int| 0 <= j < i ==> (#[trigger] out@[j])@ == rows@[j].vector(),
        decreases n - i,
    {
        out.push(rows[i].to_feature_vec());
        i += 1;
    }
    out
}

/// The traded values of the last bars, newest first, at most 24.
pub open spec fn recent_values(bars: Seq<Bar>) -> Seq<Real> {
    Seq::new(
        if bars.len() < 24 {
            bars.len()
        } else {
            24
        },
        |i: int| {
            let b = bars[bars.len() - 1 - i];
            b.volume * b.close
        },
    )
}

/// The value traded in 24 hours; a million where it is not known.
pub open spec fn day_volume(store: DataStore, asset: Seq<char>) -> Real {
    match store.bars_at(asset, "1h"@) {
        Some(bars) => sum_of_seq(recent_values(bars)),
        None => Real::whole(1_000_000),
    }
}

fn volume_24h_usd(store: &DataStore, asset: &str) -> (r: Real)
    ensures
        r == day_volume(*store, asset@),
{
    match store.bars_for(asset, "1h") {
        Some(bars) => {
            let mut v: Vec<Real> = Vec::new();
            let n: usize = bars.len();
            let mut i: usize = 0;
            while i < 24 && i < n
                invariant
                    i <= 24,
                    i <= n,
                    n == bars@.len(),
                    v@ =~= recent_values(bars@).take(i as int),
                decreases n - i,
            {
                let b = bars[n - 1 - i];
                v.push(b.volume * b.close);
                i += 1;
            }
            assert(v@ =~= recent_values(bars@));
            sum(v.as_slice())
        },
        None => Real::whole(1_000_000),
    }
}

/// The log returns of an asset and interval.
pub open spec fn returns_at(store: DataStore, asset: Seq<char>, interval: Seq<char>) -> Seq<Real> {
    or_empty(store.bars_at(asset, interval)).map_values(|b: Bar| b.log_return)
}

/// The last element, or zero.
pub open spec fn last_or_zero(s: Seq<Real>) -> Real {
    if s.len() == 0 {
        Real::whole(0)
    } else {
        s.last()
    }
}

/// There are enough bars for a feature row.
pub open spec fn has_row(store: DataStore, asset: Seq<char>) -> bool {
    store.bars_at(asset, "5m"@) is Some && store.bars_at(asset, "5m"@)->0.len() >= 30
}

/// The latest close of the five-minute bars.
pub open spec fn latest_close(store: DataStore, asset: Seq<char>) -> Real {
    or_empty(store.bars_at(asset, "5m"@)).last().close
}

/// The feature row of an asset, with the filter after the latest price.
pub open spec fn row_of(
    asset: Asset,
    store: DataStore,
    kalman: KalmanFilter,
    garch_vol: Real,
    ou_z: Real,
    btc_returns: Seq<Real>,
    hawkes_cross_ratio: Real,
    now_ms: u64,
) -> FeatureRow {
    let sym = asset.symbol@;
    let price = latest_close(store, sym);
    let (kl, kv) = (kalman.x.x, kalman.x.y);
    let ob = if store.books@.contains_key(sym) {
        book_features(store.books@[sym], day_volume(store, sym))
    } else {
        no_features()
    };
    let (mark, oracle_px) = if store.asset_ctx@.contains_key(sym) {
        (store.asset_ctx@[sym].mark_px, store.asset_ctx@[sym].oracle_px)
    } else {
        (Real::whole(0), Real::whole(0))
    };
    let ff = match store.funding_at(sym) {
        Some(h) => funding_of(h, mark, oracle_px),
        None => no_funding(),
    };
    let rets = returns_at(store, sym, "5m"@);
    let beta = match beta_of(rets, btc_returns, 60) {
        Some(b) => b,
        None => Real::whole(1),
    };
    FeatureRow {
        asset: asset.symbol,
        timestamp_ms: now_ms,
        garch_vol,
        kalman_level: kl,
        kalman_velocity: kv,
        kalman_level_dev: if kl.abs() > Real::ratio(1, 10_000_000_000) {
            (price - kl) / kl
        } else {
            Real::whole(0)
        },
        spread_bps: ob.spread_bps,
        depth_ofi: ob.depth_ofi,
        depth_ratio: ob.depth_ratio,
        price_impact: ob.price_impact_1pct,
        micro_price_dev: (ob.micro_price - ob.mid_price) / ob.mid_price.max(
            Real::ratio(1, 10_000_000_000),
        ),
        trade_imbalance: if store.trades@.contains_key(sym) {
            store.trades@[sym].buy_fraction()
        } else {
            Real::ratio(1, 2)
        },
        hawkes_cross_ratio,
        funding_z: ff.z_score,
        funding_momentum: ff.momentum,
        vol_ratio: volatility_ratio_of(
            returns_at(store, sym, "1h"@),
            returns_at(store, sym, "1d"@),
        ),
        premium_pct: ff.premium_pct,
        beta_to_btc: beta,
        idiosyncratic_ret: last_or_zero(rets) - beta * last_or_zero(btc_returns),
        ou_z_score: ou_z,
        corr_to_btc: match correlation_of(rets, btc_returns, 60) {
            Some(c) => c,
            None => Real::whole(0),
        },
    }
}

fn last_value(v: &[Real]) -> (r: Real)
    ensures
        r == last_or_zero(v@),
{
    if v.len() == 0 {
        Real::whole(0)
    } else {
        v[v.len() - 1]
    }
}

/// Assembles the feature row of an asset, once there are thirty bars of five
/// minutes. The filter then takes the latest price.
pub fn assemble_row(
    asset: &Asset,
    store: &DataStore,
    kalman: &mut KalmanFilter,
    garch_vol: Real,
    ou_z: Real,
    btc_returns: &[Real],
    hawkes_cross_ratio: Real,
    now_ms: u64,
) -> (r: Option<FeatureRow>)
    ensures
        *final(kalman) == if has_row(*store, asset.symbol@) {
            old(kalman).updated(latest_close(*store, asset.symbol@))
        } else {
            *old(kalman)
        },
        r == if has_row(*store, asset.symbol@) {
            Some(
                row_of(
                    *asset,
                    *store,
                    *final(kalman),
                    garch_vol,
                    ou_z,
                    btc_returns@,
                    hawkes_cross_ratio,
                    now_ms,
                ),
            )
        } else {
            None
        },
{
    let sym = asset.symbol.as_str();
    let bars_5m = store.bars_for(sym, "5m")?;
    let n: usize = bars_5m.len();
    if n < 30 {
        return None;
    }
    let price = bars_5m[n - 1].close;
    let returns_5m = store.log_returns(sym, "5m");
    let returns_1h = store.log_returns(sym, "1h");
    let returns_1d = store.log_returns(sym, "1d");
    let (kl, kv) = kalman.update(price);
    let kalman_level_dev = if kl.abs() > Real::ratio(1, 10_000_000_000) {
        (price - kl) / kl
    } else {
        Real::whole(0)
    };
    let ob = match store.books.get(sym) {
        Some(book) => OrderBookFeatures::compute(book, volume_24h_usd(store, sym)),
        None => OrderBookFeatures::default(),
    };
    let trade_imbalance = match store.trades.get(sym) {
        Some(t) => t.imbalance(),
        None => Real::ratio(1, 2),
    };
    let (mark_px, oracle_px) = match store.asset_ctx.get(sym) {
        Some(ctx) => (ctx.mark_px, ctx.oracle_px),
        None => (Real::whole(0), Real::whole(0)),
    };
    let ff = match store.funding.get(sym) {
        Some(hist) => FundingFeatures::compute(hist, mark_px, oracle_px),
        None => FundingFeatures::default(),
    };
    let vol_ratio = volatility_ratio(returns_1h.as_slice(), returns_1d.as_slice());
    let beta_to_btc = match rolling_beta(returns_5m.as_slice(), btc_returns, 60) {
        Some(b) => b,
        None => Real::whole(1),
    };
    let btc_last_ret = last_value(btc_returns);
    let asset_last_ret = last_value(returns_5m.as_slice());
    let idiosyncratic_ret = asset_last_ret - beta_to_btc * btc_last_ret;
    let corr_to_btc = match rolling_correlation(returns_5m.as_slice(), btc_returns, 60) {
        Some(c) => c,
        None => Real::whole(0),
    };
    Some(
        FeatureRow {
            asset: asset.symbol.clone(),
            timestamp_ms: now_ms,
            garch_vol,
            kalman_level: kl,
            kalman_velocity: kv,
            kalman_level_dev,
            spread_bps: ob.spread_bps,
            depth_ofi: ob.depth_ofi,
            depth_ratio: ob.depth_ratio,
            price_impact: ob.price_impact_1pct,
            micro_price_dev: (ob.micro_price - ob.mid_price) / ob.mid_price.max(
                Real::ratio(1, 10_000_000_000),
            ),
            trade_imbalance,
            hawkes_cross_ratio,
            funding_z: ff.z_score,
            funding_momentum: ff.momentum,
            vol_ratio,
            premium_pct: ff.premium_pct,
            beta_to_btc,
            idiosyncratic_ret,
            ou_z_score: ou_z,
            corr_to_btc,
        },
    )
}

} // verus!
