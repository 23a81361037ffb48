//! Open positions, portfolio state and pre-trade checks.
use vstd::prelude::*;

use crate::data::table::Table;
use crate::num::series::{sum, sum_of_seq};
use crate::num::Real;
use crate::risk::limits::RiskLimits;
use crate::signals::generator::{Direction, TradeSignal};
use crate::text::{same_text, spec_text_less, text_less};

verus! {

/// A single open position.
#[derive(Debug, Clone)]
pub struct Position {
    pub asset: String,
    pub direction: Direction,
    pub entry_price: Real,
    pub size_usd: Real,
    pub leverage: Real,
    pub stop_loss: Real,
    pub take_profit: Real,
    pub open_time_ms: u64,
    pub oid: Option<u64>,
    pub sl_oid: Option<u64>,
    pub tp_oid: Option<u64>,
}

impl Position {
    /// The profit at a price; zero where the entry price is.
    pub open spec fn pnl_at(&self, current_price: Real) -> Real {
        if self.entry_price < Real::ratio(1, 10_000_000_000) {
            Real::whole(0)
        } else {
            self.size_usd * match self.direction {
                Direction::Long => (current_price - self.entry_price) / self.entry_price,
                Direction::Short => (self.entry_price - current_price) / self.entry_price,
            }
        }
    }

    /// The profit at a price; zero where the entry price is.
    pub fn unrealised_pnl(&self, current_price: Real) -> (r: Real)
        ensures
            r == self.pnl_at(current_price),
    {
        if self.entry_price < Real::ratio(1, 10_000_000_000) {
            return Real::whole(0);
        }
        let ret = match self.direction {
            Direction::Long => (current_price - self.entry_price) / self.entry_price,
            Direction::Short => (self.entry_price - current_price) / self.entry_price,
        };
        self.size_usd * ret
    }

    /// The position has been open for longer than `max_duration_ms`.
    pub fn is_stale(&self, now_ms: u64, max_duration_ms: u64) -> (r: bool)
        ensures
            r == (now_ms - self.open_time_ms > max_duration_ms),
    {
        now_ms.saturating_sub(self.open_time_ms) > max_duration_ms
    }

    /// The notional with leverage.
    pub open spec fn spec_gross(&self) -> Real {
        self.size_usd * self.leverage
    }

    /// The notional with leverage, negative for a short position.
    pub open spec fn spec_net(&self) -> Real {
        self.size_usd * self.leverage * if self.direction == Direction::Long {
            Real::whole(1)
        } else {
            Real::whole(1).neg()
        }
    }
}

/// Live portfolio state. At most one position is held per asset.
#[derive(Debug)]
pub struct PortfolioState {
    pub nav: Real,
    pub peak_nav: Real,
    pub positions: Vec<Position>,
    pub total_realised_pnl: Real,
}

/// The first position in an asset, or the end of the list.
pub open spec fn place_of(positions: Seq<Position>, asset: Seq<char>) -> int
    decreases positions.len(),
{
    if positions.len() == 0 || positions[0].asset@ == asset {
        0
    } else {
        1 + place_of(positions.drop_first(), asset)
    }
}

pub(crate) proof fn lemma_place_of(positions: Seq<Position>, asset: Seq<char>, p: int)
    requires
        0 <= p <= positions.len(),
        forall|j: int| 0 <= j < p ==> #[trigger] positions[j].asset@ != asset,
        p < positions.len() ==> positions[p].asset@ == asset,
    ensures
        place_of(positions, asset) == p,
    decreases p,
{
    if p > 0 {
        assert(positions[0].asset@ != asset);
        let t = positions.drop_first();
        assert forall|j: int| 0 <= j < p - 1 implies #[trigger] t[j].asset@ != asset by {
            assert(positions[j + 1].asset@ != asset);
        }
        lemma_place_of(t, asset, p - 1);
    }
}

proof fn lemma_place_bounds(positions: Seq<Position>, asset: Seq<char>)
    ensures
        0 <= place_of(positions, asset) <= positions.len(),
        forall|j: int|
            0 <= j < place_of(positions, asset) ==> #[trigger] positions[j].asset@ != asset,
        place_of(positions, asset) < positions.len() ==> positions[place_of(
            positions,
            asset,
        )].asset@ == asset,
    decreases positions.len(),
{
    if positions.len() > 0 && positions[0].asset@ != asset {
        let t = positions.drop_first();
        lemma_place_bounds(t, asset);
        assert forall|j: int| 0 <= j < place_of(positions, asset) implies #[trigger] positions[j].asset@
            != asset by {
            if j > 0 {
                assert(t[j - 1] == positions[j]);
            }
        }
    }
}

/// The positions with `pos`, in place of the first one in the same asset.
pub open spec fn with_position(positions: Seq<Position>, pos: Position) -> Seq<Position> {
    let p = place_of(positions, pos.asset@);
    if p < positions.len() {
        positions.update(p, pos)
    } else {
        positions.push(pos)
    }
}

/// The positions without the first one in an asset.
pub open spec fn without_position(positions: Seq<Position>, asset: Seq<char>) -> Seq<Position> {
    let p = place_of(positions, asset);
    if p < positions.len() {
        positions.remove(p)
    } else {
        positions
    }
}

/// Opening a position in an asset that is not held and closing it again leaves the
/// positions as they were.
pub proof fn closing_undoes_opening(positions: Seq<Position>, pos: Position)
    requires
        forall|i: int| 0 <= i < positions.len() ==> #[trigger] positions[i].asset@ != pos.asset@,
    ensures
        without_position(with_position(positions, pos), pos.asset@) == positions,
{
    lemma_place_of(positions, pos.asset@, positions.len() as int);
    let after = positions.push(pos);
    lemma_place_of(after, pos.asset@, positions.len() as int);
    assert(after.remove(positions.len() as int) =~= positions);
}

impl PortfolioState {
    /// A portfolio without positions.
    pub fn new(initial_nav: Real) -> (r: Self)
        ensures
            r.nav == initial_nav,
            r.peak_nav == initial_nav,
            r.positions@.len() == 0,
            r.total_realised_pnl == Real::whole(0),
            r.wf(),
    {
        Self {
            nav: initial_nav,
            peak_nav: initial_nav,
            positions: Vec::new(),
            total_realised_pnl: Real::whole(0),
        }
    }

    /// No asset has two positions.
    pub open spec fn wf(&self) -> bool {
        forall|i: int, j: int|
            0 <= i < j < self.positions@.len() ==> #[trigger] self.positions@[i].asset@
                != #[trigger] self.positions@[j].asset@
    }

    /// The position in an asset, where there is one.
    pub open spec fn position_in(&self, asset: Seq<char>) -> Option<Position> {
        let p = place_of(self.positions@, asset);
        if 0 <= p < self.positions@.len() {
            Some(self.positions@[p])
        } else {
            None
        }
    }

    fn find(&self, asset: &str) -> (r: usize)
        ensures
            r == place_of(self.positions@, asset@),
            r <= self.positions@.len(),
            r < self.positions@.len() ==> self.positions@[r as int].asset@ == asset@,
    {
        let mut i: usize = 0;
        while i < self.positions.len()
            invariant
                i <= self.positions@.len(),
                forall|j: int| 0 <= j < i ==> #[trigger] self.positions@[j].asset@ != asset@,
            decreases self.positions@.len() - i,
        {
            if same_text(self.positions[i].asset.as_str(), asset) {
                proof {
                    lemma_place_of(self.positions@, asset@, i as int);
                }
                return i;
            }
            i += 1;
        }
        proof {
            lemma_place_of(self.positions@, asset@, i as int);
        }
        i
    }

    /// The position in an asset, where there is one.
    pub fn position(&self, asset: &str) -> (r: Option<&Position>)
        ensures
            r == match self.position_in(asset@) {
                Some(p) => Some(&p),
                None => None,
            },
    {
        let i: usize = self.find(asset);
        if i < self.positions.len() {
            Some(&self.positions[i])
        } else {
            None
        }
    }

    /// Holds `pos`, in place of any position in the same asset.
    pub fn open_position(&mut self, pos: Position)
        ensures
            final(self).positions@ == with_position(old(self).positions@, pos),
            final(self).position_in(pos.asset@) == Some(pos),
            forall|a: Seq<char>|
                a != pos.asset@ ==> #[trigger] final(self).position_in(a) == old(self).position_in(a),
            old(self).wf() ==> final(self).wf(),
            final(self).nav == old(self).nav,
            final(self).peak_nav == old(self).peak_nav,
            final(self).total_realised_pnl == old(self).total_realised_pnl,
    {
        let i: usize = self.find(pos.asset.as_str());
        let ghost before = self.positions@;
        proof {
            lemma_place_bounds(before, pos.asset@);
        }
        if i < self.positions.len() {
            self.positions.set(i, pos);
        } else {
            self.positions.push(pos);
        }
        proof {
            let after = self.positions@;
            assert forall|j: int| 0 <= j < i implies #[trigger] after[j].asset@ != pos.asset@ by {
                assert(before[j].asset@ != pos.asset@);
            }
            lemma_place_of(after, pos.asset@, i as int);
            assert forall|a: Seq<char>| a != pos.asset@ implies #[trigger] self.position_in(a)
                == old(self).position_in(a) by {
                let p = place_of(before, a);
                lemma_place_bounds(before, a);
                assert forall|j: int| 0 <= j < p implies #[trigger] after[j].asset@ != a by {
                    assert(before[j].asset@ != a);
                }
                if p < before.len() {
                    lemma_place_of(after, a, p);
                } else {
                    assert forall|j: int| 0 <= j < after.len() implies #[trigger] after[j].asset@
                        != a by {
                        if j < before.len() {
                            assert(before[j].asset@ != a);
                        }
                    }
                    lemma_place_of(after, a, after.len() as int);
                }
            }
            if old(self).wf() {
                assert forall|x: int, y: int| 0 <= x < y < after.len() implies #[trigger] after[x].asset@
                    != #[trigger] after[y].asset@ by {
                    if y < before.len() {
                        assert(before[x].asset@ != before[y].asset@);
                    } else {
                        assert(before[x].asset@ != pos.asset@);
                    }
                }
            }
        }
    }

    /// Takes the position in an asset out of the portfolio.
    pub fn close_position(&mut self, asset: &str) -> (r: Option<Position>)
        ensures
            r == old(self).position_in(asset@),
            final(self).positions@ == without_position(old(self).positions@, asset@),
            old(self).wf() ==> final(self).wf() && final(self).position_in(asset@) is None,
            final(self).nav == old(self).nav,
            final(self).peak_nav == old(self).peak_nav,
            final(self).total_realised_pnl == old(self).total_realised_pnl,
    {
        let i: usize = self.find(asset);
        let ghost before = self.positions@;
        proof {
            lemma_place_bounds(before, asset@);
        }
        let r = if i < self.positions.len() {
            Some(self.positions.remove(i))
        } else {
            None
        };
        proof {
            let after = self.positions@;
            if old(self).wf() {
                assert forall|x: int, y: int| 0 <= x < y < after.len() implies #[trigger] after[x].asset@
                    != #[trigger] after[y].asset@ by {
                    let u = if x < i {
                        x
                    } else {
                        x + 1
                    };
                    let v = if y < i {
                        y
                    } else {
                        y + 1
                    };
                    if i < before.len() {
                        assert(after[x] == before[u] && after[y] == before[v]);
                        assert(before[u].asset@ != before[v].asset@);
                    } else {
                        assert(before[x].asset@ != before[y].asset@);
                    }
                }
                assert forall|j: int| 0 <= j < after.len() implies #[trigger] after[j].asset@
                    != asset@ by {
                    if i < before.len() {
                        if j < i {
                            assert(after[j] == before[j]);
                        } else {
                            assert(after[j] == before[j + 1]);
                            assert(before[i as int].asset@ != before[j + 1].asset@);
                        }
                    } else {
                        assert(before[j].asset@ != asset@);
                    }
                }
                lemma_place_of(after, asset@, after.len() as int);
            }
        }
        r
    }

    pub fn n_open_positions(&self) -> (r: usize)
        ensures
            r == self.positions@.len(),
    {
        self.positions.len()
    }

    /// The notional of all positions with leverage.
    pub open spec fn gross(&self) -> Real {
        sum_of_seq(self.positions@.map_values(|p: Position| p.spec_gross()))
    }

    /// The notional of all positions with leverage, short ones negative.
    pub open spec fn net(&self) -> Real {
        sum_of_seq(self.positions@.map_values(|p: Position| p.spec_net()))
    }

    /// The notional of all positions with leverage.
    pub fn gross_exposure(&self) -> (r: Real)
        ensures
            r == self.gross(),
    {
        let mut v: Vec<Real> = Vec::new();
        let ghost all = self.positions@.map_values(|p: Position| p.spec_gross());
        let mut i: usize = 0;
        while i < self.positions.len()
            invariant
                i <= self.positions@.len(),
                all == self.positions@.map_values(|p: Position| p.spec_gross()),
                v@ =~= all.take(i as int),
            decreases self.positions@.len() - i,
        {
            v.push(self.positions[i].size_usd * self.positions[i].leverage);
            i += 1;
        }
        assert(v@ =~= all);
        sum(v.as_slice())
    }

    /// The notional of all positions with leverage, short ones negative.
    pub fn net_exposure(&self) -> (r: Real)
        ensures
            r == self.net(),
    {
        let mut v: Vec<Real> = Vec::new();
        let ghost all = self.positions@.map_values(|p: Position| p.spec_net());
        let mut i: usize = 0;
        while i < self.positions.len()
            invariant
                i <= self.positions@.len(),
                all == self.positions@.map_values(|p: Position| p.spec_net()),
                v@ =~= all.take(i as int),
            decreases self.positions@.len() - i,
        {
            let p = &self.positions[i];
            let sign = if p.direction.is_long() {
                Real::whole(1)
            } else {
                Real::whole(1).neg()
            };
            v.push(p.size_usd * p.leverage * sign);
            i += 1;
        }
        assert(v@ =~= all);
        sum(v.as_slice())
    }

    /// Gross exposure over net asset value; zero without net asset value.
    pub open spec fn leverage(&self) -> Real {
        if self.nav < Real::ratio(1, 10_000_000_000) {
            Real::whole(0)
        } else {
            self.gross() / self.nav
        }
    }

    /// Gross exposure over net asset value; zero without net asset value.
    pub fn leverage_ratio(&self) -> (r: Real)
        ensures
            r == self.leverage(),
    {
        if self.nav < Real::ratio(1, 10_000_000_000) {
            return Real::whole(0);
        }
        self.gross_exposure() / self.nav
    }

    /// The loss from the peak as a fraction of it; zero without a peak.
    pub open spec fn spec_drawdown(&self) -> Real {
        if self.peak_nav < Real::ratio(1, 10_000_000_000) {
            Real::whole(0)
        } else {
            (self.peak_nav - self.nav) / self.peak_nav
        }
    }

    /// The loss from the peak as a fraction of it; zero without a peak.
    #[verifier::when_used_as_spec(spec_drawdown)]
    pub fn drawdown(&self) -> (r: Real)
        ensures
            r == self.spec_drawdown(),
    {
        if self.peak_nav < Real::ratio(1, 10_000_000_000) {
            return Real::whole(0);
        }
        (self.peak_nav - self.nav) / self.peak_nav
    }

    /// Sets the net asset value, and raises the peak to it where it is exceeded.
    pub fn update_nav(&mut self, new_nav: Real)
        ensures
            final(self).nav == new_nav,
            final(self).peak_nav == if new_nav > old(self).peak_nav {
                new_nav
            } else {
                old(self).peak_nav
            },
            final(self).positions == old(self).positions,
            final(self).total_realised_pnl == old(self).total_realised_pnl,
            !new_nav.nan() && !old(self).peak_nav.nan() ==> final(self).nav
                <= final(self).peak_nav && old(self).peak_nav <= final(self).peak_nav,
    {
        self.nav = new_nav;
        if new_nav > self.peak_nav {
            self.peak_nav = new_nav;
        }
    }

    /// The correlation between two assets that a table of pairs gives, under the
    /// name of the pair in alphabetic order; one half where it gives none.
    pub fn position_correlation(
        &self,
        asset1: &str,
        asset2: &str,
        corr_matrix: Option<&Table<Real>>,
    ) -> (r: Real)
        ensures
            r == pair_correlation(asset1@, asset2@, corr_matrix),
    {
        if let Some(cm) = corr_matrix {
            let (first, second) = if text_less(asset1, asset2) {
                (asset1, asset2)
            } else {
                (asset2, asset1)
            };
            let mut key = first.to_owned();
            key.append("/");
            key.append(second);
            if let Some(c) = cm.get(key.as_str()) {
                return *c;
            }
        }
        Real::ratio(1, 2)
    }

    pub fn has_position(&self, asset: &str) -> (r: bool)
        ensures
            r == self.position_in(asset@) is Some,
    {
        let i: usize = self.find(asset);
        i < self.positions.len()
    }
}

/// The name of a pair of assets.
pub open spec fn pair_name(asset1: Seq<char>, asset2: Seq<char>) -> Seq<char> {
    if spec_text_less(asset1, asset2) {
        asset1 + "/"@ + asset2
    } else {
        asset2 + "/"@ + asset1
    }
}

/// The correlation that a table gives for a pair; one half where it gives none.
pub open spec fn pair_correlation(
    asset1: Seq<char>,
    asset2: Seq<char>,
    corr_matrix: Option<&Table<Real>>,
) -> Real {
    let name = pair_name(asset1, asset2);
    match corr_matrix {
        Some(cm) => if cm@.contains_key(name) {
            cm@[name]
        } else {
            Real::ratio(1, 2)
        },
        None => Real::ratio(1, 2),
    }
}

/// Why a signal was rejected, with the numbers to show.
#[derive(Debug)]
pub enum Rejection {
    Drawdown { percent: Real, limit_percent: Real },
    Leverage { new_leverage: Real, limit: Real },
    AssetWeight { asset: String, limit_percent: Real },
    Correlation { asset: String, percent: Real, other: String, limit_percent: Real },
    RiskReward { risk_reward: Real, minimum: Real },
    ConcurrentPositions { maximum: usize },
    Confidence { confidence: Real, minimum: Real },
}

/// Pre-trade risk checks.
pub struct RiskManager<'a> {
    pub limits: &'a RiskLimits,
}

/// The gross leverage that the portfolio would have with the signal's position.
pub open spec fn leverage_with(signal: TradeSignal, portfolio: PortfolioState) -> Real {
    (portfolio.gross() + signal.position_size_usd * signal.leverage) / portfolio.nav.max(
        Real::whole(1),
    )
}

/// The weight that the signal's asset would have in the portfolio.
pub open spec fn weight_with(signal: TradeSignal, portfolio: PortfolioState) -> Real {
    let held = match portfolio.position_in(signal.asset@) {
        Some(p) => p.size_usd,
        None => Real::whole(0),
    };
    (signal.position_size_usd + held) / portfolio.nav.max(Real::whole(1))
}

/// The first of the positions from `from` on whose correlation with an asset
/// exceeds the limit; the end of the list if none.
pub open spec fn first_correlated(
    positions: Seq<Position>,
    from: nat,
    asset: Seq<char>,
    corr_matrix: Option<&Table<Real>>,
    limit: Real,
) -> nat
    decreases positions.len() - from,
{
    if from >= positions.len() || pair_correlation(
        asset,
        positions[from as int].asset@,
        corr_matrix,
    ) > limit {
        from
    } else {
        first_correlated(positions, from + 1, asset, corr_matrix, limit)
    }
}

/// The verdict of the pre-trade checks: the first that fails rejects the signal.
pub open spec fn verdict(
    limits: RiskLimits,
    signal: TradeSignal,
    portfolio: PortfolioState,
    corr_matrix: Option<&Table<Real>>,
) -> Result<(), Rejection> {
    let c = first_correlated(
        portfolio.positions@,
        0,
        signal.asset@,
        corr_matrix,
        limits.max_pairwise_correlation,
    ) as int;
    if portfolio.drawdown() > limits.max_daily_drawdown {
        Err(
            Rejection::Drawdown {
                percent: portfolio.drawdown() * Real::whole(100),
                limit_percent: limits.max_daily_drawdown * Real::whole(100),
            },
        )
    } else if leverage_with(signal, portfolio) > limits.max_gross_exposure {
        Err(
            Rejection::Leverage {
                new_leverage: leverage_with(signal, portfolio),
                limit: limits.max_gross_exposure,
            },
        )
    } else if weight_with(signal, portfolio) > limits.max_single_asset_weight {
        Err(
            Rejection::AssetWeight {
                asset: signal.asset,
                limit_percent: limits.max_single_asset_weight * Real::whole(100),
            },
        )
    } else if c < portfolio.positions@.len() {
        Err(
            Rejection::Correlation {
                asset: signal.asset,
                percent: pair_correlation(
                    signal.asset@,
                    portfolio.positions@[c].asset@,
                    corr_matrix,
                ) * Real::whole(100),
                other: portfolio.positions@[c].asset,
                limit_percent: limits.max_pairwise_correlation * Real::whole(100),
            },
        )
    } else if signal.risk_reward() < limits.min_risk_reward {
        Err(
            Rejection::RiskReward {
                risk_reward: signal.risk_reward(),
                minimum: limits.min_risk_reward,
            },
        )
    } else if portfolio.positions@.len() >= limits.max_concurrent_positions {
        Err(Rejection::ConcurrentPositions { maximum: limits.max_concurrent_positions })
    } else if signal.signal_confidence < limits.min_signal_confidence {
        Err(
            Rejection::Confidence {
                confidence: signal.signal_confidence,
                minimum: limits.min_signal_confidence,
            },
        )
    } else {
        Ok(())
    }
}

proof fn lemma_first_correlated(
    positions: Seq<Position>,
    from: nat,
    asset: Seq<char>,
    corr_matrix: Option<&Table<Real>>,
    limit: Real,
)
    requires
        from <= positions.len(),
    ensures
        first_correlated(positions, from, asset, corr_matrix, limit) <= positions.len(),
        forall|i: int|
            from <= i < first_correlated(positions, from, asset, corr_matrix, limit) ==> !(
            pair_correlation(asset, #[trigger] positions[i].asset@, corr_matrix) > limit),
    decreases positions.len() - from,
{
    if from < positions.len() && !(pair_correlation(
        asset,
        positions[from as int].asset@,
        corr_matrix,
    ) > limit) {
        lemma_first_correlated(positions, from + 1, asset, corr_matrix, limit);
    }
}

/// An accepted signal keeps every limit: drawdown, gross leverage, asset weight,
/// correlation with each open position, risk-reward, number of positions and
/// confidence.
pub proof fn accepted_signal_keeps_limits(
    limits: RiskLimits,
    signal: TradeSignal,
    portfolio: PortfolioState,
    corr_matrix: Option<&Table<Real>>,
)
    requires
        verdict(limits, signal, portfolio, corr_matrix) is Ok,
    ensures
        !(portfolio.drawdown() > limits.max_daily_drawdown),
        !(leverage_with(signal, portfolio) > limits.max_gross_exposure),
        !(weight_with(signal, portfolio) > limits.max_single_asset_weight),
        forall|i: int|
            0 <= i < portfolio.positions@.len() ==> !(pair_correlation(
                signal.asset@,
                #[trigger] portfolio.positions@[i].asset@,
                corr_matrix,
            ) > limits.max_pairwise_correlation),
        !(signal.risk_reward() < limits.min_risk_reward),
        portfolio.positions@.len() + 1 <= limits.max_concurrent_positions,
        !(signal.signal_confidence < limits.min_signal_confidence),
{
    lemma_first_correlated(
        portfolio.positions@,
        0,
        signal.asset@,
        corr_matrix,
        limits.max_pairwise_correlation,
    );
}

/// Why a position is closed before its stop or target: it is held for too long,
/// or the price moved more than five percent against it.
pub open spec fn close_reason(
    pos: Position,
    now_ms: u64,
    current_price: Real,
    max_hold_ms: u64,
) -> Option<Seq<char>> {
    let moved = (current_price - pos.entry_price).abs() / pos.entry_price.max(
        Real::ratio(1, 10_000_000_000),
    );
    if now_ms - pos.open_time_ms > max_hold_ms {
        Some("time_stop"@)
    } else if moved > Real::ratio(5, 100) && pos.pnl_at(current_price) < Real::whole(0) {
        Some("vol_stop"@)
    } else {
        None
    }
}

impl<'a> RiskManager<'a> {
    pub fn new(limits: &'a RiskLimits) -> (r: Self)
        ensures
            r.limits == limits,
    {
        Self { limits }
    }

    /// Validates a signal before execution. `corr_matrix` holds rolling
    /// correlations per pair of assets.
    pub fn check_signal(
        &self,
        signal: &TradeSignal,
        portfolio: &PortfolioState,
        corr_matrix: Option<&Table<Real>>,
    ) -> (r: Result<(), Rejection>)
        ensures
            r == verdict(*self.limits, *signal, *portfolio, corr_matrix),
    {
        if portfolio.drawdown() > self.limits.max_daily_drawdown {
            return Err(
                Rejection::Drawdown {
                    percent: portfolio.drawdown() * Real::whole(100),
                    limit_percent: self.limits.max_daily_drawdown * Real::whole(100),
                },
            );
        }
        let nav = portfolio.nav.max(Real::whole(1));
        let new_leverage = (portfolio.gross_exposure() + signal.position_size_usd
            * signal.leverage) / nav;
        if new_leverage > self.limits.max_gross_exposure {
            return Err(
                Rejection::Leverage { new_leverage, limit: self.limits.max_gross_exposure },
            );
        }
        let held = match portfolio.position(signal.asset.as_str()) {
            Some(p) => p.size_usd,
            None => Real::whole(0),
        };
        let asset_notional = signal.position_size_usd + held;
        if asset_notional / nav > self.limits.max_single_asset_weight {
            return Err(
                Rejection::AssetWeight {
                    asset: signal.asset.clone(),
                    limit_percent: self.limits.max_single_asset_weight * Real::whole(100),
                },
            );
        }
        let mut i: usize = 0;
        while i < portfolio.positions.len()
            invariant
                i <= portfolio.positions@.len(),
                first_correlated(
                    portfolio.positions@,
                    0,
                    signal.asset@,
                    corr_matrix,
                    self.limits.max_pairwise_correlation,
                ) == first_correlated(
                    portfolio.positions@,
                    i as nat,
                    signal.asset@,
                    corr_matrix,
                    self.limits.max_pairwise_correlation,
                ),
                !(portfolio.drawdown() > self.limits.max_daily_drawdown),
                !(leverage_with(*signal, *portfolio) > self.limits.max_gross_exposure),
                !(weight_with(*signal, *portfolio) > self.limits.max_single_asset_weight),
            decreases portfolio.positions@.len() - i,
        {
            let corr = portfolio.position_correlation(
                signal.asset.as_str(),
                portfolio.positions[i].asset.as_str(),
                corr_matrix,
            );
            if corr > self.limits.max_pairwise_correlation {
                return Err(
                    Rejection::Correlation {
                        asset: signal.asset.clone(),
                        percent: corr * Real::whole(100),
                        other: portfolio.positions[i].asset.clone(),
                        limit_percent: self.limits.max_pairwise_correlation * Real::whole(100),
                    },
                );
            }
            i += 1;
        }
        let rr = signal.risk_reward();
        if rr < self.limits.min_risk_reward {
            return Err(
                Rejection::RiskReward { risk_reward: rr, minimum: self.limits.min_risk_reward },
            );
        }
        if portfolio.n_open_positions() >= self.limits.max_concurrent_positions {
            return Err(
                Rejection::ConcurrentPositions { maximum: self.limits.max_concurrent_positions },
            );
        }
        if signal.signal_confidence < self.limits.min_signal_confidence {
            return Err(
                Rejection::Confidence {
                    confidence: signal.signal_confidence,
                    minimum: self.limits.min_signal_confidence,
                },
            );
        }
        Ok(())
    }

    /// Why a position should be force-closed, if it should. `max_hold_ms` is the
    /// longest holding period.
    pub fn should_close(
        &self,
        pos: &Position,
        now_ms: u64,
        current_price: Real,
        max_hold_ms: u64,
    ) -> (r: Option<&'static str>)
        ensures
            r is Some <==> close_reason(*pos, now_ms, current_price, max_hold_ms) is Some,
            r matches Some(s) ==> close_reason(*pos, now_ms, current_price, max_hold_ms) == Some(
                s@,
            ),
    {
        if pos.is_stale(now_ms, max_hold_ms) {
            return Some("time_stop");
        }
        let move_pct = (current_price - pos.entry_price).abs() / pos.entry_price.max(
            Real::ratio(1, 10_000_000_000),
        );
        if move_pct > Real::ratio(5, 100) && pos.unrealised_pnl(current_price) < Real::whole(0) {
            return Some("vol_stop");
        }
        None
    }
}

} // verus!
