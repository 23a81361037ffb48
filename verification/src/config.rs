//! System configuration.
use vstd::prelude::*;

use crate::num::Real;

verus! {

/// System configuration.
#[derive(Debug, Clone)]
pub struct Config {
    pub private_key: String,
    pub wallet_address: String,
    pub use_testnet: bool,
    pub max_portfolio_leverage: Real,
    pub max_single_asset_weight: Real,
    pub daily_drawdown_limit: Real,
    pub target_daily_vol: Real,
    pub kelly_fraction: Real,
    pub hmm_states: usize,
    pub gb_n_estimators: usize,
    pub gb_learning_rate: Real,
    pub gb_max_depth: usize,
    pub history_days: u64,
    pub max_combo_assets: usize,
    pub max_combo_tc_bps: Real,
    pub enumerate_combo_subsets: bool,
    pub signal_interval_secs: u64,
}

/// A variable of the environment, read as a value.
#[derive(Debug, Clone, Copy)]
pub enum Setting<T> {
    /// The variable is not set.
    Missing,
    /// Its text is no such value.
    Malformed,
    /// It holds a value.
    Given(T),
}

/// The variables that make up a configuration.
#[derive(Debug)]
pub struct Settings {
    pub private_key: Option<String>,
    pub wallet_address: Option<String>,
    pub use_testnet: Setting<bool>,
    pub max_portfolio_leverage: Setting<Real>,
    pub max_single_asset_weight: Setting<Real>,
    pub daily_drawdown_limit: Setting<Real>,
    pub target_daily_vol: Setting<Real>,
    pub kelly_fraction: Setting<Real>,
    pub hmm_states: Setting<usize>,
    pub gb_n_estimators: Setting<usize>,
    pub gb_learning_rate: Setting<Real>,
    pub gb_max_depth: Setting<usize>,
    pub history_days: Setting<u64>,
    pub max_combo_assets: Setting<usize>,
    pub max_combo_tc_bps: Setting<Real>,
    pub enumerate_combo_subsets: Setting<bool>,
    pub signal_interval_secs: Setting<u64>,
}

/// Why there is no configuration.
#[derive(Debug, Clone, Copy, PartialEq, Eq, Structural)]
pub enum ConfigError {
    /// A required variable is not set.
    NotSet(Variable),
    /// A variable's text is no value of its type.
    Malformed(Variable),
}

/// A variable of the environment.
#[derive(Debug, Clone, Copy, PartialEq, Eq, Structural)]
pub enum Variable {
    PrivateKey,
    WalletAddress,
    MaxPortfolioLeverage,
    MaxSingleAssetWeight,
    DailyDrawdownLimit,
    TargetDailyVol,
    KellyFraction,
    HmmStates,
    GbNEstimators,
    GbLearningRate,
    GbMaxDepth,
    HistoryDays,
    MaxComboAssets,
    MaxComboTcBps,
    EnumerateComboSubsets,
    SignalIntervalSecs,
}

/// The value of a variable, or a default where it is not set.
pub open spec fn value_of<T>(s: Setting<T>, default: T, name: Variable) -> Result<T, ConfigError> {
    match s {
        Setting::Missing => Ok(default),
        Setting::Malformed => Err(ConfigError::Malformed(name)),
        Setting::Given(v) => Ok(v),
    }
}

fn value<T>(s: Setting<T>, default: T, name: Variable) -> (r: Result<T, ConfigError>)
    ensures
        r == value_of(s, default, name),
{
    match s {
        Setting::Missing => Ok(default),
        Setting::Malformed => Err(ConfigError::Malformed(name)),
        Setting::Given(v) => Ok(v),
    }
}

/// The first failure among the required and the malformed variables.
pub open spec fn first_failure(s: Settings) -> Option<ConfigError> {
    if s.private_key is None {
        Some(ConfigError::NotSet(Variable::PrivateKey))
    } else if s.wallet_address is None {
        Some(ConfigError::NotSet(Variable::WalletAddress))
    } else if s.max_portfolio_leverage is Malformed {
        Some(ConfigError::Malformed(Variable::MaxPortfolioLeverage))
    } else if s.max_single_asset_weight is Malformed {
        Some(ConfigError::Malformed(Variable::MaxSingleAssetWeight))
    } else if s.daily_drawdown_limit is Malformed {
        Some(ConfigError::Malformed(Variable::DailyDrawdownLimit))
    } else if s.target_daily_vol is Malformed {
        Some(ConfigError::Malformed(Variable::TargetDailyVol))
    } else if s.kelly_fraction is Malformed {
        Some(ConfigError::Malformed(Variable::KellyFraction))
    } else if s.hmm_states is Malformed {
        Some(ConfigError::Malformed(Variable::HmmStates))
    } else if s.gb_n_estimators is Malformed {
        Some(ConfigError::Malformed(Variable::GbNEstimators))
    } else if s.gb_learning_rate is Malformed {
        Some(ConfigError::Malformed(Variable::GbLearningRate))
    } else if s.gb_max_depth is Malformed {
        Some(ConfigError::Malformed(Variable::GbMaxDepth))
    } else if s.history_days is Malformed {
        Some(ConfigError::Malformed(Variable::HistoryDays))
    } else if s.max_combo_assets is Malformed {
        Some(ConfigError::Malformed(Variable::MaxComboAssets))
    } else if s.max_combo_tc_bps is Malformed {
        Some(ConfigError::Malformed(Variable::MaxComboTcBps))
    } else if s.enumerate_combo_subsets is Malformed {
        Some(ConfigError::Malformed(Variable::EnumerateComboSubsets))
    } else if s.signal_interval_secs is Malformed {
        Some(ConfigError::Malformed(Variable::SignalIntervalSecs))
    } else {
        None
    }
}

/// The value given, or the default.
pub open spec fn given_or<T>(s: Setting<T>, default: T) -> T {
    match s {
        Setting::Given(v) => v,
        _ => default,
    }
}

impl Config {
    /// The configuration that the variables give. The keys are required, the
    /// other variables have defaults, and a malformed `use_testnet` counts as
    /// false.
    pub fn from_settings(s: Settings) -> (r: Result<Config, ConfigError>)
        ensures
            match first_failure(s) {
                Some(e) => r == Err::<Config, ConfigError>(e),
                None => r matches Ok(c) && {
                    &&& Some(c.private_key) == s.private_key
                    &&& Some(c.wallet_address) == s.wallet_address
                    &&& c.use_testnet == given_or(s.use_testnet, false)
                    &&& c.max_portfolio_leverage == given_or(
                        s.max_portfolio_leverage,
                        Real::whole(3),
                    )
                    &&& c.max_single_asset_weight == given_or(
                        s.max_single_asset_weight,
                        Real::ratio(30, 100),
                    )
                    &&& c.daily_drawdown_limit == given_or(
                        s.daily_drawdown_limit,
                        Real::ratio(8, 100),
                    )
                    &&& c.target_daily_vol == given_or(s.target_daily_vol, Real::ratio(15, 1000))
                    &&& c.kelly_fraction == given_or(s.kelly_fraction, Real::ratio(3, 10))
                    &&& c.hmm_states == given_or(s.hmm_states, 4)
                    &&& c.gb_n_estimators == given_or(s.gb_n_estimators, 100)
                    &&& c.gb_learning_rate == given_or(s.gb_learning_rate, Real::ratio(1, 10))
                    &&& c.gb_max_depth == given_or(s.gb_max_depth, 3)
                    &&& c.history_days == given_or(s.history_days, 180)
                    &&& c.max_combo_assets == given_or(s.max_combo_assets, 3)
                    &&& c.max_combo_tc_bps == given_or(s.max_combo_tc_bps, Real::whole(25))
                    &&& c.enumerate_combo_subsets == given_or(s.enumerate_combo_subsets, true)
                    &&& c.signal_interval_secs == given_or(s.signal_interval_secs, 300)
                },
            },
    {
        let private_key = match s.private_key {
            Some(k) => k,
            None => {
                return Err(ConfigError::NotSet(Variable::PrivateKey));
            },
        };
        let wallet_address = match s.wallet_address {
            Some(k) => k,
            None => {
                return Err(ConfigError::NotSet(Variable::WalletAddress));
            },
        };
        Ok(
            Config {
                private_key,
                wallet_address,
                use_testnet: match s.use_testnet {
                    Setting::Given(b) => b,
                    _ => false,
                },
                max_portfolio_leverage: value(
                    s.max_portfolio_leverage,
                    Real::whole(3),
                    Variable::MaxPortfolioLeverage,
                )?,
                max_single_asset_weight: value(
                    s.max_single_asset_weight,
                    Real::ratio(30, 100),
                    Variable::MaxSingleAssetWeight,
                )?,
                daily_drawdown_limit: value(
                    s.daily_drawdown_limit,
                    Real::ratio(8, 100),
                    Variable::DailyDrawdownLimit,
                )?,
                target_daily_vol: value(
                    s.target_daily_vol,
                    Real::ratio(15, 1000),
                    Variable::TargetDailyVol,
                )?,
                kelly_fraction: value(
                    s.kelly_fraction,
                    Real::ratio(3, 10),
                    Variable::KellyFraction,
                )?,
                hmm_states: value(s.hmm_states, 4, Variable::HmmStates)?,
                gb_n_estimators: value(s.gb_n_estimators, 100, Variable::GbNEstimators)?,
                gb_learning_rate: value(
                    s.gb_learning_rate,
                    Real::ratio(1, 10),
                    Variable::GbLearningRate,
                )?,
                gb_max_depth: value(s.gb_max_depth, 3, Variable::GbMaxDepth)?,
                history_days: value(s.history_days, 180, Variable::HistoryDays)?,
                max_combo_assets: value(s.max_combo_assets, 3, Variable::MaxComboAssets)?,
                max_combo_tc_bps: value(
                    s.max_combo_tc_bps,
                    Real::whole(25),
                    Variable::MaxComboTcBps,
                )?,
                enumerate_combo_subsets: value(
                    s.enumerate_combo_subsets,
                    true,
                    Variable::EnumerateComboSubsets,
                )?,
                signal_interval_secs: value(
                    s.signal_interval_secs,
                    300,
                    Variable::SignalIntervalSecs,
                )?,
            },
        )
    }
}

} // verus!
