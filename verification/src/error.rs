//! Errors of the trading system.
use vstd::prelude::*;

use crate::text::{append_decimal, decimal};

verus! {

/// What can go wrong between a market event and an order.
#[derive(Debug)]
pub enum TradingError {
    /// The exchange's interface failed.
    Api(String),
    /// There is too little history.
    InsufficientData { needed: usize, available: usize },
    /// A model was used before it was trained.
    ModelNotTrained,
    /// A signal did not pass the risk checks.
    RiskCheckFailed { reason: String },
    /// An order could not be executed.
    Execution(String),
    /// There is nothing to trade.
    NoSignal,
}

impl TradingError {
    /// The text shown for the error.
    pub open spec fn text(&self) -> Seq<char> {
        match self {
            TradingError::Api(e) => "API error: "@ + e@,
            TradingError::InsufficientData { needed, available } => "Insufficient data: need at least "@
                + decimal(*needed as nat) + " bars, have "@ + decimal(*available as nat),
            TradingError::ModelNotTrained => "Model not trained"@,
            TradingError::RiskCheckFailed { reason } => "Risk check failed: "@ + reason@,
            TradingError::Execution(e) => "Execution error: "@ + e@,
            TradingError::NoSignal => "No signal generated"@,
        }
    }

    /// The text shown for the error.
    pub fn message(&self) -> (r: String)
        ensures
            r@ == self.text(),
    {
        match self {
            TradingError::Api(e) => {
                let mut out = "API error: ".to_owned();
                out.append(e.as_str());
                out
            },
            TradingError::InsufficientData { needed, available } => {
                let mut out = "Insufficient data: need at least ".to_owned();
                append_decimal(&mut out, *needed as u64);
                out.append(" bars, have ");
                append_decimal(&mut out, *available as u64);
                out
            },
            TradingError::ModelNotTrained => "Model not trained".to_owned(),
            TradingError::RiskCheckFailed { reason } => {
                let mut out = "Risk check failed: ".to_owned();
                out.append(reason.as_str());
                out
            },
            TradingError::Execution(e) => {
                let mut out = "Execution error: ".to_owned();
                out.append(e.as_str());
                out
            },
            TradingError::NoSignal => "No signal generated".to_owned(),
        }
    }
}

} // verus!
