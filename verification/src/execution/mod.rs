//! Execution: cost model and orders.
pub mod executor;
pub mod laws;
pub mod model;
pub mod orders;
