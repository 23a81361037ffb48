//! Order book features and order arrival models.
pub mod arrivals;
pub mod features;
pub mod hawkes;
pub mod laws;
