//! Live market data.
pub mod ingestion;
pub mod laws;
pub mod messages;
pub mod store;
pub mod table;
