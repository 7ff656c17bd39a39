//! Ledger ingestion and aggregation: typed transaction rows, per-account
//! summaries and time-bucketed net flows.
pub mod binary64;
pub mod epoch;
pub mod group;
pub mod ingest;
pub mod ledger;
pub mod money;
pub mod text;
pub mod window;
