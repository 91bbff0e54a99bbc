//! Offline-first synchronization engine for a personal finance tracker.
//!
//! A local store holds three related tables (portfolios, entries and bond
//! coupon payments).  The engine collects the rows that still have to be
//! pushed, replays a batch of remote changes without breaking referential
//! integrity, and keeps the single checkpoint that marks how far the remote
//! history has been pulled.
//!
//! - `store`: the tables, their referential integrity, local edits;
//! - `collector`: the outbound batch and recording it as pushed;
//! - `apply`: replaying a pulled batch; `idempotence`: replaying it twice;
//! - `checkpoint`: the pull cursor;
//! - `orchestrator`: one cycle around the network exchange;
//! - `table_map`: wire and local table names;
//! - `portfolio`: the typed portfolio and its payload;
//! - `status`, `session`: status values and browser session tokens;
//! - `requests`: market-data requests and their validation.

pub mod apply;
pub mod checkpoint;
pub mod collector;
pub mod idempotence;
pub mod orchestrator;
pub mod portfolio;
pub mod record;
pub mod requests;
pub mod session;
pub mod status;
pub mod store;
pub mod table_map;
