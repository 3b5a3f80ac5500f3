//! In-memory event cache and query engine for per-ledger blockchain events.
pub mod api;
pub mod db;
pub mod ledger;
pub mod sync;
pub mod text;
