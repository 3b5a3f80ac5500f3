//! Ledger-level data: event identifiers and object-store paths.
pub mod event_id;
pub mod events;
pub mod path;
