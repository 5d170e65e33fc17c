//! A double-entry bookkeeping ledger for multiple assets.
//!
//! The crate provides an exact fixed-point money type with a lossless
//! persisted integer encoding, an in-memory ledger store whose journal
//! entries are validated and committed atomically under the double-entry
//! balance rule, and a balance aggregator that rolls up signed
//! per-account, per-asset totals from posted entries.

pub mod balance;
pub mod error;
pub mod ledger;
pub mod models;
pub mod money;
pub mod parse;
