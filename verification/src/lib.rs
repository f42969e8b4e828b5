#![verifier::loop_isolation(false)]
//! A verified double-entry bookkeeping engine.
//!
//! The crate keeps a hierarchical chart of accounts, a ledger of balanced
//! transactions, exact multi-currency amounts, and a query layer that turns
//! postings into statements.  Every transaction that the ledger stores is
//! proved to balance to zero in every currency.

pub mod accn;
pub mod currency;
pub mod date;
pub mod journal;
pub mod money;
pub mod money_text;
pub mod num;
pub mod query;
pub mod split_cmd;
pub mod text;
pub mod util;
pub mod valuable;
