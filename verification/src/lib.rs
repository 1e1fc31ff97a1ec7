//! A named, multi-parent hierarchy of "units" kept in a content-addressed,
//! append-only ledger, with path- and state-based secondary indexes.
pub mod error;
pub mod path;
pub mod tag;
pub mod unit;
pub mod store;
