//! A searchable catalog of function signatures.
//!
//! The library keeps four cross-referenced collections over stored
//! signatures (per-parameter-type index, per-return-type index, id-to-record
//! table, crate-to-id-list table) together with a monotonic id counter,
//! applies and purges whole crates atomically, tokenizes type names for an
//! external fuzzy matcher, and joins ranked candidate columns into an
//! ordered, deduplicated, size-bounded query result.

pub mod detail;
pub mod order;
pub mod query;
pub mod store;
pub mod table;
pub mod tokenize;
