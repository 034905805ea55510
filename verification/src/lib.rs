//! Verified core of a personal tweet-archive backend.
//!
//! The library models the archive's store (items, categories, and the
//! many-to-many links between them), the filter/search/pagination pipeline
//! over it, and the construction of the parameterized SQL statements that a
//! thin I/O layer runs against the real relational store.

pub mod listing;
pub mod params;
pub mod sql;
pub mod store;
pub mod text;
