//! Lookup of the extensions of a registry together with their latest
//! versions.
//!
//! A lookup takes an optional name filter and a limit. It asks the
//! extensions table for the extensions that the filter selects, most
//! downloaded first, asks the versions table for the latest version of each,
//! and joins the two answers.
//!
//! - [`pattern`] builds the `LIKE` pattern for a filter and says which names
//!   a pattern matches.
//! - [`ranking`] orders extension rows by popularity.
//! - [`lookup`] holds the steps of a lookup that need no store: the choice of
//!   the query, the collection of the version keys, and the join.
//! - [`database`] holds a snapshot of the two tables and runs the whole
//!   lookup on it.
//! - [`extension`] and [`extension_version`] hold the rows.
//! - [`sequences`] holds facts about filtered sequences that the proofs share.

pub mod database;
pub mod extension;
pub mod extension_version;
pub mod lookup;
pub mod pattern;
pub mod ranking;
pub mod sequences;
