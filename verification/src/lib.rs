//! Fans a stream of keyed records out into one destination per key, with
//! at most a fixed number of destinations open at a time.
//!
//! The library reads no input and opens no file. Its caller hands it the
//! records one by one, and for each record [`partition::Partition::route`]
//! answers what to do: into which destination the record goes, how that
//! destination is opened if it is not open, which open destination gives
//! way, and what is written.
//!
//! - [`generator`] issues the identifiers of destinations: safe in a file
//!   name, and never the same twice.
//! - [`template`] makes file names from identifiers.
//! - [`pool`] keeps the books of the destinations and of the open ones.
//! - [`partition`] keys the records and asks the pool.
//! - [`laws`] states what holds of every run.
//! - [`sanitize`] and [`cache`] hold what is believed of the `regex` and
//!   `lru` crates.

pub mod cache;
pub mod error;
pub mod generator;
pub mod index;
pub mod laws;
pub mod partition;
pub mod pool;
pub mod record;
pub mod sanitize;
pub mod template;
