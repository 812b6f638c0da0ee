//! Builds a directed graph over airports from route records and ranks the
//! airports by degree centrality.
//!
//! - `registry`: dense integer ids for string keys (airport codes).
//! - `graph`: adjacency-list graph construction and degree centrality.
//! - `names`: composing ids with display names, and the top-k ranking.
//! - `table`: extracting airport and route records from CSV text.
pub mod graph;
pub mod names;
pub mod registry;
pub mod table;
