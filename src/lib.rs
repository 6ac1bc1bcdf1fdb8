//! Approximate string matching over a length-partitioned index of lines.
//!
//! `distance` holds the edit-distance model and the two bounded matchers,
//! `text` the byte and character helpers built on outside crates, and
//! `searcher` the index and its search.

pub mod distance;
pub mod text;
pub mod searcher;
