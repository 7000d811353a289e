//! Structured payload index: filter planning and execution over per-field
//! secondary indexes of a vector-search segment.
//!
//! Each point carries a payload of typed attributes. Filters are boolean
//! trees over field predicates; this crate selects which field indexes can
//! drive a query, estimates result cardinality, streams deduplicated
//! candidates, and falls back to full scans when no usable index exists.

pub mod checker;
pub mod codec;
pub mod context;
pub mod estimator;
pub mod field_index;
pub mod filters;
pub mod laws;
pub mod payload_index;
pub mod persist;
pub mod types;
