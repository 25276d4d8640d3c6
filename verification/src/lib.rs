//! Entitlement enumeration and manifest verification pipeline.
//!
//! The library classifies asset entitlements into engine and non-engine
//! partitions, resolves asset versions to content manifests under a bounded
//! retry policy, verifies resolved manifests against their distribution
//! points by hash comparison, and aggregates the distinct category paths of
//! owned assets into a sorted listing.

pub mod catalog;
pub mod categories;
pub mod distribution;
pub mod resolver;
pub mod lexical;
pub mod pipeline;
