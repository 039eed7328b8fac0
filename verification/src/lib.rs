//! Garbage-collection bookkeeping for a persistent task graph, and the aggregation of
//! hot-module-replacement updates for a server session, with their contracts.
//!
//! - [`gc_roots`]: the persisted map of GC roots and its per-pass refresh.
//! - [`gc_pass`]: the decisions of one collection pass and the reconciliation of the roots map.
//! - [`gc_time`]: the wall clock a pass stamps stale roots with, and the root TTL.
//! - [`ordered_map`]: a string-keyed map in first-insertion order.
//! - [`hmr`]: combining per-chunk updates into one server update.
//! - [`file_source`]: a raw source and how its content is obtained.

pub mod file_source;
pub mod gc_pass;
pub mod gc_roots;
pub mod gc_time;
pub mod hmr;
pub mod ordered_map;
