//! Path-addressed event trees and a time-windowed event-aggregation engine.
//!
//! The crate models nested log events as a tree of values addressed by
//! parsed field paths, flattens such trees into (path, scalar) pairs in a
//! deterministic order, and groups a stream of events into per-key buckets
//! that are merged field by field and flushed on boundary conditions,
//! staleness, or upstream completion.

pub mod clock;
pub mod condition;
pub mod discriminant;
pub mod event;
pub mod fields;
pub mod lookup;
pub mod merge;
pub mod metric;
pub mod path_text;
pub mod reduce;
pub mod stdin;
pub mod tree;
pub mod value;
