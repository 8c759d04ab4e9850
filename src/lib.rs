//! A monotone integer priority queue ("bucket queue").
//!
//! Keys are non-negative integers whose increments are bounded by a constant
//! `C` fixed at construction: once a minimum `m` has been extracted, only keys
//! in `[m, m + C]` may be present. This is the situation in Dijkstra's
//! shortest-path algorithm on graphs with integer edge weights of at most `C`.
//! Insertion, removal and decrease-key are O(1); finding the minimum scans at
//! most `C + 1` buckets.
pub mod queue;

pub use queue::BucketQueue;
