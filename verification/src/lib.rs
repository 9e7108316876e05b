//! Multithreaded single-source shortest paths over a weighted directed graph.
//!
//! The verified core holds the adjacency store, the Dijkstra relaxation loop
//! that each worker job runs, the table that collects one distance vector per
//! source node, and the bookkeeping rules of the worker pool (thread-count
//! validation, outcome accounting, and the completion-polling decision).
//! Thread spawning, channels and locks live outside the library, in the
//! program that drives it.

pub mod dijkstra;
pub mod errors;
pub mod graph;
pub mod paths;
pub mod pool;
pub mod table;
