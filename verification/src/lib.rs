//! A graph-traversal and reduction engine over a lazily resolved graph: a
//! fixed pool of nodes whose outgoing edges are discovered on demand by
//! resolving symbolic references against a shared index. The engine visits
//! every node reachable from a set of roots exactly once, computes a value for
//! each visited node, and reduces the values into a single aggregate.
//!
//! The crate also holds the companion workloads the engine is exercised with:
//! a tree reduction over nodes with pre-allocated children, and a
//! length-delimited record codec.

pub mod codec;
pub mod compute;
pub mod gen;
pub mod graph;
pub mod status;
pub mod reach;
pub mod rng;
pub mod tasks;
pub mod traverse;
pub mod tree;
pub mod tree_collect;
pub mod tree_fill;
pub mod tree_reduce;

pub use compute::amount_of_work;
pub use compute::DEFAULT_AMOUNT_OF_WORK;
