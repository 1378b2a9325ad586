//! Anka: a vector search engine, with its behaviour stated as contracts and proved.
//!
//! Vector components are carried as the bit patterns of IEEE 754 single-precision numbers
//! (`u32`), so storing, comparing, ordering and persisting them is integer work. What needs
//! floating-point arithmetic, the distance kernels, comes in through [`metric::Metric`].

pub mod bits;
pub mod brute_force;
pub mod candidate;
pub mod cli;
pub mod count;
pub mod dataset;
pub mod error;
pub mod first;
pub mod ground_truth;
pub mod hnsw;
pub mod mem;
pub mod metric;
pub mod store;
pub mod text;
pub mod vector_store;

use vstd::prelude::*;

verus! {

/// The id a caller gives a vector.
pub type ExternalId = u64;

/// A vector's position in the store, which is also its node in the graph.
pub type NodeId = u32;

} // verus!
