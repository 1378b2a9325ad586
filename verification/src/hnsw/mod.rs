//! Hierarchical navigable small world index.

pub mod cost;
pub mod graph;
pub mod index;
pub mod layer;
pub mod params;
pub mod search;
pub mod select;
pub mod stats;
pub mod validate;
pub mod visited;
