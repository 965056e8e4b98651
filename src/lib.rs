//! A k-d tree over points with integer coordinates: exact nearest and k-nearest
//! neighbour queries, in plain space and on a periodic box.

pub mod arena;
pub mod kdtree;
pub mod laws;
pub mod metric;
pub mod query;

pub use arena::Node;
pub use kdtree::{BuildError, Tree};
