//! Binary partitions of the unit interval and their products.

pub mod coord;
pub mod id;
pub mod tree;
pub mod tree_laws;
pub mod tree_listing;

pub use coord::PartitionCoord;
pub use id::PartitionID;
pub use tree::PartitionTree;
