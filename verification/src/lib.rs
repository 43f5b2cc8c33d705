//! Combinatorial core of isosurface extraction over simplicial partitions of
//! multiresolution grids: dyadic partition coordinates, sparse partition
//! trees, axis-aligned subspaces of the unit box, cell collections, the
//! tetrahedralization of their duals and the marching-tetrahedra case table.

pub mod cache;
pub mod cells;
pub mod data;
pub mod duals;
pub mod isosurface;
pub mod mesh;
pub mod partition;
pub mod simplex;
pub mod subspace;

pub use cells::SignField;
pub use data::Dimension;
pub use isosurface::{find_isosurface, SettingsError, SolverSettings};
pub use mesh::MeshBuffers;
