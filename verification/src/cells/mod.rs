//! The cells of the partition that the surface passes through: the volume
//! cells of the box, and the face and edge cells on their boundaries.

pub mod builder;
pub mod collection;
pub mod laws;
pub mod tetrahedralize;

pub use builder::{build_cell_trees, PlaneField, SignField};
pub use collection::{Cell, CellCollection, CellTree, VolumeCellCollection};
pub use tetrahedralize::tetrahedralize;

use crate::subspace::{R1Space, R2Space};
use vstd::prelude::*;

verus! {

/// The edge cells, one binary tree for each line that holds some.
pub type EdgeCellCollection = CellCollection<1, R1Space>;

/// The face cells, one quadtree for each plane that holds some.
pub type FaceCellCollection = CellCollection<2, R2Space>;


} // verus!
