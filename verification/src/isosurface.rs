//! The whole extraction: from the signs of a field to the buffers of the
//! surface, by way of the cells and the tetrahedra of the partition.

use crate::cells::builder::{
    build_cell_trees, lemma_same_tree_with_min_depth, same_field, spec_octree, SignField,
};
use crate::partition::tree::root_coord;
use crate::cells::collection::{spec_build_from_volume_cells, spec_entries, Cell};
use crate::cells::tetrahedralize::{simplices_view, spec_tetrahedralize, tetrahedralize};
use crate::cells::{EdgeCellCollection, FaceCellCollection, VolumeCellCollection};
use crate::mesh::{
    inside_view, spec_marching_tetrahedra, tetras_view, FaceVert, MeshBuffers,
};
use crate::partition::tree::TreeModel;
use crate::simplex::{Simplex, VertModel};
use crate::subspace::{R1Space, R2Space, R3Space};
use vstd::prelude::*;

verus! {

/// The deepest level that the partition can reach.
pub const DEPTH_LIMIT: usize = 62;

/// What the extraction can be told.
#[derive(Clone, Copy, PartialEq, Eq, Debug, Structural)]
pub struct SolverSettings {
    /// The number of additional threads to use; 0 uses none.
    pub worker_threads: usize,
    /// The depth down to which the octree is divided whatever the field is.
    pub min_octree_depth: usize,
    /// The depth of the cells of the octree.
    pub max_octree_depth: usize,
    /// How often a cell is divided to sample the field for its dual vertex.
    pub dual_sample_subdivisions: usize,
    /// The greatest number of steps taken to fit a vertex to the surface.
    pub max_vert_fitting_steps: usize,
}

impl Default for SolverSettings {
    fn default() -> (r: Self)
        ensures
            r == (SolverSettings {
                worker_threads: 0,
                min_octree_depth: 3,
                max_octree_depth: 4,
                dual_sample_subdivisions: 1,
                max_vert_fitting_steps: 32,
            }),
    {
        SolverSettings {
            worker_threads: 0,
            min_octree_depth: 3,
            max_octree_depth: 4,
            dual_sample_subdivisions: 1,
            max_vert_fitting_steps: 32,
        }
    }
}

/// Why settings are refused.
#[derive(Clone, Copy, PartialEq, Eq, Debug, Structural)]
pub enum SettingsError {
    /// The octree is asked to be deeper than the partition can reach.
    DepthTooLarge,
    /// The depth that is always reached is greater than the greatest depth.
    MinAboveMax,
}

impl SettingsError {
    /// What is wrong, in words.
    pub fn message(&self) -> (r: &'static str)
        ensures
            *self == SettingsError::DepthTooLarge ==> r@
                == "max_octree_depth must be at most 62"@,
            *self == SettingsError::MinAboveMax ==> r@
                == "min_octree_depth must not be greater than max_octree_depth"@,
    {
        match self {
            SettingsError::DepthTooLarge => "max_octree_depth must be at most 62",
            SettingsError::MinAboveMax => "min_octree_depth must not be greater than max_octree_depth",
        }
    }
}

impl SolverSettings {
    /// What `validate` answers.
    pub open spec fn spec_validate(&self) -> Result<(), SettingsError> {
        if self.max_octree_depth > DEPTH_LIMIT {
            Err(SettingsError::DepthTooLarge)
        } else if self.min_octree_depth > self.max_octree_depth {
            Err(SettingsError::MinAboveMax)
        } else {
            Ok(())
        }
    }

    /// Whether the extraction can run with these settings, and if not, why.
    #[verifier::when_used_as_spec(spec_validate)]
    pub fn validate(&self) -> (r: Result<(), SettingsError>)
        ensures
            r == self.spec_validate(),
            r is Ok <==> self.min_octree_depth <= self.max_octree_depth <= DEPTH_LIMIT,
    {
        if self.max_octree_depth > DEPTH_LIMIT {
            Err(SettingsError::DepthTooLarge)
        } else if self.min_octree_depth > self.max_octree_depth {
            Err(SettingsError::MinAboveMax)
        } else {
            Ok(())
        }
    }
}

/// For each vertex of each tetrahedron, whether the field is less than zero
/// there.
pub open spec fn spec_classify<F: SignField>(field: &F, tetras: Seq<Seq<VertModel>>) -> Seq<
    Seq<bool>,
> {
    Seq::new(tetras.len(), |k: int| Seq::new(4, |j: int| field.inside_at(tetras[k][j])))
}

/// For each vertex of each tetrahedron, whether it lies inside the surface.
pub fn classify<F: SignField>(field: &mut F, tetras: &Vec<Simplex<4>>) -> (r: Vec<[bool; 4]>)
    ensures
        r.len() == tetras.len(),
        inside_view(r@) == spec_classify(old(field), tetras_view(tetras@)),
        same_field(final(field), old(field)),
{
    let mut out: Vec<[bool; 4]> = Vec::new();
    let mut k: usize = 0;
    while k < tetras.len()
        invariant
            k <= tetras.len(),
            out.len() == k,
            same_field(field, old(field)),
            forall|i: int, j: int|
                0 <= i < k && 0 <= j < 4 ==> (#[trigger] out@[i]@[j]) == old(field).inside_at(
                    tetras@[i]@[j],
                ),
        decreases tetras.len() - k,
    {
        let tetra = &tetras[k];
        let a = field.inside(&tetra.verts[0]);
        let b = field.inside(&tetra.verts[1]);
        let c = field.inside(&tetra.verts[2]);
        let d = field.inside(&tetra.verts[3]);
        out.push([a, b, c, d]);
        k += 1;
    }
    proof {
        let want = spec_classify(old(field), tetras_view(tetras@));
        assert forall|i: int| 0 <= i < out@.len() implies (#[trigger] inside_view(out@)[i])
            == want[i] by {
            assert forall|j: int| 0 <= j < 4 implies out@[i]@[j] == want[i][j] by {
                assert(out@[i]@[j] == old(field).inside_at(tetras@[i]@[j]));
            }
            assert(out@[i]@ =~= want[i]);
        }
        assert(inside_view(out@) =~= want);
    }
    out
}

/// The triangles of the surface in the tetrahedra of the given cells.
pub open spec fn spec_surface<F: SignField>(
    field: &F,
    volume_cells: Seq<(R3Space, TreeModel<Cell>)>,
    face_cells: Seq<(R2Space, TreeModel<Cell>)>,
    edge_cells: Seq<(R1Space, TreeModel<Cell>)>,
) -> Seq<Seq<(VertModel, VertModel)>> {
    let tetras = spec_tetrahedralize(volume_cells, face_cells, edge_cells);
    spec_marching_tetrahedra(tetras, spec_classify(field, tetras))
}

/// The buffers of the surface that passes through the given cells: their
/// tetrahedra, cut where the field changes sign.
pub fn extract_mesh<F: SignField>(
    field: &mut F,
    volume_cells: &VolumeCellCollection,
    face_cells: &FaceCellCollection,
    edge_cells: &EdgeCellCollection,
) -> (r: MeshBuffers<FaceVert>)
    requires
        volume_cells.wf(),
        face_cells.wf(),
        edge_cells.wf(),
    ensures
        r.is_mesh_of(spec_surface(old(field), volume_cells@, face_cells@, edge_cells@)),
        same_field(final(field), old(field)),
{
    let tetras = tetrahedralize(volume_cells, face_cells, edge_cells);
    let inside = classify(field, &tetras);
    proof {
        assert(tetras_view(tetras@) =~= simplices_view(tetras@));
    }
    MeshBuffers::new(&tetras, &inside)
}

/// The triangles of the surface of a field, for a partition of the given
/// depths.
pub open spec fn spec_find_isosurface<F: SignField>(
    field: &F,
    min_depth: nat,
    max_depth: nat,
) -> Seq<Seq<(VertModel, VertModel)>> {
    let volume_cells = seq![(R3Space(), spec_octree(field, min_depth, max_depth))];
    let cells = spec_entries(volume_cells, 3);
    spec_surface(
        field,
        volume_cells,
        spec_build_from_volume_cells::<2, R2Space>(cells, cells.len()),
        spec_build_from_volume_cells::<1, R1Space>(cells, cells.len()),
    )
}

/// The triangles of the surface depend on the signs of the field alone: two
/// fields, or two states of one field, that have the same signs everywhere
/// give the same triangles.
pub proof fn lemma_same_signs_same_surface<F: SignField>(
    a: &F,
    b: &F,
    min_depth: nat,
    max_depth: nat,
)
    requires
        same_field(a, b),
    ensures
        spec_find_isosurface(a, min_depth, max_depth) == spec_find_isosurface(
            b,
            min_depth,
            max_depth,
        ),
{
    lemma_same_tree_with_min_depth(a, b, min_depth, max_depth, root_coord(3));
    let volume_cells = seq![(R3Space(), spec_octree(a, min_depth, max_depth))];
    let cells = spec_entries(volume_cells, 3);
    let tetras = spec_tetrahedralize(
        volume_cells,
        spec_build_from_volume_cells::<2, R2Space>(cells, cells.len()),
        spec_build_from_volume_cells::<1, R1Space>(cells, cells.len()),
    );
    assert forall|k: int| 0 <= k < tetras.len() implies spec_classify(a, tetras)[k]
        == spec_classify(b, tetras)[k] by {
        assert(spec_classify(a, tetras)[k] =~= spec_classify(b, tetras)[k]);
    }
    assert(spec_classify(a, tetras) =~= spec_classify(b, tetras));
}

/// The buffers of a mesh that approximates the surface on which the field
/// is zero: each vertex is the crossing of an edge of the partition, named
/// by the two ends of that edge. Settings that cannot be met are refused
/// before any work is done.
pub fn find_isosurface<F: SignField>(func: &mut F, settings: &SolverSettings) -> (r: Result<
    MeshBuffers<FaceVert>,
    SettingsError,
>)
    ensures
        same_field(final(func), old(func)),
        match settings.spec_validate() {
            Ok(_) => r is Ok && r->Ok_0.is_mesh_of(
                spec_find_isosurface(
                    old(func),
                    settings.min_octree_depth as nat,
                    settings.max_octree_depth as nat,
                ),
            ),
            Err(e) => r == Err::<MeshBuffers<FaceVert>, SettingsError>(e),
        },
{
    match settings.validate() {
        Err(e) => Err(e),
        Ok(_) => {
            let (volume_cells, face_cells, edge_cells) = build_cell_trees(
                func,
                settings.min_octree_depth,
                settings.max_octree_depth,
            );
            let ghost built = *func;
            let mesh = extract_mesh(func, &volume_cells, &face_cells, &edge_cells);
            proof {
                let tetras = spec_tetrahedralize(volume_cells@, face_cells@, edge_cells@);
                assert(spec_classify(&built, tetras) =~= spec_classify(old(func), tetras)) by {
                    assert forall|k: int| 0 <= k < tetras.len() implies spec_classify(
                        &built,
                        tetras,
                    )[k] =~= spec_classify(old(func), tetras)[k] by {}
                }
            }
            Ok(mesh)
        },
    }
}

} // verus!
