//! Building the cells of the partition from the signs of a scalar field: the
//! octree of the volume cells that the surface passes through, and from it
//! the face and the edge cells.

use crate::cells::collection::{
    spec_build_from_volume_cells, spec_entries, Cell, CellCollection, CellTree,
    VolumeCellCollection,
};
use crate::cells::{EdgeCellCollection, FaceCellCollection};
use crate::partition::coord::{
    all_segments, coord_child, coord_vertex, is_cell, PartitionCoord,
};
use crate::partition::id::PartitionID;
use crate::partition::tree::{
    lemma_cell_child, lemma_cell_children, lemma_max_height_bound, lemma_root_is_cell,
    root_coord, PartitionTree, TreeModel,
};
use crate::data::Dimension;
use crate::simplex::{spec_box_coord, SimplexVert, VertModel};
use crate::subspace::{R1Space, R2Space, R3Space, Subspace};
use vstd::arithmetic::power2::lemma2_to64;
use vstd::prelude::*;

verus! {

/// The signs of a scalar field over the box, as far as the partition needs
/// them. The field has one value at each point: asking again gives the
/// same answer, though an implementation may keep what it has computed.
pub trait SignField: Sized {
    /// Whether the field is greater than zero at a corner of a cell. An
    /// implementation that says no more has some sign at each corner, and
    /// nothing else is known of it.
    open spec fn positive_at(&self, corner: Seq<PartitionID>) -> bool {
        (arbitrary::<spec_fn(Self, Seq<PartitionID>) -> bool>())(*self, corner)
    }

    /// Whether the field is less than zero at a vertex of a simplex. An
    /// implementation that says no more has some sign at each vertex, and
    /// nothing else is known of it.
    open spec fn inside_at(&self, vert: VertModel) -> bool {
        (arbitrary::<spec_fn(Self, VertModel) -> bool>())(*self, vert)
    }

    /// Whether the field is greater than zero at a corner of a cell.
    fn positive(&mut self, corner: &PartitionCoord<3>) -> (r: bool)
        ensures
            r == old(self).positive_at(corner@),
            forall|c: Seq<PartitionID>| #[trigger]
                final(self).positive_at(c) == old(self).positive_at(c),
            forall|v: VertModel| #[trigger] final(self).inside_at(v) == old(self).inside_at(v),
    ;

    /// Whether the field is less than zero at a vertex of a simplex.
    fn inside(&mut self, vert: &SimplexVert) -> (r: bool)
        ensures
            r == old(self).inside_at(vert@),
            forall|c: Seq<PartitionID>| #[trigger]
                final(self).positive_at(c) == old(self).positive_at(c),
            forall|v: VertModel| #[trigger] final(self).inside_at(v) == old(self).inside_at(v),
    ;
}

/// The field that is the height above a plane of the partition: the plane
/// perpendicular to `axis` at the position `at`. A dual vertex is taken to
/// lie at the centre of its cell.
#[derive(Clone, Copy, PartialEq, Eq, Debug, Structural)]
pub struct PlaneField {
    pub axis: Dimension,
    pub at: PartitionID,
}

impl SignField for PlaneField {
    open spec fn positive_at(&self, corner: Seq<PartitionID>) -> bool {
        corner[self.axis.spec_index() as int].0 > self.at.0
    }

    open spec fn inside_at(&self, vert: VertModel) -> bool {
        spec_box_coord(vert)[self.axis.spec_index() as int].0 < self.at.0
    }

    fn positive(&mut self, corner: &PartitionCoord<3>) -> (r: bool)
        ensures
            *final(self) == *old(self),
    {
        corner.0[self.axis.index()].0 > self.at.0
    }

    fn inside(&mut self, vert: &SimplexVert) -> (r: bool)
        ensures
            *final(self) == *old(self),
    {
        let at = vert.box_coord();
        proof {
            lemma_box_coord_has_three(vert@);
        }
        at.0[self.axis.index()].0 < self.at.0
    }
}

/// A coordinate in the box has three components.
pub proof fn lemma_box_coord_has_three(vert: VertModel)
    requires
        exists|v: SimplexVert| v@ == vert,
    ensures
        spec_box_coord(vert).len() == 3,
{
    let v = choose|v: SimplexVert| v@ == vert;
    match v {
        SimplexVert::CellBoundary(c) => {
            assert(c@.len() == 3);
        },
        SimplexVert::EdgeDual(cell) => {
            cell.subspace.lemma_project_unproject(cell.coord@);
        },
        SimplexVert::FaceDual(cell) => {
            cell.subspace.lemma_project_unproject(cell.coord@);
        },
        SimplexVert::VolumeDual(cell) => {
            assert(cell.coord@.len() == 3);
        },
    }
}

/// Whether two states of a field give the same signs everywhere.
pub open spec fn same_field<F: SignField>(a: &F, b: &F) -> bool {
    &&& forall|c: Seq<PartitionID>| #[trigger] a.positive_at(c) == b.positive_at(c)
    &&& forall|v: VertModel| #[trigger] a.inside_at(v) == b.inside_at(v)
}

/// Whether the field is positive at some corners of a cell of the box and
/// not at others.
pub open spec fn spec_sign_change<F: SignField>(field: &F, coord: Seq<PartitionID>) -> bool {
    exists|k: int|
        0 <= k < 8 && field.positive_at(#[trigger] coord_vertex(coord, k as nat))
            != field.positive_at(coord_vertex(coord, 0))
}

/// The children of an interior node of the octree below the levels that are
/// always divided.
pub open spec fn spec_volume_children<F: SignField>(
    field: &F,
    max_depth: nat,
    coord: Seq<PartitionID>,
) -> Seq<TreeModel<Cell>>
    decreases max_depth, 0nat,
{
    Seq::new(
        8,
        |i: int|
            if 0 <= i < 8 && max_depth > 0 {
                spec_volume_tree(field, (max_depth - 1) as nat, coord_child(coord, i as nat))
            } else {
                TreeModel::Empty
            },
    )
}

/// The octree below a cell of the box, `max_depth` levels above the
/// deepest: empty where the signs of the field at the corners of the cell
/// do not differ; else a leaf at the deepest level, and above it an
/// interior node over the octrees of the eight children.
pub open spec fn spec_volume_tree<F: SignField>(
    field: &F,
    max_depth: nat,
    coord: Seq<PartitionID>,
) -> TreeModel<Cell>
    decreases max_depth, 1nat,
{
    if !spec_sign_change(field, coord) {
        TreeModel::Empty
    } else if max_depth == 0 {
        TreeModel::Leaf(Cell)
    } else {
        TreeModel::Interior(spec_volume_children(field, max_depth, coord))
    }
}

/// The children of an interior node of the octree within the levels that
/// are always divided.
pub open spec fn spec_min_depth_children<F: SignField>(
    field: &F,
    min_depth: nat,
    max_depth: nat,
    coord: Seq<PartitionID>,
) -> Seq<TreeModel<Cell>>
    decreases min_depth, 0nat,
{
    Seq::new(
        8,
        |i: int|
            if 0 <= i < 8 && min_depth > 0 {
                spec_volume_tree_with_min_depth(
                    field,
                    (min_depth - 1) as nat,
                    (max_depth - 1) as nat,
                    coord_child(coord, i as nat),
                )
            } else {
                TreeModel::Empty
            },
    )
}

/// The octree below a cell of the box that lies `min_depth` levels above
/// the first level at which the signs are looked at, and `max_depth` levels
/// above the deepest: the cell is divided whatever the signs are until
/// `min_depth` is used up.
pub open spec fn spec_volume_tree_with_min_depth<F: SignField>(
    field: &F,
    min_depth: nat,
    max_depth: nat,
    coord: Seq<PartitionID>,
) -> TreeModel<Cell>
    decreases min_depth, 1nat,
{
    if min_depth == 0 {
        spec_volume_tree(field, max_depth, coord)
    } else {
        TreeModel::Interior(spec_min_depth_children(field, min_depth, max_depth, coord))
    }
}

/// Whether the field is positive at some corners of a cell of the box and
/// not at others. A value of zero counts as not positive.
pub fn sign_change<F: SignField>(field: &mut F, coord: PartitionCoord<3>) -> (r: bool)
    requires
        all_segments(coord@),
    ensures
        r == spec_sign_change(old(field), coord@),
        same_field(final(field), old(field)),
{
    let corners = coord.vertex_coords();
    proof {
        lemma2_to64();
    }
    let sign = field.positive(&corners[0]);
    let mut k: usize = 0;
    while k < corners.len()
        invariant
            k <= corners.len() == 8,
            same_field(field, old(field)),
            sign == old(field).positive_at(coord_vertex(coord@, 0)),
            forall|j: int| 0 <= j < 8 ==> (#[trigger] corners[j])@ == coord_vertex(coord@, j as nat),
            forall|j: int|
                0 <= j < k ==> old(field).positive_at(#[trigger] coord_vertex(coord@, j as nat))
                    == sign,
        decreases corners.len() - k,
    {
        if field.positive(&corners[k]) != sign {
            proof {
                assert(corners[k as int]@ == coord_vertex(coord@, k as nat));
            }
            return true;
        }
        k += 1;
    }
    false
}

/// The octree below a cell of the box, `max_depth` levels above the
/// deepest.
pub fn volume_tree<F: SignField>(field: &mut F, max_depth: usize, coord: PartitionCoord<3>) -> (r:
    CellTree<3>)
    requires
        is_cell(coord@),
        coord@.len() == 3,
        coord@[0].depth() + max_depth <= 62,
    ensures
        r@ == spec_volume_tree(old(field), max_depth as nat, coord@),
        r@.wf(3),
        r@.height() <= max_depth,
        same_field(final(field), old(field)),
    decreases max_depth,
{
    let change = sign_change(field, coord);
    if !change {
        PartitionTree::Empty
    } else if max_depth == 0 {
        PartitionTree::Leaf(Cell)
    } else {
        proof {
            lemma_cell_children(coord@);
            lemma2_to64();
        }
        let child_coords = coord.child_coords();
        let mut children: Vec<CellTree<3>> = Vec::new();
        let mut i: usize = 0;
        while i < 8
            invariant
                i <= 8,
                max_depth > 0,
                child_coords.len() == 8,
                is_cell(coord@),
                coord@.len() == 3,
                coord@[0].depth() + max_depth <= 62,
                same_field(field, old(field)),
                children.len() == i,
                forall|j: int|
                    0 <= j < 8 ==> (#[trigger] child_coords[j])@ == coord_child(coord@, j as nat),
                forall|j: int|
                    0 <= j < i ==> {
                        &&& (#[trigger] children@[j])@ == spec_volume_tree(
                            old(field),
                            (max_depth - 1) as nat,
                            coord_child(coord@, j as nat),
                        )
                        &&& children@[j]@.wf(3)
                        &&& children@[j]@.height() <= max_depth - 1
                    },
            decreases 8 - i,
        {
            proof {
                lemma_cell_child(coord@, i as nat);
            }
            let ghost now = *field;
            let child = volume_tree(field, max_depth - 1, child_coords[i]);
            proof {
                lemma_same_tree(&now, old(field), (max_depth - 1) as nat, child_coords[i as int]@);
            }
            children.push(child);
            i += 1;
        }
        proof {
            PartitionTree::<Cell, 3>::lemma_view_interior(children);
            let tree = PartitionTree::<Cell, 3>::Interior(children)@;
            let ch = tree->Interior_0;
            assert(ch =~= spec_volume_children(old(field), max_depth as nat, coord@));
            lemma_max_height_bound(ch, 0, (max_depth - 1) as nat);
        }
        PartitionTree::Interior(children)
    }
}

/// The octree below a cell of the box that is divided `min_depth` times
/// whatever the signs are.
pub fn volume_tree_with_min_depth<F: SignField>(
    field: &mut F,
    min_depth: usize,
    max_depth: usize,
    coord: PartitionCoord<3>,
) -> (r: CellTree<3>)
    requires
        min_depth <= max_depth,
        is_cell(coord@),
        coord@.len() == 3,
        coord@[0].depth() + max_depth <= 62,
    ensures
        r@ == spec_volume_tree_with_min_depth(
            old(field),
            min_depth as nat,
            max_depth as nat,
            coord@,
        ),
        r@.wf(3),
        r@.height() <= max_depth,
        same_field(final(field), old(field)),
    decreases min_depth,
{
    if min_depth == 0 {
        volume_tree(field, max_depth, coord)
    } else {
        proof {
            lemma_cell_children(coord@);
            lemma2_to64();
        }
        let child_coords = coord.child_coords();
        let mut children: Vec<CellTree<3>> = Vec::new();
        let mut i: usize = 0;
        while i < 8
            invariant
                i <= 8,
                0 < min_depth <= max_depth,
                child_coords.len() == 8,
                is_cell(coord@),
                coord@.len() == 3,
                coord@[0].depth() + max_depth <= 62,
                same_field(field, old(field)),
                children.len() == i,
                forall|j: int|
                    0 <= j < 8 ==> (#[trigger] child_coords[j])@ == coord_child(coord@, j as nat),
                forall|j: int|
                    0 <= j < i ==> {
                        &&& (#[trigger] children@[j])@ == spec_volume_tree_with_min_depth(
                            old(field),
                            (min_depth - 1) as nat,
                            (max_depth - 1) as nat,
                            coord_child(coord@, j as nat),
                        )
                        &&& children@[j]@.wf(3)
                        &&& children@[j]@.height() <= max_depth - 1
                    },
            decreases 8 - i,
        {
            proof {
                lemma_cell_child(coord@, i as nat);
            }
            let ghost now = *field;
            let child = volume_tree_with_min_depth(
                field,
                min_depth - 1,
                max_depth - 1,
                child_coords[i],
            );
            proof {
                lemma_same_tree_with_min_depth(
                    &now,
                    old(field),
                    (min_depth - 1) as nat,
                    (max_depth - 1) as nat,
                    child_coords[i as int]@,
                );
            }
            children.push(child);
            i += 1;
        }
        proof {
            PartitionTree::<Cell, 3>::lemma_view_interior(children);
            let tree = PartitionTree::<Cell, 3>::Interior(children)@;
            let ch = tree->Interior_0;
            assert(ch =~= spec_min_depth_children(
                old(field),
                min_depth as nat,
                max_depth as nat,
                coord@,
            ));
            lemma_max_height_bound(ch, 0, (max_depth - 1) as nat);
        }
        PartitionTree::Interior(children)
    }
}

/// Two states of a field with the same signs give the same octree.
pub proof fn lemma_same_tree<F: SignField>(a: &F, b: &F, max_depth: nat, coord: Seq<PartitionID>)
    requires
        same_field(a, b),
    ensures
        spec_volume_tree(a, max_depth, coord) == spec_volume_tree(b, max_depth, coord),
    decreases max_depth,
{
    assert(spec_sign_change(a, coord) == spec_sign_change(b, coord)) by {
        if spec_sign_change(a, coord) {
            let k = choose|k: int|
                0 <= k < 8 && a.positive_at(#[trigger] coord_vertex(coord, k as nat))
                    != a.positive_at(coord_vertex(coord, 0));
            assert(b.positive_at(coord_vertex(coord, k as nat)) != b.positive_at(
                coord_vertex(coord, 0),
            ));
        }
        if spec_sign_change(b, coord) {
            let k = choose|k: int|
                0 <= k < 8 && b.positive_at(#[trigger] coord_vertex(coord, k as nat))
                    != b.positive_at(coord_vertex(coord, 0));
            assert(a.positive_at(coord_vertex(coord, k as nat)) != a.positive_at(
                coord_vertex(coord, 0),
            ));
        }
    }
    if max_depth > 0 {
        let ca = spec_volume_children(a, max_depth, coord);
        let cb = spec_volume_children(b, max_depth, coord);
        assert forall|i: int| 0 <= i < 8 implies ca[i] == cb[i] by {
            lemma_same_tree(a, b, (max_depth - 1) as nat, coord_child(coord, i as nat));
        }
        assert(ca =~= cb);
    }
}

/// Two states of a field with the same signs give the same octree.
pub proof fn lemma_same_tree_with_min_depth<F: SignField>(
    a: &F,
    b: &F,
    min_depth: nat,
    max_depth: nat,
    coord: Seq<PartitionID>,
)
    requires
        same_field(a, b),
    ensures
        spec_volume_tree_with_min_depth(a, min_depth, max_depth, coord)
            == spec_volume_tree_with_min_depth(b, min_depth, max_depth, coord),
    decreases min_depth,
{
    if min_depth == 0 {
        lemma_same_tree(a, b, max_depth, coord);
    } else {
        let ca = spec_min_depth_children(a, min_depth, max_depth, coord);
        let cb = spec_min_depth_children(b, min_depth, max_depth, coord);
        assert forall|i: int| 0 <= i < 8 implies ca[i] == cb[i] by {
            lemma_same_tree_with_min_depth(
                a,
                b,
                (min_depth - 1) as nat,
                (max_depth - 1) as nat,
                coord_child(coord, i as nat),
            );
        }
        assert(ca =~= cb);
    }
}

/// The octree of the box: divided `min_depth` times whatever the signs of
/// the field are, then down to `max_depth` wherever the signs at the
/// corners of a cell differ, with a leaf for each such cell of that depth;
/// and without the interior nodes that hold no leaf.
pub open spec fn spec_octree<F: SignField>(field: &F, min_depth: nat, max_depth: nat) -> TreeModel<
    Cell,
> {
    spec_volume_tree_with_min_depth(field, min_depth, max_depth, root_coord(3)).prune()
}

/// The volume cells, the face cells and the edge cells of the partition
/// for the given field.
pub fn build_cell_trees<F: SignField>(field: &mut F, min_depth: usize, max_depth: usize) -> (r: (
    VolumeCellCollection,
    FaceCellCollection,
    EdgeCellCollection,
))
    requires
        min_depth <= max_depth <= 62,
    ensures
        r.0@ == seq![(R3Space(), spec_octree(old(field), min_depth as nat, max_depth as nat))],
        r.1@ == spec_build_from_volume_cells::<2, R2Space>(
            spec_entries(r.0@, 3),
            spec_entries(r.0@, 3).len(),
        ),
        r.2@ == spec_build_from_volume_cells::<1, R1Space>(
            spec_entries(r.0@, 3),
            spec_entries(r.0@, 3).len(),
        ),
        r.0.wf(),
        r.1.wf(),
        r.2.wf(),
        same_field(final(field), old(field)),
{
    let root = PartitionCoord::<3>::default();
    proof {
        lemma_root_is_cell(3);
        assert(root@ =~= root_coord(3));
    }
    let mut volume_tree = volume_tree_with_min_depth(field, min_depth, max_depth, root);
    volume_tree.prune();
    let mut trees: Vec<(R3Space, CellTree<3>)> = Vec::new();
    trees.push((R3Space(), volume_tree));
    let volume_cells = CellCollection::<3, R3Space>(trees);
    proof {
        assert(volume_cells@ =~= seq![
            (R3Space(), spec_octree(old(field), min_depth as nat, max_depth as nat)),
        ]);
        assert(volume_cells.0@[0].1.wf());
    }
    let face_cells = FaceCellCollection::build_from_volume_cells(&volume_cells);
    let edge_cells = EdgeCellCollection::build_from_volume_cells(&volume_cells);
    (volume_cells, face_cells, edge_cells)
}

/// Whether every cell of the list has corners at which the signs of the
/// field differ, and lies at the given depth.
pub open spec fn cells_change_sign<F: SignField>(
    field: &F,
    leaves: Seq<(Seq<PartitionID>, Cell)>,
    depth: int,
) -> bool {
    forall|k: int|
        0 <= k < leaves.len() ==> spec_sign_change(field, (#[trigger] leaves[k]).0)
            && leaves[k].0[0].depth() == depth
}

/// Every leaf of the octree below a cell is a cell of the deepest level, and
/// the signs of the field differ at its corners.
pub proof fn lemma_volume_tree_leaves<F: SignField>(
    field: &F,
    max_depth: nat,
    coord: Seq<PartitionID>,
)
    requires
        is_cell(coord),
        coord[0].depth() + max_depth <= 62,
    ensures
        cells_change_sign(
            field,
            spec_volume_tree(field, max_depth, coord).leaves(coord),
            coord[0].depth() + max_depth,
        ),
    decreases max_depth, 1nat,
{
    if spec_sign_change(field, coord) && max_depth > 0 {
        lemma_volume_children_leaves(field, max_depth, coord, 0);
    }
}

/// Every leaf below the children of a cell, from the child `from` on, is a
/// cell of the deepest level, and the signs of the field differ at its
/// corners.
pub proof fn lemma_volume_children_leaves<F: SignField>(
    field: &F,
    max_depth: nat,
    coord: Seq<PartitionID>,
    from: int,
)
    requires
        is_cell(coord),
        max_depth > 0,
        coord[0].depth() + max_depth <= 62,
        0 <= from,
    ensures
        cells_change_sign(
            field,
            TreeModel::leaves_from(spec_volume_children(field, max_depth, coord), coord, from),
            coord[0].depth() + max_depth,
        ),
    decreases max_depth, 0nat, 8 - from,
{
    let ch = spec_volume_children(field, max_depth, coord);
    if from < 8 {
        let child = coord_child(coord, from as nat);
        lemma_cell_child(coord, from as nat);
        lemma_volume_tree_leaves(field, (max_depth - 1) as nat, child);
        lemma_volume_children_leaves(field, max_depth, coord, from + 1);
        let here = ch[from].leaves(child);
        let rest = TreeModel::leaves_from(ch, coord, from + 1);
        let all = here + rest;
        assert forall|k: int| 0 <= k < all.len() implies spec_sign_change(
            field,
            (#[trigger] all[k]).0,
        ) && all[k].0[0].depth() == coord[0].depth() + max_depth by {
            if k < here.len() {
                assert(all[k] == here[k]);
            } else {
                assert(all[k] == rest[k - here.len()]);
            }
        }
    }
}

/// Every leaf of the octree below a cell that is first divided whatever
/// the signs are is a cell of the deepest level, and the signs of the field
/// differ at its corners.
pub proof fn lemma_min_depth_tree_leaves<F: SignField>(
    field: &F,
    min_depth: nat,
    max_depth: nat,
    coord: Seq<PartitionID>,
)
    requires
        is_cell(coord),
        min_depth <= max_depth,
        coord[0].depth() + max_depth <= 62,
    ensures
        cells_change_sign(
            field,
            spec_volume_tree_with_min_depth(field, min_depth, max_depth, coord).leaves(coord),
            coord[0].depth() + max_depth,
        ),
    decreases min_depth, 1nat,
{
    if min_depth == 0 {
        lemma_volume_tree_leaves(field, max_depth, coord);
    } else {
        lemma_min_depth_children_leaves(field, min_depth, max_depth, coord, 0);
    }
}

/// The same, for the children of a cell from the child `from` on.
pub proof fn lemma_min_depth_children_leaves<F: SignField>(
    field: &F,
    min_depth: nat,
    max_depth: nat,
    coord: Seq<PartitionID>,
    from: int,
)
    requires
        is_cell(coord),
        0 < min_depth <= max_depth,
        coord[0].depth() + max_depth <= 62,
        0 <= from,
    ensures
        cells_change_sign(
            field,
            TreeModel::leaves_from(
                spec_min_depth_children(field, min_depth, max_depth, coord),
                coord,
                from,
            ),
            coord[0].depth() + max_depth,
        ),
    decreases min_depth, 0nat, 8 - from,
{
    let ch = spec_min_depth_children(field, min_depth, max_depth, coord);
    if from < 8 {
        let child = coord_child(coord, from as nat);
        lemma_cell_child(coord, from as nat);
        lemma_min_depth_tree_leaves(
            field,
            (min_depth - 1) as nat,
            (max_depth - 1) as nat,
            child,
        );
        lemma_min_depth_children_leaves(field, min_depth, max_depth, coord, from + 1);
        let here = ch[from].leaves(child);
        let rest = TreeModel::leaves_from(ch, coord, from + 1);
        let all = here + rest;
        assert forall|k: int| 0 <= k < all.len() implies spec_sign_change(
            field,
            (#[trigger] all[k]).0,
        ) && all[k].0[0].depth() == coord[0].depth() + max_depth by {
            if k < here.len() {
                assert(all[k] == here[k]);
            } else {
                assert(all[k] == rest[k - here.len()]);
            }
        }
    }
}

/// Every volume cell of the octree of the box lies at the greatest depth,
/// and the signs of the field differ at its corners.
pub proof fn lemma_octree_cells_change_sign<F: SignField>(
    field: &F,
    min_depth: nat,
    max_depth: nat,
)
    requires
        min_depth <= max_depth <= 62,
    ensures
        cells_change_sign(
            field,
            spec_octree(field, min_depth, max_depth).leaves(root_coord(3)),
            max_depth as int,
        ),
{
    lemma_root_is_cell(3);
    lemma_min_depth_tree_leaves(field, min_depth, max_depth, root_coord(3));
    crate::partition::tree_laws::lemma_prune_leaves(
        spec_volume_tree_with_min_depth(field, min_depth, max_depth, root_coord(3)),
        root_coord(3),
    );
}

} // verus!
