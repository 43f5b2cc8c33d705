//! The tetrahedra of the partition: one for every chain of a volume cell, a
//! face cell on its boundary, an edge cell on the boundary of that face, and
//! an end of that edge.

use crate::cells::collection::{
    entries_view, lookup, spec_entries, tag, Cell, VolumeCellCollection,
};
use crate::cells::{EdgeCellCollection, FaceCellCollection};
use crate::partition::coord::{
    all_segments, coord_high_parents, coord_low_parents, is_cell, PartitionCoord,
};
use crate::partition::id::PartitionID;
use crate::partition::tree::TreeModel;
use crate::simplex::{Simplex, SimplexVert, VertModel};
use crate::subspace::{edges_view, R1Space, R2Space, R3Space, Subspace};
use vstd::prelude::*;

verus! {

/// The two tetrahedra that end a chain: the given triangle with the lower
/// end of the edge cell, and with its upper end.
pub open spec fn spec_iterate_verts(
    coord: Seq<PartitionID>,
    subspace: R1Space,
    simplex: Seq<VertModel>,
) -> Seq<Seq<VertModel>> {
    seq![
        simplex.push(
            VertModel::CellBoundary(subspace.spec_unproject_coord(coord_low_parents(coord))),
        ),
        simplex.push(
            VertModel::CellBoundary(subspace.spec_unproject_coord(coord_high_parents(coord))),
        ),
    ]
}

/// The tetrahedra on the given segment and the first `k` of the given edge
/// cells.
pub open spec fn spec_edge_cells_tetras(
    cells: Seq<(R1Space, Seq<PartitionID>)>,
    simplex: Seq<VertModel>,
    k: nat,
) -> Seq<Seq<VertModel>>
    decreases k,
{
    if k == 0 {
        Seq::empty()
    } else {
        let cell = cells[k - 1];
        spec_edge_cells_tetras(cells, simplex, (k - 1) as nat) + spec_iterate_verts(
            cell.1,
            cell.0,
            simplex.push(VertModel::EdgeDual(cell.0, cell.1)),
        )
    }
}

/// The edge cells at or below a coordinate of a line.
pub open spec fn cells_at<const N: usize, S: Subspace<N>>(
    cells: Seq<(S, TreeModel<Cell>)>,
    coord: Seq<PartitionID>,
    subspace: S,
) -> Seq<(S, Seq<PartitionID>)> {
    tag(subspace, lookup(cells, subspace).subtree(coord).leaves(coord))
}

/// The tetrahedra on the given segment and the edge cells on the first `j`
/// edges of the face cell.
pub open spec fn spec_iterate_edges(
    face_coord: Seq<PartitionID>,
    face_subspace: R2Space,
    edge_cells: Seq<(R1Space, TreeModel<Cell>)>,
    simplex: Seq<VertModel>,
    j: nat,
) -> Seq<Seq<VertModel>>
    decreases j,
{
    if j == 0 {
        Seq::empty()
    } else {
        let edge = face_subspace.spec_edges(face_coord)[j - 1];
        let cells = cells_at(edge_cells, edge.0, edge.1);
        spec_iterate_edges(face_coord, face_subspace, edge_cells, simplex, (j - 1) as nat)
            + spec_edge_cells_tetras(cells, simplex, cells.len())
    }
}

/// The tetrahedra on the given vertex and the first `k` of the given face
/// cells.
pub open spec fn spec_face_cells_tetras(
    cells: Seq<(R2Space, Seq<PartitionID>)>,
    edge_cells: Seq<(R1Space, TreeModel<Cell>)>,
    simplex: Seq<VertModel>,
    k: nat,
) -> Seq<Seq<VertModel>>
    decreases k,
{
    if k == 0 {
        Seq::empty()
    } else {
        let cell = cells[k - 1];
        spec_face_cells_tetras(cells, edge_cells, simplex, (k - 1) as nat) + spec_iterate_edges(
            cell.1,
            cell.0,
            edge_cells,
            simplex.push(VertModel::FaceDual(cell.0, cell.1)),
            4,
        )
    }
}

/// The tetrahedra on the given vertex and the face cells on the first `j`
/// faces of the volume cell.
pub open spec fn spec_iterate_faces(
    volume_coord: Seq<PartitionID>,
    face_cells: Seq<(R2Space, TreeModel<Cell>)>,
    edge_cells: Seq<(R1Space, TreeModel<Cell>)>,
    simplex: Seq<VertModel>,
    j: nat,
) -> Seq<Seq<VertModel>>
    decreases j,
{
    if j == 0 {
        Seq::empty()
    } else {
        let subspace = R2Space::spec_volume_cell_intersections(volume_coord)[j - 1];
        let cells = cells_at(face_cells, subspace.spec_project_coord(volume_coord), subspace);
        spec_iterate_faces(volume_coord, face_cells, edge_cells, simplex, (j - 1) as nat)
            + spec_face_cells_tetras(cells, edge_cells, simplex, cells.len())
    }
}

/// The tetrahedra of the first `m` of the given volume cells.
pub open spec fn spec_volume_cells_tetras(
    cells: Seq<(R3Space, Seq<PartitionID>)>,
    face_cells: Seq<(R2Space, TreeModel<Cell>)>,
    edge_cells: Seq<(R1Space, TreeModel<Cell>)>,
    m: nat,
) -> Seq<Seq<VertModel>>
    decreases m,
{
    if m == 0 {
        Seq::empty()
    } else {
        let cell = cells[m - 1];
        spec_volume_cells_tetras(cells, face_cells, edge_cells, (m - 1) as nat)
            + spec_iterate_faces(
            cell.1,
            face_cells,
            edge_cells,
            seq![VertModel::VolumeDual(cell.0, cell.1)],
            6,
        )
    }
}

/// Every tetrahedron of the partition: for each volume cell, each face
/// cell at or below one of its six faces, each edge cell at or below one of
/// the four edges of that face cell, and each end of that edge cell, the
/// tetrahedron on the duals of the three cells and that end.
pub open spec fn spec_tetrahedralize(
    volume_cells: Seq<(R3Space, TreeModel<Cell>)>,
    face_cells: Seq<(R2Space, TreeModel<Cell>)>,
    edge_cells: Seq<(R1Space, TreeModel<Cell>)>,
) -> Seq<Seq<VertModel>> {
    let cells = spec_entries(volume_cells, 3);
    spec_volume_cells_tetras(cells, face_cells, edge_cells, cells.len())
}

/// What a list of tetrahedra says: the four vertices of each.
pub open spec fn simplices_view(s: Seq<Simplex<4>>) -> Seq<Seq<VertModel>> {
    Seq::new(s.len(), |k: int| s[k]@)
}

/// Every tetrahedron of the partition.
pub fn tetrahedralize(
    volume_cells: &VolumeCellCollection,
    face_cells: &FaceCellCollection,
    edge_cells: &EdgeCellCollection,
) -> (r: Vec<Simplex<4>>)
    requires
        volume_cells.wf(),
        face_cells.wf(),
        edge_cells.wf(),
    ensures
        simplices_view(r@) == spec_tetrahedralize(volume_cells@, face_cells@, edge_cells@),
{
    let mut tetras: Vec<Simplex<4>> = Vec::new();
    let cells = volume_cells.entries();
    let ghost all = spec_entries(volume_cells@, 3);
    let mut m: usize = 0;
    proof {
        assert(simplices_view(tetras@) =~= Seq::empty());
    }
    while m < cells.len()
        invariant
            m <= cells.len(),
            face_cells.wf(),
            edge_cells.wf(),
            all == entries_view(cells@),
            forall|k: int| 0 <= k < cells@.len() ==> is_cell((#[trigger] cells@[k]).coord@),
            simplices_view(tetras@) == spec_volume_cells_tetras(
                all,
                face_cells@,
                edge_cells@,
                m as nat,
            ),
        decreases cells.len() - m,
    {
        let volume_cell = cells[m];
        let simplex = Simplex { verts: [SimplexVert::VolumeDual(volume_cell)] };
        proof {
            assert(all[m as int] == volume_cell@);
            assert(simplex@ =~= seq![VertModel::VolumeDual(volume_cell.subspace, volume_cell.coord@)]);
        }
        iterate_faces(&volume_cell.coord, face_cells, edge_cells, simplex, &mut tetras);
        m += 1;
    }
    tetras
}

/// The tetrahedra on the dual of a volume cell, appended to `tetras`.
pub fn iterate_faces(
    volume_coord: &PartitionCoord<3>,
    face_cells: &FaceCellCollection,
    edge_cells: &EdgeCellCollection,
    simplex: Simplex<1>,
    tetras: &mut Vec<Simplex<4>>,
)
    requires
        is_cell(volume_coord@),
        face_cells.wf(),
        edge_cells.wf(),
    ensures
        simplices_view(final(tetras)@) == simplices_view(old(tetras)@) + spec_iterate_faces(
            volume_coord@,
            face_cells@,
            edge_cells@,
            simplex@,
            6,
        ),
{
    let subspaces = R2Space::volume_cell_intersections(volume_coord);
    let mut j: usize = 0;
    proof {
        assert(simplices_view(tetras@) + Seq::<Seq<VertModel>>::empty() =~= simplices_view(
            tetras@,
        ));
    }
    while j < subspaces.len()
        invariant
            j <= subspaces.len() == 6,
            is_cell(volume_coord@),
            volume_coord@.len() == 3,
            face_cells.wf(),
            edge_cells.wf(),
            subspaces@ == R2Space::spec_volume_cell_intersections(volume_coord@),
            simplices_view(tetras@) == simplices_view(old(tetras)@) + spec_iterate_faces(
                volume_coord@,
                face_cells@,
                edge_cells@,
                simplex@,
                j as nat,
            ),
        decreases subspaces.len() - j,
    {
        let face_subspace = subspaces[j];
        let face_coord = face_subspace.project_coord(volume_coord);
        proof {
            face_subspace.lemma_project_cell(volume_coord@);
        }
        let cells = face_cells.children(&face_coord, &face_subspace);
        let ghost list = cells_at(face_cells@, face_coord@, face_subspace);
        let ghost start = simplices_view(tetras@);
        let mut k: usize = 0;
        proof {
            assert(start + Seq::<Seq<VertModel>>::empty() =~= start);
        }
        while k < cells.len()
            invariant
                k <= cells.len(),
                edge_cells.wf(),
                list == entries_view(cells@),
                forall|i: int| 0 <= i < cells@.len() ==> is_cell((#[trigger] cells@[i]).coord@),
                simplices_view(tetras@) == start + spec_face_cells_tetras(
                    list,
                    edge_cells@,
                    simplex@,
                    k as nat,
                ),
            decreases cells.len() - k,
        {
            let face_cell = cells[k];
            let next = simplex.add(SimplexVert::FaceDual(face_cell));
            let ghost before = simplices_view(tetras@);
            proof {
                assert(list[k as int] == face_cell@);
            }
            iterate_edges(&face_cell.coord, &face_cell.subspace, edge_cells, next, tetras);
            proof {
                let done = spec_face_cells_tetras(list, edge_cells@, simplex@, k as nat);
                let here = spec_iterate_edges(
                    face_cell.coord@,
                    face_cell.subspace,
                    edge_cells@,
                    next@,
                    4,
                );
                assert((start + done) + here =~= start + (done + here));
            }
            k += 1;
        }
        proof {
            let done = spec_iterate_faces(
                volume_coord@,
                face_cells@,
                edge_cells@,
                simplex@,
                j as nat,
            );
            let here = spec_face_cells_tetras(list, edge_cells@, simplex@, list.len());
            assert((simplices_view(old(tetras)@) + done) + here =~= simplices_view(old(tetras)@)
                + (done + here));
        }
        j += 1;
    }
}

/// The tetrahedra on the duals of a volume cell and of a face cell,
/// appended to `tetras`.
pub fn iterate_edges(
    face_coord: &PartitionCoord<2>,
    face_subspace: &R2Space,
    edge_cells: &EdgeCellCollection,
    simplex: Simplex<2>,
    tetras: &mut Vec<Simplex<4>>,
)
    requires
        is_cell(face_coord@),
        edge_cells.wf(),
    ensures
        simplices_view(final(tetras)@) == simplices_view(old(tetras)@) + spec_iterate_edges(
            face_coord@,
            *face_subspace,
            edge_cells@,
            simplex@,
            4,
        ),
{
    let edges = face_subspace.edges(face_coord);
    let mut j: usize = 0;
    proof {
        assert(simplices_view(tetras@) + Seq::<Seq<VertModel>>::empty() =~= simplices_view(
            tetras@,
        ));
    }
    while j < 4
        invariant
            j <= 4,
            is_cell(face_coord@),
            face_coord@.len() == 2,
            edge_cells.wf(),
            edges_view(edges@) == face_subspace.spec_edges(face_coord@),
            simplices_view(tetras@) == simplices_view(old(tetras)@) + spec_iterate_edges(
                face_coord@,
                *face_subspace,
                edge_cells@,
                simplex@,
                j as nat,
            ),
        decreases 4 - j,
    {
        let edge_coord = edges[j].0;
        let edge_subspace = edges[j].1;
        proof {
            let edge = face_subspace.spec_edges(face_coord@)[j as int];
            assert(edges_view(edges@)[j as int] == edge);
            assert(edge_coord@ == edge.0 && edge_subspace == edge.1);
            lemma_edge_is_cell(*face_subspace, face_coord@, j as int);
        }
        let cells = edge_cells.children(&edge_coord, &edge_subspace);
        let ghost list = cells_at(edge_cells@, edge_coord@, edge_subspace);
        let ghost start = simplices_view(tetras@);
        let mut k: usize = 0;
        proof {
            assert(start + Seq::<Seq<VertModel>>::empty() =~= start);
        }
        while k < cells.len()
            invariant
                k <= cells.len(),
                list == entries_view(cells@),
                forall|i: int| 0 <= i < cells@.len() ==> is_cell((#[trigger] cells@[i]).coord@),
                simplices_view(tetras@) == start + spec_edge_cells_tetras(
                    list,
                    simplex@,
                    k as nat,
                ),
            decreases cells.len() - k,
        {
            let edge_cell = cells[k];
            let next = simplex.add(SimplexVert::EdgeDual(edge_cell));
            proof {
                assert(list[k as int] == edge_cell@);
            }
            iterate_verts(&edge_cell.coord, &edge_cell.subspace, next, tetras);
            proof {
                let done = spec_edge_cells_tetras(list, simplex@, k as nat);
                let here = spec_iterate_verts(edge_cell.coord@, edge_cell.subspace, next@);
                assert((start + done) + here =~= start + (done + here));
            }
            k += 1;
        }
        proof {
            let done = spec_iterate_edges(
                face_coord@,
                *face_subspace,
                edge_cells@,
                simplex@,
                j as nat,
            );
            let here = spec_edge_cells_tetras(list, simplex@, list.len());
            assert((simplices_view(old(tetras)@) + done) + here =~= simplices_view(old(tetras)@)
                + (done + here));
        }
        j += 1;
    }
}

/// Each edge of a face cell is a cell of its line.
pub proof fn lemma_edge_is_cell(face_subspace: R2Space, face_coord: Seq<PartitionID>, j: int)
    requires
        is_cell(face_coord),
        face_coord.len() == 2,
        0 <= j < 4,
    ensures
        is_cell(face_subspace.spec_edges(face_coord)[j].0),
        face_subspace.spec_edges(face_coord)[j].0.len() == 1,
{
    assert(face_coord[0].is_segment() && face_coord[1].is_segment());
}

/// The two tetrahedra on the duals of a volume cell, a face cell and an
/// edge cell, appended to `tetras`.
pub fn iterate_verts(
    coord: &PartitionCoord<1>,
    subspace: &R1Space,
    simplex: Simplex<3>,
    tetras: &mut Vec<Simplex<4>>,
)
    requires
        all_segments(coord@),
    ensures
        simplices_view(final(tetras)@) == simplices_view(old(tetras)@) + spec_iterate_verts(
            coord@,
            *subspace,
            simplex@,
        ),
{
    tetras.push(simplex.add(SimplexVert::CellBoundary(subspace.unproject_coord(&coord.low_parents()))));
    tetras.push(
        simplex.add(SimplexVert::CellBoundary(subspace.unproject_coord(&coord.high_parents()))),
    );
    proof {
        assert(simplices_view(tetras@) =~= simplices_view(old(tetras)@) + spec_iterate_verts(
            coord@,
            *subspace,
            simplex@,
        ));
    }
}

/// Whether a simplex is a chain: the dual of a volume cell, the dual of a
/// face cell, the dual of an edge cell and a corner, in this order.
pub open spec fn is_chain(simplex: Seq<VertModel>) -> bool {
    &&& simplex.len() == 4
    &&& simplex[0] is VolumeDual
    &&& simplex[1] is FaceDual
    &&& simplex[2] is EdgeDual
    &&& simplex[3] is CellBoundary
}

/// Whether every simplex of the list is a chain.
pub open spec fn all_chains(tetras: Seq<Seq<VertModel>>) -> bool {
    forall|k: int| 0 <= k < tetras.len() ==> is_chain(#[trigger] tetras[k])
}

/// Two lists of chains in a row are a list of chains.
pub proof fn lemma_chains_join(a: Seq<Seq<VertModel>>, b: Seq<Seq<VertModel>>)
    requires
        all_chains(a),
        all_chains(b),
    ensures
        all_chains(a + b),
{
    assert forall|k: int| 0 <= k < (a + b).len() implies is_chain(#[trigger] (a + b)[k]) by {
        if k < a.len() {
            assert((a + b)[k] == a[k]);
        } else {
            assert((a + b)[k] == b[k - a.len()]);
        }
    }
}

/// The tetrahedra on the duals of a volume cell and a face cell are chains.
pub proof fn lemma_edge_cells_tetras_are_chains(
    cells: Seq<(R1Space, Seq<PartitionID>)>,
    simplex: Seq<VertModel>,
    k: nat,
)
    requires
        simplex.len() == 2,
        simplex[0] is VolumeDual,
        simplex[1] is FaceDual,
    ensures
        all_chains(spec_edge_cells_tetras(cells, simplex, k)),
    decreases k,
{
    if k > 0 {
        lemma_edge_cells_tetras_are_chains(cells, simplex, (k - 1) as nat);
        let cell = cells[k - 1];
        let here = spec_iterate_verts(
            cell.1,
            cell.0,
            simplex.push(VertModel::EdgeDual(cell.0, cell.1)),
        );
        assert(is_chain(here[0]) && is_chain(here[1]));
        lemma_chains_join(spec_edge_cells_tetras(cells, simplex, (k - 1) as nat), here);
    }
}

/// The tetrahedra on the edges of a face cell are chains.
pub proof fn lemma_iterate_edges_gives_chains(
    face_coord: Seq<PartitionID>,
    face_subspace: R2Space,
    edge_cells: Seq<(R1Space, TreeModel<Cell>)>,
    simplex: Seq<VertModel>,
    j: nat,
)
    requires
        simplex.len() == 2,
        simplex[0] is VolumeDual,
        simplex[1] is FaceDual,
    ensures
        all_chains(spec_iterate_edges(face_coord, face_subspace, edge_cells, simplex, j)),
    decreases j,
{
    if j > 0 {
        lemma_iterate_edges_gives_chains(
            face_coord,
            face_subspace,
            edge_cells,
            simplex,
            (j - 1) as nat,
        );
        let edge = face_subspace.spec_edges(face_coord)[j - 1];
        let cells = cells_at(edge_cells, edge.0, edge.1);
        lemma_edge_cells_tetras_are_chains(cells, simplex, cells.len());
        lemma_chains_join(
            spec_iterate_edges(face_coord, face_subspace, edge_cells, simplex, (j - 1) as nat),
            spec_edge_cells_tetras(cells, simplex, cells.len()),
        );
    }
}

/// The tetrahedra on the dual of a volume cell and some face cells are
/// chains.
pub proof fn lemma_face_cells_tetras_are_chains(
    cells: Seq<(R2Space, Seq<PartitionID>)>,
    edge_cells: Seq<(R1Space, TreeModel<Cell>)>,
    simplex: Seq<VertModel>,
    k: nat,
)
    requires
        simplex.len() == 1,
        simplex[0] is VolumeDual,
    ensures
        all_chains(spec_face_cells_tetras(cells, edge_cells, simplex, k)),
    decreases k,
{
    if k > 0 {
        lemma_face_cells_tetras_are_chains(cells, edge_cells, simplex, (k - 1) as nat);
        let cell = cells[k - 1];
        let next = simplex.push(VertModel::FaceDual(cell.0, cell.1));
        lemma_iterate_edges_gives_chains(cell.1, cell.0, edge_cells, next, 4);
        lemma_chains_join(
            spec_face_cells_tetras(cells, edge_cells, simplex, (k - 1) as nat),
            spec_iterate_edges(cell.1, cell.0, edge_cells, next, 4),
        );
    }
}

/// The tetrahedra on the faces of a volume cell are chains.
pub proof fn lemma_iterate_faces_gives_chains(
    volume_coord: Seq<PartitionID>,
    face_cells: Seq<(R2Space, TreeModel<Cell>)>,
    edge_cells: Seq<(R1Space, TreeModel<Cell>)>,
    simplex: Seq<VertModel>,
    j: nat,
)
    requires
        simplex.len() == 1,
        simplex[0] is VolumeDual,
    ensures
        all_chains(spec_iterate_faces(volume_coord, face_cells, edge_cells, simplex, j)),
    decreases j,
{
    if j > 0 {
        lemma_iterate_faces_gives_chains(
            volume_coord,
            face_cells,
            edge_cells,
            simplex,
            (j - 1) as nat,
        );
        let subspace = R2Space::spec_volume_cell_intersections(volume_coord)[j - 1];
        let cells = cells_at(face_cells, subspace.spec_project_coord(volume_coord), subspace);
        lemma_face_cells_tetras_are_chains(cells, edge_cells, simplex, cells.len());
        lemma_chains_join(
            spec_iterate_faces(volume_coord, face_cells, edge_cells, simplex, (j - 1) as nat),
            spec_face_cells_tetras(cells, edge_cells, simplex, cells.len()),
        );
    }
}

/// The tetrahedra of some volume cells are chains.
pub proof fn lemma_volume_cells_tetras_are_chains(
    cells: Seq<(R3Space, Seq<PartitionID>)>,
    face_cells: Seq<(R2Space, TreeModel<Cell>)>,
    edge_cells: Seq<(R1Space, TreeModel<Cell>)>,
    m: nat,
)
    ensures
        all_chains(spec_volume_cells_tetras(cells, face_cells, edge_cells, m)),
    decreases m,
{
    if m > 0 {
        lemma_volume_cells_tetras_are_chains(cells, face_cells, edge_cells, (m - 1) as nat);
        let cell = cells[m - 1];
        let simplex = seq![VertModel::VolumeDual(cell.0, cell.1)];
        lemma_iterate_faces_gives_chains(cell.1, face_cells, edge_cells, simplex, 6);
        lemma_chains_join(
            spec_volume_cells_tetras(cells, face_cells, edge_cells, (m - 1) as nat),
            spec_iterate_faces(cell.1, face_cells, edge_cells, simplex, 6),
        );
    }
}

/// Every tetrahedron of the partition is a chain of a volume dual, a face
/// dual, an edge dual and a corner.
pub proof fn lemma_tetrahedra_are_chains(
    volume_cells: Seq<(R3Space, TreeModel<Cell>)>,
    face_cells: Seq<(R2Space, TreeModel<Cell>)>,
    edge_cells: Seq<(R1Space, TreeModel<Cell>)>,
)
    ensures
        all_chains(spec_tetrahedralize(volume_cells, face_cells, edge_cells)),
{
    let cells = spec_entries(volume_cells, 3);
    lemma_volume_cells_tetras_are_chains(cells, face_cells, edge_cells, cells.len());
}

} // verus!
