use isosurface_simplex::cells::builder::{sign_change, volume_tree, volume_tree_with_min_depth};
use isosurface_simplex::cells::tetrahedralize::{iterate_edges, iterate_faces, iterate_verts};
use isosurface_simplex::cells::{
    build_cell_trees, tetrahedralize, Cell, CellCollection, EdgeCellCollection,
    FaceCellCollection, SignField, VolumeCellCollection,
};
use isosurface_simplex::partition::{PartitionCoord, PartitionTree};
use isosurface_simplex::simplex::{CellEntry, Simplex, SimplexVert};
use isosurface_simplex::subspace::{R1Space, R2Space, R3Space, Subspace};

fn position(coord: &PartitionCoord<3>) -> [f64; 3] {
    let p = coord.norm_pos();
    [
        p[0].0 as f64 / p[0].1 as f64,
        p[1].0 as f64 / p[1].1 as f64,
        p[2].0 as f64 / p[2].1 as f64,
    ]
}

struct Ball {
    center: [f64; 3],
    radius: f64,
    asked: usize,
}

impl Ball {
    fn new(center: [f64; 3], radius: f64) -> Self {
        Ball { center, radius, asked: 0 }
    }

    fn value(&self, at: [f64; 3]) -> f64 {
        let d: f64 = (0..3).map(|k| (at[k] - self.center[k]) * (at[k] - self.center[k])).sum();
        d - self.radius * self.radius
    }
}

impl SignField for Ball {
    fn positive(&mut self, corner: &PartitionCoord<3>) -> bool {
        self.asked += 1;
        self.value(position(corner)) > 0.0
    }

    fn inside(&mut self, vert: &SimplexVert) -> bool {
        self.asked += 1;
        self.value(position(&vert.box_coord())) < 0.0
    }
}

struct Constant(f64);

impl SignField for Constant {
    fn positive(&mut self, _: &PartitionCoord<3>) -> bool {
        self.0 > 0.0
    }

    fn inside(&mut self, _: &SimplexVert) -> bool {
        self.0 < 0.0
    }
}

fn coord_at(path: &[usize]) -> PartitionCoord<3> {
    let mut coord = PartitionCoord::<3>::default();
    for index in path {
        coord = coord.child_coord(*index);
    }
    coord
}

fn depth(coord: &PartitionCoord<3>) -> u32 {
    62 - coord.0[0].0.trailing_zeros()
}

fn ball() -> Ball {
    Ball::new([0.5, 0.5, 0.5], 0.3)
}

fn changes_sign(field: &Ball, coord: &PartitionCoord<3>) -> bool {
    let signs: Vec<bool> =
        coord.vertex_coords().iter().map(|c| field.value(position(c)) > 0.0).collect();
    signs.iter().any(|s| *s != signs[0])
}

#[test]
fn sign_change_looks_at_the_eight_corners() {
    let mut field = ball();
    assert!(!sign_change(&mut field, coord_at(&[])));
    assert!(sign_change(&mut field, coord_at(&[0])));
    assert!(!sign_change(&mut field, coord_at(&[0, 0])));
    assert!(sign_change(&mut field, coord_at(&[0, 7])));
    let mut flat = Constant(0.0);
    assert!(!sign_change(&mut flat, coord_at(&[0])));
}

#[test]
fn volume_tree_ends_in_leaves_at_the_greatest_depth() {
    let mut field = ball();
    assert!(matches!(volume_tree(&mut field, 0, coord_at(&[0])), PartitionTree::Leaf(Cell)));
    assert!(matches!(volume_tree(&mut field, 0, coord_at(&[0, 0])), PartitionTree::Empty));
    assert!(matches!(volume_tree(&mut field, 2, coord_at(&[])), PartitionTree::Empty));
    let tree = volume_tree(&mut field, 1, coord_at(&[0]));
    match tree {
        PartitionTree::Interior(children) => {
            assert_eq!(children.len(), 8);
            assert!(matches!(children[0], PartitionTree::Empty));
            assert!(matches!(children[7], PartitionTree::Leaf(Cell)));
        }
        _ => panic!("a cell with a sign change above the greatest depth is divided"),
    }
}

#[test]
fn min_depth_divides_whatever_the_signs_are() {
    let mut field = ball();
    let tree = volume_tree_with_min_depth(&mut field, 1, 1, coord_at(&[]));
    match tree {
        PartitionTree::Interior(children) => {
            assert_eq!(children.len(), 8);
            for child in children {
                assert!(matches!(child, PartitionTree::Leaf(Cell)));
            }
        }
        _ => panic!("the root is divided up to the least depth"),
    }
    let mut flat = Constant(1.0);
    let tree = volume_tree_with_min_depth(&mut flat, 2, 3, coord_at(&[]));
    match tree {
        PartitionTree::Interior(children) => match &children[3] {
            PartitionTree::Interior(inner) => {
                assert!(inner.iter().all(|t| matches!(t, PartitionTree::Empty)))
            }
            _ => panic!("the second level is divided too"),
        },
        _ => panic!("the root is divided up to the least depth"),
    }
    assert!(matches!(
        volume_tree_with_min_depth(&mut field, 0, 0, coord_at(&[0])),
        PartitionTree::Leaf(Cell)
    ));
}

#[test]
fn volume_cells_change_sign_at_the_greatest_depth() {
    let mut field = ball();
    let (volume, _, _) = build_cell_trees(&mut field, 1, 3);
    assert_eq!(volume.0.len(), 1);
    let cells = volume.entries();
    assert!(!cells.is_empty());
    for cell in &cells {
        assert_eq!(depth(&cell.coord), 3);
        assert!(changes_sign(&field, &cell.coord));
    }
    let mut all = 0;
    for a in 0..8 {
        for b in 0..8 {
            for c in 0..8 {
                if changes_sign(&field, &coord_at(&[a, b, c])) {
                    all += 1;
                }
            }
        }
    }
    assert_eq!(cells.len(), all);
}

#[test]
fn cells_above_min_depth_without_sign_change_are_left_out() {
    let mut field = Ball::new([0.125, 0.125, 0.125], 0.05);
    let (volume, _, _) = build_cell_trees(&mut field, 0, 3);
    assert!(volume.entries().is_empty());
    let (volume, _, _) = build_cell_trees(&mut field, 3, 3);
    assert_eq!(volume.entries().len(), 8);
}

#[test]
fn constant_field_has_no_cells() {
    let mut field = Constant(1.0);
    let (volume, faces, edges) = build_cell_trees(&mut field, 3, 4);
    assert_eq!(volume.0.len(), 1);
    assert!(matches!(volume.0[0].1, PartitionTree::Empty));
    assert!(volume.entries().is_empty());
    assert!(faces.0.is_empty());
    assert!(edges.0.is_empty());
    assert!(tetrahedralize(&volume, &faces, &edges).is_empty());
}

fn borders<const N: usize, S: Subspace<N> + PartialEq>(
    cell: &CellEntry<N, S>,
    volume: &[CellEntry<3, R3Space>],
) -> bool {
    volume.iter().any(|v| {
        S::volume_cell_intersections(&v.coord).contains(&cell.subspace)
            && cell.subspace.project_coord(&v.coord) == cell.coord
    })
}

#[test]
fn face_and_edge_cells_border_a_volume_cell() {
    let mut field = ball();
    let (volume, faces, edges) = build_cell_trees(&mut field, 1, 3);
    let cells = volume.entries();
    let face_cells = faces.entries();
    let edge_cells = edges.entries();
    assert!(!face_cells.is_empty() && !edge_cells.is_empty());
    for cell in &face_cells {
        assert!(borders(cell, &cells));
    }
    for cell in &edge_cells {
        assert!(borders(cell, &cells));
    }
    for v in &cells {
        for s in R2Space::volume_cell_intersections(&v.coord) {
            let at = s.project_coord(&v.coord);
            assert_eq!(faces.children(&at, &s), vec![CellEntry { subspace: s, coord: at }]);
        }
        for s in R1Space::volume_cell_intersections(&v.coord) {
            let at = s.project_coord(&v.coord);
            assert_eq!(edges.children(&at, &s), vec![CellEntry { subspace: s, coord: at }]);
        }
    }
}

#[test]
fn collections_keep_their_subspaces_in_order() {
    let mut field = ball();
    let (_, faces, edges) = build_cell_trees(&mut field, 1, 3);
    for pair in faces.0.windows(2) {
        assert!(pair[0].0 < pair[1].0);
        assert!(pair[0].0.precedes(&pair[1].0));
    }
    for pair in edges.0.windows(2) {
        assert!(pair[0].0 < pair[1].0);
        assert!(pair[0].0.precedes(&pair[1].0));
    }
    let listed = faces.entries();
    for pair in listed.windows(2) {
        assert!(pair[0].subspace <= pair[1].subspace);
    }
    let again = FaceCellCollection::build_from_volume_cells(&build_cell_trees(&mut field, 1, 3).0);
    assert_eq!(again.entries(), listed);
}

#[test]
fn each_chain_gives_two_tetrahedra() {
    let mut field = ball();
    let (volume, faces, edges) = build_cell_trees(&mut field, 1, 2);
    let cells = volume.entries();
    let tetras = tetrahedralize(&volume, &faces, &edges);
    assert_eq!(tetras.len(), cells.len() * 6 * 4 * 2);
    for (n, tetra) in tetras.iter().enumerate() {
        let v = &cells[n / 48];
        assert_eq!(tetra.verts[0], SimplexVert::VolumeDual(*v));
        let face = match tetra.verts[1] {
            SimplexVert::FaceDual(face) => face,
            _ => panic!("the second vertex is the dual of a face cell"),
        };
        assert_eq!(face.subspace, R2Space::volume_cell_intersections(&v.coord)[(n % 48) / 8]);
        assert_eq!(face.coord, face.subspace.project_coord(&v.coord));
        let edge = match tetra.verts[2] {
            SimplexVert::EdgeDual(edge) => edge,
            _ => panic!("the third vertex is the dual of an edge cell"),
        };
        let (edge_coord, edge_space) = face.subspace.edges(&face.coord)[(n % 8) / 2];
        assert_eq!(edge, CellEntry { subspace: edge_space, coord: edge_coord });
        let end = if n % 2 == 0 { edge.coord.low_parents() } else { edge.coord.high_parents() };
        assert_eq!(tetra.verts[3], SimplexVert::CellBoundary(edge.subspace.unproject_coord(&end)));
        assert!(v.coord.vertex_coords().contains(&edge.subspace.unproject_coord(&end)));
    }
}

fn volume_of(cells: &[PartitionCoord<3>]) -> VolumeCellCollection {
    let mut volume = VolumeCellCollection::new();
    for cell in cells {
        volume.insert_cell(R3Space(), *cell);
    }
    volume
}

#[test]
fn finer_neighbours_replace_a_coarse_face_cell() {
    let coarse = coord_at(&[0]);
    let fine = coord_at(&[1, 0]);
    let volume = volume_of(&[coarse, fine]);
    assert_eq!(volume.entries().len(), 2);
    let faces = FaceCellCollection::build_from_volume_cells(&volume);
    let edges = EdgeCellCollection::build_from_volume_cells(&volume);

    let shared = R2Space::YZ(coarse.high_parents().0[0]);
    assert_eq!(shared, R2Space::YZ(fine.low_parents().0[0]));
    let coarse_face = shared.project_coord(&coarse);
    let fine_face = shared.project_coord(&fine);
    assert_eq!(
        faces.children(&coarse_face, &shared),
        vec![CellEntry { subspace: shared, coord: fine_face }]
    );

    let tetras = tetrahedralize(&volume, &faces, &edges);
    let crossing: Vec<&Simplex<4>> = tetras
        .iter()
        .filter(|t| {
            t.verts[0] == SimplexVert::VolumeDual(CellEntry { subspace: R3Space(), coord: coarse })
                && t.verts[1]
                    == SimplexVert::FaceDual(CellEntry { subspace: shared, coord: fine_face })
        })
        .collect();
    assert_eq!(crossing.len(), 8);
}

#[test]
fn coarse_cells_inserted_later_do_not_replace_finer_ones() {
    let mut faces = FaceCellCollection::new();
    let s = R2Space::XY(PartitionCoord::<1>::default().0[0]);
    let fine = PartitionCoord::<2>::default().child_coord(2).child_coord(1);
    let coarse = PartitionCoord::<2>::default().child_coord(2);
    faces.insert_cell(s, fine);
    faces.insert_cell(s, coarse);
    assert_eq!(faces.entries(), vec![CellEntry { subspace: s, coord: fine }]);
    assert!(faces.children(&coarse, &R2Space::XZ(s.slab())).is_empty());
    let other = PartitionCoord::<2>::default().child_coord(3);
    assert!(faces.children(&other, &s).is_empty());
}

#[test]
fn chains_can_be_walked_step_by_step() {
    let mut field = ball();
    let (volume, faces, edges) = build_cell_trees(&mut field, 1, 2);
    let cell = volume.entries()[0];
    let simplex = Simplex { verts: [SimplexVert::VolumeDual(cell)] };
    let mut all = Vec::new();
    iterate_faces(&cell.coord, &faces, &edges, simplex, &mut all);
    assert_eq!(all.len(), 48);
    assert_eq!(all, tetrahedralize(&volume, &faces, &edges)[..48].to_vec());

    let face = match all[0].verts[1] {
        SimplexVert::FaceDual(face) => face,
        _ => panic!("the second vertex is the dual of a face cell"),
    };
    let mut of_face = Vec::new();
    iterate_edges(
        &face.coord,
        &face.subspace,
        &edges,
        simplex.add(SimplexVert::FaceDual(face)),
        &mut of_face,
    );
    assert_eq!(of_face, all[..8].to_vec());

    let edge = match all[0].verts[2] {
        SimplexVert::EdgeDual(edge) => edge,
        _ => panic!("the third vertex is the dual of an edge cell"),
    };
    let mut of_edge = Vec::new();
    iterate_verts(
        &edge.coord,
        &edge.subspace,
        simplex.add(SimplexVert::FaceDual(face)).add(SimplexVert::EdgeDual(edge)),
        &mut of_edge,
    );
    assert_eq!(of_edge, all[..2].to_vec());
}

#[test]
fn empty_collection_is_well_formed() {
    let cells = CellCollection::<1, R1Space>::new();
    assert!(cells.entries().is_empty());
    assert!(cells.children(&PartitionCoord::default(), &R1Space::X(
        PartitionCoord::<1>::default().0[0],
        PartitionCoord::<1>::default().0[0],
    )).is_empty());
}
