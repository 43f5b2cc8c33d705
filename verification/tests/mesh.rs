use isosurface_simplex::mesh::{Face, FaceVert, MeshBuffers};
use isosurface_simplex::partition::{PartitionCoord, PartitionID};
use isosurface_simplex::simplex::{CellEntry, Simplex, SimplexVert};
use isosurface_simplex::subspace::{R1Space, R2Space, R3Space};

fn tetra() -> Simplex<4> {
    let root = PartitionID::default();
    let lo = root.low_child();
    let hi = root.high_child();
    Simplex {
        verts: [
            SimplexVert::VolumeDual(CellEntry {
                subspace: R3Space(),
                coord: PartitionCoord([lo, lo, lo]),
            }),
            SimplexVert::FaceDual(CellEntry {
                subspace: R2Space::XY(root),
                coord: PartitionCoord([lo, lo]),
            }),
            SimplexVert::EdgeDual(CellEntry {
                subspace: R1Space::X(root, root),
                coord: PartitionCoord([lo]),
            }),
            SimplexVert::CellBoundary(PartitionCoord([hi, root, root])),
        ],
    }
}

fn fv(t: &Simplex<4>, i: usize, o: usize) -> FaceVert {
    FaceVert { i: t.verts[i], o: t.verts[o] }
}

fn tris(inside: [bool; 4]) -> Vec<[(usize, usize); 3]> {
    let t = tetra();
    let faces = MeshBuffers::tetra_tris(&inside, &t);
    faces
        .iter()
        .map(|face| {
            let mut out = [(9, 9); 3];
            for (k, vert) in face.0.iter().enumerate() {
                let i = t.verts.iter().position(|v| *v == vert.i).unwrap();
                let o = t.verts.iter().position(|v| *v == vert.o).unwrap();
                out[k] = (i, o);
            }
            out
        })
        .collect()
}

#[test]
fn no_triangle_without_a_sign_change() {
    assert!(tris([true, true, true, true]).is_empty());
    assert!(tris([false, false, false, false]).is_empty());
}

#[test]
fn one_triangle_where_one_vertex_is_alone() {
    assert_eq!(tris([true, true, true, false]), vec![[(0, 3), (1, 3), (2, 3)]]);
    assert_eq!(tris([false, false, false, true]), vec![[(3, 0), (3, 1), (3, 2)]]);
    assert_eq!(tris([true, true, false, true]), vec![[(0, 2), (1, 2), (3, 2)]]);
    assert_eq!(tris([false, false, true, false]), vec![[(2, 0), (2, 1), (2, 3)]]);
    assert_eq!(tris([true, false, true, true]), vec![[(0, 1), (2, 1), (3, 1)]]);
    assert_eq!(tris([false, true, false, false]), vec![[(1, 0), (1, 2), (1, 3)]]);
    assert_eq!(tris([false, true, true, true]), vec![[(1, 0), (2, 0), (3, 0)]]);
    assert_eq!(tris([true, false, false, false]), vec![[(0, 1), (0, 2), (0, 3)]]);
}

#[test]
fn two_triangles_where_two_vertices_are_on_each_side() {
    assert_eq!(
        tris([true, true, false, false]),
        vec![[(0, 2), (0, 3), (1, 3)], [(1, 3), (1, 2), (0, 2)]]
    );
    assert_eq!(
        tris([false, false, true, true]),
        vec![[(2, 0), (3, 0), (3, 1)], [(3, 1), (2, 1), (2, 0)]]
    );
    assert_eq!(
        tris([true, false, true, false]),
        vec![[(0, 1), (0, 3), (2, 3)], [(2, 3), (2, 1), (0, 1)]]
    );
    assert_eq!(
        tris([false, true, false, true]),
        vec![[(1, 0), (3, 0), (3, 2)], [(3, 2), (1, 2), (1, 0)]]
    );
    assert_eq!(
        tris([true, false, false, true]),
        vec![[(0, 1), (0, 2), (3, 2)], [(3, 2), (3, 1), (0, 1)]]
    );
    assert_eq!(
        tris([false, true, true, false]),
        vec![[(1, 0), (2, 0), (2, 3)], [(2, 3), (1, 3), (1, 0)]]
    );
}

#[test]
fn every_crossing_leads_from_inside_to_outside() {
    for mask in 0..16u32 {
        let inside = [mask & 1 != 0, mask & 2 != 0, mask & 4 != 0, mask & 8 != 0];
        let count = inside.iter().filter(|b| **b).count();
        let found = tris(inside);
        let expected = match count {
            0 | 4 => 0,
            2 => 2,
            _ => 1,
        };
        assert_eq!(found.len(), expected);
        for tri in found {
            for (i, o) in tri {
                assert!(inside[i] && !inside[o]);
            }
        }
    }
}

#[test]
fn tri_and_quad_build_faces() {
    let t = tetra();
    let (a, b, c, d) = (&t.verts[0], &t.verts[1], &t.verts[2], &t.verts[3]);
    let one = Face::tri((a, d), (b, d), (c, d));
    assert_eq!(one, vec![Face([fv(&t, 0, 3), fv(&t, 1, 3), fv(&t, 2, 3)])]);
    let two = Face::quad((a, c), (a, d), (b, d), (b, c));
    assert_eq!(
        two,
        vec![
            Face([fv(&t, 0, 2), fv(&t, 0, 3), fv(&t, 1, 3)]),
            Face([fv(&t, 1, 3), fv(&t, 1, 2), fv(&t, 0, 2)]),
        ]
    );
    assert_eq!(FaceVert::from((a, b)), fv(&t, 0, 1));
    assert!(fv(&t, 0, 1).same(&fv(&t, 0, 1)));
    assert!(!fv(&t, 0, 1).same(&fv(&t, 1, 0)));
}

#[test]
fn buffers_list_each_crossing_once() {
    let t = tetra();
    let faces = vec![
        Face([fv(&t, 0, 2), fv(&t, 0, 3), fv(&t, 1, 3)]),
        Face([fv(&t, 1, 3), fv(&t, 1, 2), fv(&t, 0, 2)]),
        Face([fv(&t, 2, 0), fv(&t, 0, 2), fv(&t, 1, 2)]),
    ];
    let MeshBuffers(verts, inds) = MeshBuffers::collect_buffers(&faces);
    assert_eq!(
        verts,
        vec![fv(&t, 0, 2), fv(&t, 0, 3), fv(&t, 1, 3), fv(&t, 1, 2), fv(&t, 2, 0)]
    );
    assert_eq!(inds, vec![0, 1, 2, 2, 3, 0, 4, 0, 3]);
}

#[test]
fn marching_goes_through_the_tetrahedra_in_order() {
    let t = tetra();
    let tetras = vec![t, t, t];
    let inside =
        vec![[true, false, false, false], [true, true, true, true], [true, true, false, false]];
    let faces = MeshBuffers::marching_tetrahedra(&tetras, &inside);
    assert_eq!(
        faces,
        vec![
            Face([fv(&t, 0, 1), fv(&t, 0, 2), fv(&t, 0, 3)]),
            Face([fv(&t, 0, 2), fv(&t, 0, 3), fv(&t, 1, 3)]),
            Face([fv(&t, 1, 3), fv(&t, 1, 2), fv(&t, 0, 2)]),
        ]
    );
    let MeshBuffers(verts, inds) = MeshBuffers::new(&tetras, &inside);
    assert_eq!(verts, vec![fv(&t, 0, 1), fv(&t, 0, 2), fv(&t, 0, 3), fv(&t, 1, 3), fv(&t, 1, 2)]);
    assert_eq!(inds, vec![0, 1, 2, 1, 2, 3, 3, 4, 1]);
}

#[test]
fn simplices_grow_by_one_vertex() {
    let t = tetra();
    let one = Simplex { verts: [t.verts[0]] };
    let two = one.add(t.verts[1]);
    assert_eq!(two.verts, [t.verts[0], t.verts[1]]);
    let three = two.add(t.verts[2]);
    assert_eq!(three.verts, [t.verts[0], t.verts[1], t.verts[2]]);
    assert_eq!(three.add(t.verts[3]), t);
}

#[test]
fn vertices_know_where_they_are_in_the_box() {
    let t = tetra();
    let root = PartitionID::default();
    let lo = root.low_child();
    let hi = root.high_child();
    assert_eq!(t.verts[0].box_coord(), PartitionCoord([lo, lo, lo]));
    assert_eq!(t.verts[1].box_coord(), PartitionCoord([lo, lo, root]));
    assert_eq!(t.verts[2].box_coord(), PartitionCoord([lo, root, root]));
    assert_eq!(t.verts[3].box_coord(), PartitionCoord([hi, root, root]));
    assert!(t.verts[0].same(&t.verts[0]));
    assert!(!t.verts[0].same(&t.verts[1]));
    assert!(!t.verts[3].same(&SimplexVert::CellBoundary(PartitionCoord([lo, root, root]))));
}
