use isosurface_simplex::cells::{build_cell_trees, tetrahedralize, PlaneField};
use isosurface_simplex::isosurface::{classify, extract_mesh};
use isosurface_simplex::mesh::{FaceVert, MeshBuffers};
use isosurface_simplex::partition::{PartitionCoord, PartitionID};
use isosurface_simplex::simplex::SimplexVert;
use isosurface_simplex::{
    find_isosurface, Dimension, SettingsError, SignField, SolverSettings,
};

fn position(coord: &PartitionCoord<3>) -> [f64; 3] {
    let p = coord.norm_pos();
    [
        p[0].0 as f64 / p[0].1 as f64,
        p[1].0 as f64 / p[1].1 as f64,
        p[2].0 as f64 / p[2].1 as f64,
    ]
}

struct Plane {
    height: f64,
    asked: usize,
}

impl SignField for Plane {
    fn positive(&mut self, corner: &PartitionCoord<3>) -> bool {
        self.asked += 1;
        position(corner)[2] - self.height > 0.0
    }

    fn inside(&mut self, vert: &SimplexVert) -> bool {
        self.asked += 1;
        position(&vert.box_coord())[2] - self.height < 0.0
    }
}

fn settings(min: usize, max: usize) -> SolverSettings {
    SolverSettings { min_octree_depth: min, max_octree_depth: max, ..SolverSettings::default() }
}

#[test]
fn default_settings() {
    let s = SolverSettings::default();
    assert_eq!(s.worker_threads, 0);
    assert_eq!(s.min_octree_depth, 3);
    assert_eq!(s.max_octree_depth, 4);
    assert_eq!(s.dual_sample_subdivisions, 1);
    assert_eq!(s.max_vert_fitting_steps, 32);
    assert_eq!(s.validate(), Ok(()));
}

#[test]
fn settings_are_checked() {
    assert_eq!(settings(0, 0).validate(), Ok(()));
    assert_eq!(settings(62, 62).validate(), Ok(()));
    assert_eq!(settings(0, 62).validate(), Ok(()));
    assert_eq!(settings(0, 63).validate(), Err(SettingsError::DepthTooLarge));
    assert_eq!(settings(5, 4).validate(), Err(SettingsError::MinAboveMax));
    assert_eq!(settings(63, 62).validate(), Err(SettingsError::MinAboveMax));
    assert_eq!(settings(70, 64).validate(), Err(SettingsError::DepthTooLarge));
    assert_eq!(SettingsError::DepthTooLarge.message(), "max_octree_depth must be at most 62");
    assert_eq!(
        SettingsError::MinAboveMax.message(),
        "min_octree_depth must not be greater than max_octree_depth"
    );
}

#[test]
fn bad_settings_fail_before_any_work() {
    let mut field = Plane { height: 0.3, asked: 0 };
    assert!(matches!(
        find_isosurface(&mut field, &settings(0, 63)),
        Err(SettingsError::DepthTooLarge)
    ));
    assert!(matches!(
        find_isosurface(&mut field, &settings(3, 2)),
        Err(SettingsError::MinAboveMax)
    ));
    assert_eq!(field.asked, 0);
}

fn mesh_of(field: &mut Plane, min: usize, max: usize) -> MeshBuffers<FaceVert> {
    match find_isosurface(field, &settings(min, max)) {
        Ok(mesh) => mesh,
        Err(_) => panic!("the settings are fine"),
    }
}

#[test]
fn mesh_of_a_plane_is_well_formed() {
    let mut field = Plane { height: 0.3, asked: 0 };
    let MeshBuffers(verts, inds) = mesh_of(&mut field, 1, 3);
    assert!(!verts.is_empty());
    assert_eq!(inds.len() % 3, 0);
    for i in &inds {
        assert!(*i < verts.len());
    }
    for used in 0..verts.len() {
        assert!(inds.contains(&used));
    }
    for (n, vert) in verts.iter().enumerate() {
        assert!(position(&vert.i.box_coord())[2] < 0.3);
        assert!(position(&vert.o.box_coord())[2] >= 0.3);
        assert!(!verts[..n].contains(vert));
        assert_eq!(inds.iter().position(|i| verts[*i] == *vert), inds.iter().position(|i| *i == n));
    }
    let first_seen: Vec<usize> = {
        let mut seen = Vec::new();
        for i in &inds {
            if !seen.contains(i) {
                seen.push(*i);
            }
        }
        seen
    };
    assert_eq!(first_seen, (0..verts.len()).collect::<Vec<usize>>());
}

#[test]
fn same_field_gives_the_same_mesh() {
    let mut field = Plane { height: 0.3, asked: 0 };
    let MeshBuffers(verts, inds) = mesh_of(&mut field, 1, 3);
    let MeshBuffers(verts_again, inds_again) = mesh_of(&mut field, 1, 3);
    assert_eq!(verts, verts_again);
    assert_eq!(inds, inds_again);
}

#[test]
fn field_without_zero_gives_an_empty_mesh() {
    let mut field = Plane { height: 2.0, asked: 0 };
    let MeshBuffers(verts, inds) = mesh_of(&mut field, 3, 4);
    assert!(verts.is_empty());
    assert!(inds.is_empty());
}

#[test]
fn extraction_is_made_of_its_steps() {
    let mut field = Plane { height: 0.3, asked: 0 };
    let (volume, faces, edges) = build_cell_trees(&mut field, 1, 2);
    let tetras = tetrahedralize(&volume, &faces, &edges);
    let inside = classify(&mut field, &tetras);
    assert_eq!(inside.len(), tetras.len());
    for (tetra, sides) in tetras.iter().zip(inside.iter()) {
        for k in 0..4 {
            assert_eq!(sides[k], position(&tetra.verts[k].box_coord())[2] < 0.3);
        }
    }
    let MeshBuffers(verts, inds) = MeshBuffers::new(&tetras, &inside);
    let MeshBuffers(verts_b, inds_b) = extract_mesh(&mut field, &volume, &faces, &edges);
    let MeshBuffers(verts_c, inds_c) = mesh_of(&mut field, 1, 2);
    assert_eq!(verts, verts_b);
    assert_eq!(inds, inds_b);
    assert_eq!(verts, verts_c);
    assert_eq!(inds, inds_c);
}

#[test]
fn plane_of_the_partition_is_cut_exactly() {
    let quarter = PartitionID::default().low_child();
    let eighth = quarter.low_child();
    let three_eighths = quarter.high_child();
    let mut field = PlaneField { axis: Dimension::Y, at: three_eighths };
    assert!(field.positive(&PartitionCoord([quarter, PartitionID::default(), quarter])));
    assert!(!field.positive(&PartitionCoord([quarter, three_eighths, quarter])));
    assert!(!field.positive(&PartitionCoord([quarter, quarter, quarter])));
    assert!(field.inside(&SimplexVert::CellBoundary(PartitionCoord([quarter, eighth, quarter]))));
    assert!(!field.inside(&SimplexVert::CellBoundary(PartitionCoord([
        quarter,
        three_eighths,
        quarter
    ]))));

    let MeshBuffers(verts, inds) = match find_isosurface(&mut field, &settings(1, 2)) {
        Ok(mesh) => mesh,
        Err(_) => panic!("the settings are fine"),
    };
    assert!(!verts.is_empty());
    assert_eq!(inds.len() % 3, 0);
    for vert in &verts {
        assert!(vert.i.box_coord().0[1] < three_eighths);
        assert!(vert.o.box_coord().0[1] >= three_eighths);
    }
    let (volume, _, _) = build_cell_trees(&mut field, 1, 2);
    let cells = volume.entries();
    assert_eq!(cells.len(), 16);
    for cell in cells {
        assert_eq!(cell.coord.low_parents().0[1], quarter);
        assert_eq!(cell.coord.high_parents().0[1], PartitionID::default());
    }
}
