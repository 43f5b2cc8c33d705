use isosurface_simplex::partition::{PartitionCoord, PartitionID};
use isosurface_simplex::subspace::{R1Space, R2Space, R3Space, Subspace};
use isosurface_simplex::Dimension;

fn ids() -> (PartitionID, PartitionID, PartitionID, PartitionID) {
    let root = PartitionID::default();
    (root.low_child(), root.high_child(), root.low_child().high_child(), root)
}

fn cell() -> PartitionCoord<3> {
    let root = PartitionID::default();
    PartitionCoord([root.low_child(), root.high_child(), root.low_child().low_child().high_child()])
}

#[test]
fn dimension_has_index_and_name() {
    assert_eq!(Dimension::X.index(), 0);
    assert_eq!(Dimension::Y.index(), 1);
    assert_eq!(Dimension::Z.index(), 2);
    assert_eq!(Dimension::X.name(), "X");
    assert_eq!(Dimension::Y.name(), "Y");
    assert_eq!(Dimension::Z.name(), "Z");
    assert!(Dimension::X < Dimension::Y && Dimension::Y < Dimension::Z);
}

#[test]
fn box_projects_to_itself() {
    let c = cell();
    assert_eq!(R3Space().project_coord(&c), c);
    assert_eq!(R3Space().unproject_coord(&c), c);
    assert_eq!(R3Space().project_vec(&[1.5, 2.5, 3.5]), [1.5, 2.5, 3.5]);
    assert_eq!(R3Space().unproject_vec(&[1.5, 2.5, 3.5], &[0.0, 0.0, 0.0]), [1.5, 2.5, 3.5]);
    assert_eq!(R3Space::volume_cell_intersections(&c), vec![R3Space()]);
}

#[test]
fn planes_drop_the_fixed_component() {
    let (a, b, c, s) = ids();
    let coord = PartitionCoord([a, b, c]);
    assert_eq!(R2Space::YZ(s).project_coord(&coord), PartitionCoord([b, c]));
    assert_eq!(R2Space::XZ(s).project_coord(&coord), PartitionCoord([a, c]));
    assert_eq!(R2Space::XY(s).project_coord(&coord), PartitionCoord([a, b]));
    assert_eq!(R2Space::YZ(s).project_vec(&[1.0, 2.0, 3.0]), [2.0, 3.0]);
    assert_eq!(R2Space::XZ(s).project_vec(&[1.0, 2.0, 3.0]), [1.0, 3.0]);
    assert_eq!(R2Space::XY(s).project_vec(&[1.0, 2.0, 3.0]), [1.0, 2.0]);
}

#[test]
fn planes_put_the_slab_back() {
    let (a, b, _, s) = ids();
    let coord = PartitionCoord([a, b]);
    assert_eq!(R2Space::YZ(s).unproject_coord(&coord), PartitionCoord([s, a, b]));
    assert_eq!(R2Space::XZ(s).unproject_coord(&coord), PartitionCoord([a, s, b]));
    assert_eq!(R2Space::XY(s).unproject_coord(&coord), PartitionCoord([a, b, s]));
    let onto = [0.1, 0.2, 0.3];
    assert_eq!(R2Space::YZ(s).unproject_vec(&[7.0, 8.0], &onto), [0.1, 7.0, 8.0]);
    assert_eq!(R2Space::XZ(s).unproject_vec(&[7.0, 8.0], &onto), [7.0, 0.2, 8.0]);
    assert_eq!(R2Space::XY(s).unproject_vec(&[7.0, 8.0], &onto), [7.0, 8.0, 0.3]);
}

#[test]
fn lines_keep_one_component() {
    let (a, b, c, s) = ids();
    let coord = PartitionCoord([a, b, c]);
    assert_eq!(R1Space::X(s, s).project_coord(&coord), PartitionCoord([a]));
    assert_eq!(R1Space::Y(s, s).project_coord(&coord), PartitionCoord([b]));
    assert_eq!(R1Space::Z(s, s).project_coord(&coord), PartitionCoord([c]));
    assert_eq!(R1Space::X(a, b).unproject_coord(&PartitionCoord([c])), PartitionCoord([c, a, b]));
    assert_eq!(R1Space::Y(a, b).unproject_coord(&PartitionCoord([c])), PartitionCoord([a, c, b]));
    assert_eq!(R1Space::Z(a, b).unproject_coord(&PartitionCoord([c])), PartitionCoord([a, b, c]));
    assert_eq!(R1Space::X(s, s).project_vec(&[1.0, 2.0, 3.0]), [1.0]);
    assert_eq!(R1Space::Y(s, s).project_vec(&[1.0, 2.0, 3.0]), [2.0]);
    assert_eq!(R1Space::Z(s, s).project_vec(&[1.0, 2.0, 3.0]), [3.0]);
    let onto = [0.1, 0.2, 0.3];
    assert_eq!(R1Space::X(s, s).unproject_vec(&[9.0], &onto), [9.0, 0.2, 0.3]);
    assert_eq!(R1Space::Y(s, s).unproject_vec(&[9.0], &onto), [0.1, 9.0, 0.3]);
    assert_eq!(R1Space::Z(s, s).unproject_vec(&[9.0], &onto), [0.1, 0.2, 9.0]);
}

#[test]
fn project_after_unproject_is_identity() {
    let (a, b, c, s) = ids();
    for plane in [R2Space::YZ(s), R2Space::XZ(c), R2Space::XY(a)] {
        for coord in [PartitionCoord([a, b]), PartitionCoord([c, s]), PartitionCoord([b, b])] {
            assert_eq!(plane.project_coord(&plane.unproject_coord(&coord)), coord);
        }
    }
    for line in [R1Space::X(s, a), R1Space::Y(c, b), R1Space::Z(a, a)] {
        for coord in [PartitionCoord([a]), PartitionCoord([c]), PartitionCoord([s])] {
            assert_eq!(line.project_coord(&line.unproject_coord(&coord)), coord);
        }
    }
    let coord = PartitionCoord([a, b, c]);
    assert_eq!(R3Space().project_coord(&R3Space().unproject_coord(&coord)), coord);
}

#[test]
fn planes_are_ordered_by_axis_then_slab() {
    let (a, b, _, _) = ids();
    assert!(a < b);
    assert!(R2Space::YZ(b).precedes(&R2Space::XZ(a)));
    assert!(R2Space::XZ(b).precedes(&R2Space::XY(a)));
    assert!(R2Space::YZ(a).precedes(&R2Space::YZ(b)));
    assert!(!R2Space::YZ(b).precedes(&R2Space::YZ(a)));
    assert!(!R2Space::XY(a).precedes(&R2Space::XY(a)));
    assert!(R2Space::YZ(b) < R2Space::XZ(a) && R2Space::XZ(b) < R2Space::XY(a));
    assert_eq!(R2Space::YZ(a).normal(), Dimension::X);
    assert_eq!(R2Space::XZ(a).normal(), Dimension::Y);
    assert_eq!(R2Space::XY(a).normal(), Dimension::Z);
    assert_eq!(R2Space::XZ(b).slab(), b);
}

#[test]
fn lines_are_ordered_by_axis_then_slabs() {
    let (a, b, _, _) = ids();
    assert!(R1Space::X(b, b).precedes(&R1Space::Y(a, a)));
    assert!(R1Space::Y(b, b).precedes(&R1Space::Z(a, a)));
    assert!(R1Space::X(a, b).precedes(&R1Space::X(b, a)));
    assert!(R1Space::X(a, a).precedes(&R1Space::X(a, b)));
    assert!(!R1Space::X(a, b).precedes(&R1Space::X(a, b)));
    assert!(!R1Space::Z(a, a).precedes(&R1Space::X(b, b)));
    assert!(R1Space::X(a, b) < R1Space::X(b, a) && R1Space::X(b, b) < R1Space::Y(a, a));
    assert_eq!(R1Space::X(a, b).axis(), Dimension::X);
    assert_eq!(R1Space::Y(a, b).axis(), Dimension::Y);
    assert_eq!(R1Space::Z(a, b).axis(), Dimension::Z);
    assert_eq!(R1Space::Z(a, b).slab(), (a, b));
    assert!(!R3Space().precedes(&R3Space()));
}

#[test]
fn six_faces_of_a_volume_cell() {
    let c = cell();
    let PartitionCoord([xl, yl, zl]) = c.low_parents();
    let PartitionCoord([xh, yh, zh]) = c.high_parents();
    assert_eq!(
        R2Space::volume_cell_intersections(&c),
        vec![
            R2Space::YZ(xh),
            R2Space::YZ(xl),
            R2Space::XZ(yl),
            R2Space::XZ(yh),
            R2Space::XY(zl),
            R2Space::XY(zh),
        ]
    );
}

#[test]
fn twelve_edges_of_a_volume_cell() {
    let c = cell();
    let PartitionCoord([xl, yl, zl]) = c.low_parents();
    let PartitionCoord([xh, yh, zh]) = c.high_parents();
    assert_eq!(
        R1Space::volume_cell_intersections(&c),
        vec![
            R1Space::X(yl, zl),
            R1Space::X(yh, zl),
            R1Space::X(yl, zh),
            R1Space::X(yh, zh),
            R1Space::Y(xl, zl),
            R1Space::Y(xh, zl),
            R1Space::Y(xl, zh),
            R1Space::Y(xh, zh),
            R1Space::Z(xl, yl),
            R1Space::Z(xh, yl),
            R1Space::Z(xl, yh),
            R1Space::Z(xh, yh),
        ]
    );
}

#[test]
fn four_edges_of_a_face_cell() {
    let (a, b, _, s) = ids();
    let coord = PartitionCoord([a, b]);
    let PartitionCoord([ul, vl]) = coord.low_parents();
    let PartitionCoord([uh, vh]) = coord.high_parents();
    assert_eq!(
        R2Space::YZ(s).edges(&coord),
        [
            (PartitionCoord([a]), R1Space::Y(s, vl)),
            (PartitionCoord([a]), R1Space::Y(s, vh)),
            (PartitionCoord([b]), R1Space::Z(s, ul)),
            (PartitionCoord([b]), R1Space::Z(s, uh)),
        ]
    );
    assert_eq!(
        R2Space::XZ(s).edges(&coord),
        [
            (PartitionCoord([a]), R1Space::X(s, vl)),
            (PartitionCoord([a]), R1Space::X(s, vh)),
            (PartitionCoord([b]), R1Space::Z(ul, s)),
            (PartitionCoord([b]), R1Space::Z(uh, s)),
        ]
    );
    assert_eq!(
        R2Space::XY(s).edges(&coord),
        [
            (PartitionCoord([a]), R1Space::X(vl, s)),
            (PartitionCoord([a]), R1Space::X(vh, s)),
            (PartitionCoord([b]), R1Space::Y(ul, s)),
            (PartitionCoord([b]), R1Space::Y(uh, s)),
        ]
    );
}

#[test]
fn edges_of_a_face_lie_on_its_boundary() {
    let (a, b, _, s) = ids();
    let coord = PartitionCoord([a, b]);
    for plane in [R2Space::YZ(s), R2Space::XZ(s), R2Space::XY(s)] {
        let center = plane.unproject_coord(&coord);
        let low = plane.unproject_coord(&coord.low_parents());
        let high = plane.unproject_coord(&coord.high_parents());
        for (edge_coord, line) in plane.edges(&coord) {
            let at = line.unproject_coord(&edge_coord);
            let mut moved = 0;
            for d in 0..3 {
                if at.0[d] != center.0[d] {
                    moved += 1;
                    assert!(at.0[d] == low.0[d] || at.0[d] == high.0[d]);
                }
            }
            assert_eq!(moved, 1);
        }
    }
}
