use isosurface_simplex::partition::{PartitionCoord, PartitionID};

fn root3() -> PartitionCoord<3> {
    PartitionCoord::default()
}

#[test]
fn default_coord_is_root_in_every_component() {
    let root = root3();
    assert_eq!(root.0, [PartitionID::default(); 3]);
    assert!(root.is_root());
    assert_eq!(root.norm_pos(), [(1, 2), (1, 2), (1, 2)]);
}

#[test]
fn is_root_when_any_component_is() {
    let root = PartitionID::default();
    let mixed = PartitionCoord([root.low_child(), root, root.high_child()]);
    assert!(mixed.is_root());
    let none = PartitionCoord([root.low_child(), root.high_child()]);
    assert!(!none.is_root());
}

#[test]
fn child_coords_follow_the_bits_of_the_index() {
    let root = PartitionID::default();
    let lo = root.low_child();
    let hi = root.high_child();
    let children = root3().child_coords();
    assert_eq!(children.len(), 8);
    assert_eq!(children[0].0, [lo, lo, lo]);
    assert_eq!(children[1].0, [hi, lo, lo]);
    assert_eq!(children[2].0, [lo, hi, lo]);
    assert_eq!(children[3].0, [hi, hi, lo]);
    assert_eq!(children[4].0, [lo, lo, hi]);
    assert_eq!(children[5].0, [hi, lo, hi]);
    assert_eq!(children[6].0, [lo, hi, hi]);
    assert_eq!(children[7].0, [hi, hi, hi]);
    for (index, child) in children.iter().enumerate() {
        assert_eq!(child.tree_index(), index);
        assert_eq!(child.id_at_child(), root3());
        assert_eq!(*child, root3().child_coord(index));
    }
}

#[test]
fn child_coords_in_one_and_two_dimensions() {
    let root = PartitionID::default();
    let lo = root.low_child();
    let hi = root.high_child();
    let line = PartitionCoord::<1>::default().child_coords();
    assert_eq!(line.len(), 2);
    assert_eq!(line[0].0, [lo]);
    assert_eq!(line[1].0, [hi]);
    let plane = PartitionCoord::<2>::default().child_coords();
    assert_eq!(plane.len(), 4);
    assert_eq!(plane[0].0, [lo, lo]);
    assert_eq!(plane[1].0, [hi, lo]);
    assert_eq!(plane[2].0, [lo, hi]);
    assert_eq!(plane[3].0, [hi, hi]);
}

#[test]
fn vertex_coords_are_the_corners() {
    let root = PartitionID::default();
    let cell = PartitionCoord([root.low_child(), root.high_child()]);
    let corners = cell.vertex_coords();
    assert_eq!(corners.len(), 4);
    assert_eq!(corners[0].norm_pos(), [(0, 1), (1, 2)]);
    assert_eq!(corners[1].norm_pos(), [(1, 2), (1, 2)]);
    assert_eq!(corners[2].norm_pos(), [(0, 1), (1, 1)]);
    assert_eq!(corners[3].norm_pos(), [(1, 2), (1, 1)]);
    assert_eq!(corners[0], cell.low_parents());
    assert_eq!(corners[3], cell.high_parents());
    for (index, corner) in corners.iter().enumerate() {
        assert_eq!(*corner, cell.vertex_coord(index));
    }
}

#[test]
fn center_lies_on_the_boundary_of_each_child() {
    let mut cell = root3();
    for round in 0..5 {
        let children = cell.child_coords();
        for (index, child) in children.iter().enumerate() {
            let low = child.low_parents();
            let high = child.high_parents();
            for d in 0..3 {
                assert!(low.0[d].0 <= cell.0[d].0 && cell.0[d].0 <= high.0[d].0);
                assert!(low.0[d].0 < high.0[d].0);
                if (index >> d) & 1 == 1 {
                    assert_eq!(low.0[d], cell.0[d]);
                } else {
                    assert_eq!(high.0[d], cell.0[d]);
                }
            }
        }
        cell = children[(round * 3 + 1) % 8];
    }
}

#[test]
fn coords_are_ordered_lexicographically() {
    let root = PartitionID::default();
    let lo = root.low_child();
    let hi = root.high_child();
    let a = PartitionCoord([lo, hi, hi]);
    let b = PartitionCoord([root, lo, lo]);
    let c = PartitionCoord([root, lo, hi]);
    assert!(a.precedes(&b));
    assert!(b.precedes(&c));
    assert!(a.precedes(&c));
    assert!(!b.precedes(&a));
    assert!(!c.precedes(&c));
    assert!(a < b && b < c);
    assert!(c.same(&PartitionCoord([root, lo, hi])));
    assert!(!c.same(&b));
}
