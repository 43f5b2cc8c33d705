use isosurface_simplex::duals::{insert_in_order, subdivide_coord};
use isosurface_simplex::partition::{PartitionCoord, PartitionID};

#[test]
fn no_subdivision_gives_the_cell() {
    let cell = PartitionCoord::<3>::default().child_coord(5);
    assert_eq!(subdivide_coord(&cell, 0), vec![cell]);
}

#[test]
fn one_subdivision_gives_the_children_in_order() {
    let root = PartitionID::default();
    let lo = root.low_child();
    let hi = root.high_child();
    let cells = subdivide_coord(&PartitionCoord::<2>::default(), 1);
    assert_eq!(
        cells,
        vec![
            PartitionCoord([lo, lo]),
            PartitionCoord([lo, hi]),
            PartitionCoord([hi, lo]),
            PartitionCoord([hi, hi]),
        ]
    );
}

#[test]
fn subdivisions_are_sorted_and_complete() {
    let cell = PartitionCoord::<3>::default().child_coord(3);
    let cells = subdivide_coord(&cell, 2);
    assert_eq!(cells.len(), 64);
    for pair in cells.windows(2) {
        assert!(pair[0] < pair[1]);
    }
    for a in cell.child_coords() {
        for b in a.child_coords() {
            assert!(cells.contains(&b));
        }
    }
    let line = subdivide_coord(&PartitionCoord::<1>::default(), 3);
    let positions: Vec<(u64, u64)> = line.iter().map(|c| c.norm_pos()[0]).collect();
    assert_eq!(
        positions,
        vec![(1, 16), (3, 16), (5, 16), (7, 16), (9, 16), (11, 16), (13, 16), (15, 16)]
    );
}

#[test]
fn insert_in_order_keeps_each_coordinate_once() {
    let root = PartitionID::default();
    let lo = root.low_child();
    let hi = root.high_child();
    let mut list: Vec<PartitionCoord<1>> = Vec::new();
    insert_in_order(&mut list, PartitionCoord([hi]));
    insert_in_order(&mut list, PartitionCoord([lo]));
    insert_in_order(&mut list, PartitionCoord([root]));
    insert_in_order(&mut list, PartitionCoord([lo]));
    assert_eq!(list, vec![PartitionCoord([lo]), PartitionCoord([root]), PartitionCoord([hi])]);
}
