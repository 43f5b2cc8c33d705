use isosurface_simplex::partition::PartitionID;

fn position(id: &PartitionID) -> f64 {
    let (num, den) = id.norm_pos();
    num as f64 / den as f64
}

#[test]
fn parent_is_inverse_of_child() {
    let mut id = PartitionID::default();
    let root = PartitionID::default();

    for _ in 0..60 {
        id = id.low_child();
    }

    for _ in 0..60 {
        id = id.high_parent();
    }

    assert_eq!(id, root);
}

#[test]
fn partition_position() {
    let mut id = PartitionID::default();
    let mut expected_pos = 0.5;

    for _ in 0..60 {
        assert_eq!(position(&id), expected_pos);

        id = id.low_child();
        expected_pos /= 2.0;
    }
}

#[test]
fn id_at_child_reaches_root() {
    let mut id = PartitionID::default();
    let root = PartitionID::default();

    for _ in 0..20 {
        id = id.high_child();
    }

    for _ in 0..20 {
        assert!(!id.is_root());
        id = id.id_at_child();
    }

    assert!(id.is_root());
    assert_eq!(id, root);
}

#[test]
fn max_min_id_pos() {
    let root = PartitionID::default();

    let max = root.high_parent();
    assert_eq!(position(&max), 1.0);

    let min = root.low_parent();
    assert_eq!(position(&min), 0.0);
}

#[test]
fn root_is_half_of_the_interval() {
    let root = PartitionID::default();
    assert_eq!(root, PartitionID(1 << 62));
    assert!(root.is_root());
    assert_eq!(root.norm_pos(), (1, 2));
    assert_eq!(root.low_parent(), PartitionID(0));
    assert_eq!(root.high_parent(), PartitionID(1 << 63));
}

#[test]
fn children_are_quarter_points() {
    let root = PartitionID::default();
    let low = root.low_child();
    let high = root.high_child();
    assert_eq!(low, PartitionID(1 << 61));
    assert_eq!(high, PartitionID((1 << 62) + (1 << 61)));
    assert_eq!(low.norm_pos(), (1, 4));
    assert_eq!(high.norm_pos(), (3, 4));
    assert_eq!(high.low_child().norm_pos(), (5, 8));
    assert_eq!(high.high_child().norm_pos(), (7, 8));
}

#[test]
fn parents_are_the_bounds_of_the_segment() {
    let id = PartitionID::default().high_child().low_child();
    assert_eq!(id.norm_pos(), (5, 8));
    assert_eq!(id.low_parent().norm_pos(), (1, 2));
    assert_eq!(id.high_parent().norm_pos(), (3, 4));
}

#[test]
fn child_then_parent_gives_the_segment_back() {
    let mut id = PartitionID::default();
    for step in 0..62 {
        assert_eq!(id.low_child().high_parent(), id);
        assert_eq!(id.high_child().low_parent(), id);
        id = if step % 3 == 0 { id.high_child() } else { id.low_child() };
    }
    assert_eq!(id.0.trailing_zeros(), 0);
}

#[test]
fn tree_index_tells_the_half() {
    let root = PartitionID::default();
    assert_eq!(root.low_child().tree_index(), 0);
    assert_eq!(root.high_child().tree_index(), 1);
    assert_eq!(root.low_child().high_child().tree_index(), 0);
    assert_eq!(root.high_child().low_child().tree_index(), 1);
    assert_eq!(root.tree_index(), 1);
}

#[test]
fn id_at_child_steps_towards_the_root() {
    let root = PartitionID::default();
    let id = root.high_child().low_child();
    assert_eq!(id.id_at_child(), root.low_child());
    assert_eq!(id.id_at_child().id_at_child(), root);
    assert_eq!(root.id_at_child(), PartitionID(0));
    assert_eq!(PartitionID(1 << 63).id_at_child(), PartitionID(0));
}

#[test]
fn ends_of_the_interval_have_positions() {
    assert_eq!(PartitionID(0).norm_pos(), (0, 1));
    assert_eq!(PartitionID(1 << 63).norm_pos(), (1, 1));
    assert_eq!(PartitionID(1).norm_pos(), (1, 1 << 63));
}
