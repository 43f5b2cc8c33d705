use isosurface_simplex::partition::{PartitionCoord, PartitionTree};

fn coord_at(path: &[usize]) -> PartitionCoord<3> {
    let mut coord = PartitionCoord::<3>::default();
    for index in path {
        coord = coord.child_coord(*index);
    }
    coord
}

fn listed(tree: &PartitionTree<u32, 3>) -> Vec<(PartitionCoord<3>, u32)> {
    tree.leaves().into_iter().map(|(coord, val)| (coord, *val)).collect()
}

fn next_random(state: &mut u64) -> u64 {
    *state = state.wrapping_mul(6364136223846793005).wrapping_add(1442695040888963407);
    *state >> 33
}

#[test]
fn empty_tree_has_no_leaves() {
    let tree = PartitionTree::<u32, 3>::default();
    assert!(listed(&tree).is_empty());
    assert!(tree.children(&coord_at(&[3, 1])).is_empty());
}

#[test]
fn leaf_at_the_root() {
    let mut tree = PartitionTree::<u32, 3>::default();
    tree.insert_leaf(coord_at(&[]), 7);
    assert!(matches!(tree, PartitionTree::Leaf(7)));
    assert_eq!(listed(&tree), vec![(coord_at(&[]), 7)]);
    tree.insert_leaf(coord_at(&[]), 8);
    assert!(matches!(tree, PartitionTree::Leaf(8)));
}

#[test]
fn inserting_below_a_leaf_splits_it() {
    let mut tree = PartitionTree::<u32, 3>::default();
    tree.insert_leaf(coord_at(&[2]), 1);
    tree.insert_leaf(coord_at(&[2, 5]), 2);
    assert_eq!(listed(&tree), vec![(coord_at(&[2, 5]), 2)]);
}

#[test]
fn inserting_at_an_interior_node_changes_nothing() {
    let mut tree = PartitionTree::<u32, 3>::default();
    tree.insert_leaf(coord_at(&[2, 5]), 2);
    tree.insert_leaf(coord_at(&[2]), 1);
    assert_eq!(listed(&tree), vec![(coord_at(&[2, 5]), 2)]);
    tree.insert_leaf(coord_at(&[]), 3);
    assert_eq!(listed(&tree), vec![(coord_at(&[2, 5]), 2)]);
}

#[test]
fn leaves_come_in_pre_order() {
    let mut tree = PartitionTree::<u32, 3>::default();
    tree.insert_leaf(coord_at(&[7]), 70);
    tree.insert_leaf(coord_at(&[3, 4]), 34);
    tree.insert_leaf(coord_at(&[0, 1, 2]), 12);
    tree.insert_leaf(coord_at(&[3, 0]), 30);
    tree.insert_leaf(coord_at(&[0, 1, 0]), 10);
    assert_eq!(
        listed(&tree),
        vec![
            (coord_at(&[0, 1, 0]), 10),
            (coord_at(&[0, 1, 2]), 12),
            (coord_at(&[3, 0]), 30),
            (coord_at(&[3, 4]), 34),
            (coord_at(&[7]), 70),
        ]
    );
}

#[test]
fn children_lists_the_leaves_below_a_coordinate() {
    let mut tree = PartitionTree::<u32, 3>::default();
    tree.insert_leaf(coord_at(&[7]), 70);
    tree.insert_leaf(coord_at(&[3, 4]), 34);
    tree.insert_leaf(coord_at(&[3, 0, 6]), 306);
    tree.insert_leaf(coord_at(&[3, 0, 1]), 301);
    let below: Vec<_> =
        tree.children(&coord_at(&[3])).into_iter().map(|(c, v)| (c, *v)).collect();
    assert_eq!(
        below,
        vec![
            (coord_at(&[3, 0, 1]), 301),
            (coord_at(&[3, 0, 6]), 306),
            (coord_at(&[3, 4]), 34),
        ]
    );
    let at_leaf: Vec<_> =
        tree.children(&coord_at(&[7])).into_iter().map(|(c, v)| (c, *v)).collect();
    assert_eq!(at_leaf, vec![(coord_at(&[7]), 70)]);
    assert!(tree.children(&coord_at(&[7, 2])).is_empty());
    assert!(tree.children(&coord_at(&[5])).is_empty());
    assert_eq!(tree.children(&coord_at(&[])).len(), 4);
}

#[test]
fn prune_removes_empty_interior_nodes() {
    let mut tree = PartitionTree::<u32, 2>::Interior(vec![
        PartitionTree::Empty,
        PartitionTree::Interior(vec![
            PartitionTree::Empty,
            PartitionTree::Empty,
            PartitionTree::Empty,
            PartitionTree::Empty,
        ]),
        PartitionTree::Leaf(5),
        PartitionTree::Empty,
    ]);
    tree.prune();
    match &tree {
        PartitionTree::Interior(children) => {
            assert!(matches!(children[0], PartitionTree::Empty));
            assert!(matches!(children[1], PartitionTree::Empty));
            assert!(matches!(children[2], PartitionTree::Leaf(5)));
            assert!(matches!(children[3], PartitionTree::Empty));
        }
        _ => panic!("the root holds a leaf and must stay"),
    }
    let mut hollow = PartitionTree::<u32, 1>::Interior(vec![
        PartitionTree::Interior(vec![PartitionTree::Empty, PartitionTree::Empty]),
        PartitionTree::Empty,
    ]);
    hollow.prune();
    assert!(matches!(hollow, PartitionTree::Empty));
}

fn shape(tree: &PartitionTree<u32, 3>) -> String {
    match tree {
        PartitionTree::Empty => String::from("."),
        PartitionTree::Leaf(v) => format!("{}", v),
        PartitionTree::Interior(children) => {
            let inner: Vec<String> = children.iter().map(shape).collect();
            format!("({})", inner.join(" "))
        }
    }
}

#[test]
fn prune_twice_is_prune_once() {
    let mut tree = PartitionTree::<u32, 3>::default();
    tree.insert_leaf(coord_at(&[1, 2, 3]), 1);
    tree.insert_leaf(coord_at(&[1, 2]), 2);
    tree.insert_leaf(coord_at(&[4]), 3);
    if let PartitionTree::Interior(children) = &mut tree {
        children[6] = PartitionTree::Interior((0..8).map(|_| PartitionTree::Empty).collect());
    }
    tree.prune();
    let once = shape(&tree);
    tree.prune();
    assert_eq!(shape(&tree), once);
    assert_eq!(listed(&tree), vec![(coord_at(&[1, 2, 3]), 1), (coord_at(&[4]), 3)]);
}

#[test]
fn hundred_random_leaves_round_trip() {
    let mut state: u64 = 0x2545_f491_4f6c_dd1d;
    let mut paths: Vec<Vec<usize>> = Vec::new();
    while paths.len() < 100 {
        let depth = 1 + (next_random(&mut state) % 6) as usize;
        let path: Vec<usize> =
            (0..depth).map(|_| (next_random(&mut state) % 8) as usize).collect();
        let clashes = paths.iter().any(|p| p.starts_with(&path) || path.starts_with(p));
        if !clashes {
            paths.push(path);
        }
    }
    let mut tree = PartitionTree::<u32, 3>::default();
    for (number, path) in paths.iter().enumerate() {
        tree.insert_leaf(coord_at(path), number as u32);
    }
    tree.prune();

    let mut expected: Vec<(Vec<usize>, u32)> =
        paths.iter().cloned().enumerate().map(|(n, p)| (p, n as u32)).collect();
    expected.sort();
    let expected: Vec<(PartitionCoord<3>, u32)> =
        expected.into_iter().map(|(p, n)| (coord_at(&p), n)).collect();
    assert_eq!(listed(&tree), expected);
    assert_eq!(listed(&tree), expected);
}
