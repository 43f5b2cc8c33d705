//! What holds of the operations on partition trees.

use crate::partition::coord::{
    all_segments, coord_child, coord_id_at_child, coord_is_root, coord_tree_index, is_cell,
    lemma_child_below_root, lemma_child_of_root, lemma_descent_is_injective,
    lemma_root_is_unique, lemma_tree_index_bound,
};
use vstd::arithmetic::power2::pow2;
use crate::partition::id::PartitionID;
use crate::partition::tree::{
    lemma_cell_child, lemma_descend, lemma_empty_children_wf, lemma_max_height_bound,
    lemma_max_height_covers, TreeModel,
};
use vstd::prelude::*;

verus! {

/// After pruning, no interior node has only empty children.
pub proof fn lemma_prune_is_pruned<T>(tree: TreeModel<T>)
    ensures
        tree.prune().is_pruned(),
    decreases tree,
{
    match tree {
        TreeModel::Interior(ch) => {
            let pruned = TreeModel::prune_each(ch);
            assert forall|i: int| 0 <= i < pruned.len() implies (#[trigger] pruned[i]).is_pruned() by {
                lemma_prune_is_pruned(ch[i]);
            }
        },
        _ => {},
    }
}

/// Pruning changes nothing in a tree where no interior node has only empty
/// children.
pub proof fn lemma_prune_fixed<T>(tree: TreeModel<T>)
    requires
        tree.is_pruned(),
    ensures
        tree.prune() == tree,
    decreases tree,
{
    match tree {
        TreeModel::Interior(ch) => {
            let pruned = TreeModel::prune_each(ch);
            assert forall|i: int| 0 <= i < ch.len() implies pruned[i] == ch[i] by {
                lemma_prune_fixed(ch[i]);
            }
            assert(pruned =~= ch);
        },
        _ => {},
    }
}

/// Pruning twice gives what pruning once gives.
pub proof fn lemma_prune_idempotent<T>(tree: TreeModel<T>)
    ensures
        tree.prune().prune() == tree.prune(),
{
    lemma_prune_is_pruned(tree);
    lemma_prune_fixed(tree.prune());
}

/// Pruning keeps a tree well formed and makes it no higher.
pub proof fn lemma_prune_wf<T>(tree: TreeModel<T>, n: nat)
    requires
        tree.wf(n),
    ensures
        tree.prune().wf(n),
        tree.prune().height() <= tree.height(),
    decreases tree,
{
    match tree {
        TreeModel::Interior(ch) => {
            let pruned = TreeModel::prune_each(ch);
            let bound = TreeModel::max_height(ch, 0);
            assert forall|i: int| 0 <= i < pruned.len() implies (#[trigger] pruned[i]).wf(n)
                && pruned[i].height() <= bound by {
                lemma_prune_wf(ch[i], n);
                lemma_max_height_covers(ch, 0, i);
            }
            lemma_max_height_bound(pruned, 0, bound);
        },
        _ => {},
    }
}

/// Pruning keeps every leaf, at its coordinate and in its place in the
/// order.
pub proof fn lemma_prune_leaves<T>(tree: TreeModel<T>, coord: Seq<PartitionID>)
    ensures
        tree.prune().leaves(coord) == tree.leaves(coord),
    decreases tree, 1nat,
{
    match tree {
        TreeModel::Interior(ch) => {
            let pruned = TreeModel::prune_each(ch);
            lemma_prune_leaves_from(ch, coord, 0);
            if TreeModel::all_empty(pruned) {
                lemma_no_leaves_from(pruned, coord, 0);
            }
        },
        _ => {},
    }
}

/// Pruning each child keeps the leaves of the children.
pub proof fn lemma_prune_leaves_from<T>(ch: Seq<TreeModel<T>>, coord: Seq<PartitionID>, from: int)
    requires
        0 <= from,
    ensures
        TreeModel::leaves_from(TreeModel::prune_each(ch), coord, from) == TreeModel::leaves_from(
            ch,
            coord,
            from,
        ),
    decreases ch, 0nat, ch.len() - from,
{
    if from < ch.len() {
        lemma_prune_leaves(ch[from], crate::partition::coord::coord_child(coord, from as nat));
        lemma_prune_leaves_from(ch, coord, from + 1);
    }
}

/// Empty trees hold no leaves.
pub proof fn lemma_no_leaves_from<T>(ch: Seq<TreeModel<T>>, coord: Seq<PartitionID>, from: int)
    requires
        0 <= from,
        TreeModel::all_empty(ch),
    ensures
        TreeModel::leaves_from(ch, coord, from) == Seq::<(Seq<PartitionID>, T)>::empty(),
    decreases ch.len() - from,
{
    if from < ch.len() {
        lemma_no_leaves_from(ch, coord, from + 1);
        assert(ch[from] is Empty);
        assert(ch[from].leaves(crate::partition::coord::coord_child(coord, from as nat))
            =~= Seq::<(Seq<PartitionID>, T)>::empty());
        assert(Seq::<(Seq<PartitionID>, T)>::empty() + Seq::<(Seq<PartitionID>, T)>::empty()
            =~= Seq::<(Seq<PartitionID>, T)>::empty());
    }
}

/// Inserting at a coordinate keeps a tree well formed, and makes it no
/// higher than the greater of its height and the depth of the coordinate.
pub proof fn lemma_insert_wf<T>(tree: TreeModel<T>, coord: Seq<PartitionID>, val: T)
    requires
        coord.len() >= 1,
        all_segments(coord),
        tree.wf(coord.len()),
    ensures
        tree.insert_leaf(coord, val).wf(coord.len()),
        tree.insert_leaf(coord, val).height() <= tree.height() || tree.insert_leaf(
            coord,
            val,
        ).height() <= coord[0].depth(),
    decreases coord[0].depth(),
{
    let n = coord.len();
    if !coord_is_root(coord) {
        lemma_descend(coord);
        lemma_tree_index_bound(coord);
        lemma_empty_children_wf::<T>(n);
        let ch = tree.children_or_empty(n);
        let index = coord_tree_index(coord) as int;
        let next = coord_id_at_child(coord);
        let child = ch[index].insert_leaf(next, val);
        assert(TreeModel::Interior(ch).wf(n));
        assert(ch[index].wf(n));
        lemma_insert_wf(ch[index], next, val);
        let after = ch.update(index, child);
        assert forall|i: int| 0 <= i < after.len() implies (#[trigger] after[i]).wf(n) by {
            if i != index {
                assert(ch[i].wf(n));
            }
        }
        let below: nat = if tree is Interior {
            TreeModel::max_height(ch, 0)
        } else {
            0
        };
        let deep: nat = (coord[0].depth() - 1) as nat;
        assert(next[0].depth() == deep);
        let bound: nat = if below >= deep {
            below
        } else {
            deep
        };
        assert forall|i: int| 0 <= i < after.len() implies (#[trigger] after[i]).height()
            <= bound by {
            if tree is Interior {
                lemma_max_height_covers(ch, 0, if i == index { index } else { i });
            } else {
                assert(ch[i] == TreeModel::<T>::Empty);
            }
        }
        lemma_max_height_bound(after, 0, bound);
    }
}

/// Whether every coordinate of the list names a cell of `n` dimensions, at
/// least as deep as `depth`.
pub open spec fn cells_below<T>(leaves: Seq<(Seq<PartitionID>, T)>, n: nat, depth: int) -> bool {
    forall|k: int|
        0 <= k < leaves.len() ==> {
            &&& is_cell((#[trigger] leaves[k]).0)
            &&& leaves[k].0.len() == n
            &&& depth <= leaves[k].0[0].depth() <= 62
        }
}

/// The leaves of a tree that is rooted at a cell are cells, no shallower
/// than that cell.
pub proof fn lemma_leaves_are_cells<T>(tree: TreeModel<T>, coord: Seq<PartitionID>, n: nat)
    requires
        is_cell(coord),
        coord.len() == n,
        tree.wf(n),
        tree.height() + coord[0].depth() <= 62,
    ensures
        cells_below(tree.leaves(coord), n, coord[0].depth()),
    decreases tree, 1nat,
{
    coord[0].lemma_segment();
    match tree {
        TreeModel::Interior(ch) => {
            lemma_leaves_from_are_cells(ch, coord, 0, n);
        },
        _ => {},
    }
}

/// The leaves of the children of a node at a cell are cells, deeper than
/// that cell.
pub proof fn lemma_leaves_from_are_cells<T>(
    ch: Seq<TreeModel<T>>,
    coord: Seq<PartitionID>,
    from: int,
    n: nat,
)
    requires
        0 <= from,
        is_cell(coord),
        coord.len() == n,
        TreeModel::Interior(ch).wf(n),
        TreeModel::Interior(ch).height() + coord[0].depth() <= 62,
    ensures
        cells_below(TreeModel::leaves_from(ch, coord, from), n, coord[0].depth() + 1),
    decreases ch, 0nat, ch.len() - from,
{
    if from < ch.len() {
        let child = coord_child(coord, from as nat);
        lemma_cell_child(coord, from as nat);
        lemma_max_height_covers(ch, 0, from);
        assert(ch[from].wf(n));
        lemma_leaves_are_cells(ch[from], child, n);
        lemma_leaves_from_are_cells(ch, coord, from + 1, n);
        let here = ch[from].leaves(child);
        let rest = TreeModel::leaves_from(ch, coord, from + 1);
        let all = here + rest;
        assert forall|k: int| 0 <= k < all.len() implies {
            &&& is_cell((#[trigger] all[k]).0)
            &&& all[k].0.len() == n
            &&& coord[0].depth() + 1 <= all[k].0[0].depth() <= 62
        } by {
            if k < here.len() {
                assert(all[k] == here[k]);
            } else {
                assert(all[k] == rest[k - here.len()]);
            }
        }
    }
}

/// Below an interior node at a cell, the subtree at a child of the cell is
/// the child of the node with the same index.
pub proof fn lemma_subtree_child<T>(tree: TreeModel<T>, coord: Seq<PartitionID>, index: nat)
    requires
        is_cell(coord),
        coord.len() <= 3,
        coord[0].depth() <= 61,
        index < pow2(coord.len()),
        tree.subtree(coord) is Interior,
    ensures
        tree.subtree(coord_child(coord, index)) == tree.subtree(coord)->Interior_0[index as int],
        is_cell(coord_child(coord, index)),
    decreases coord[0].depth(),
{
    lemma_cell_child(coord, index);
    let child = coord_child(coord, index);
    if coord_is_root(coord) {
        lemma_child_of_root(coord, index);
        crate::partition::tree::lemma_root_is_cell(coord.len());
        assert(tree.subtree(coord) == tree);
        let ch = tree->Interior_0;
        assert(tree.subtree(child) == ch[index as int].subtree(coord));
    } else {
        lemma_child_below_root(coord, index);
        lemma_descend(coord);
        match tree {
            TreeModel::Interior(ch) => {
                let i = coord_tree_index(coord) as int;
                lemma_subtree_child(ch[i], coord_id_at_child(coord), index);
            },
            _ => {},
        }
    }
}

/// Whether each leaf of the list is found in the tree at its coordinate.
pub open spec fn found_in<T>(tree: TreeModel<T>, leaves: Seq<(Seq<PartitionID>, T)>) -> bool {
    forall|k: int| 0 <= k < leaves.len() ==> tree.leaf_at((#[trigger] leaves[k]).0) == Some(leaves[k].1)
}

/// Each leaf that is listed below a cell is found in the tree at the
/// coordinate that it is listed with.
pub proof fn lemma_leaves_are_found<T>(tree: TreeModel<T>, coord: Seq<PartitionID>, n: nat)
    requires
        is_cell(coord),
        coord.len() == n <= 3,
        tree.subtree(coord).wf(n),
        tree.subtree(coord).height() + coord[0].depth() <= 62,
    ensures
        found_in(tree, tree.subtree(coord).leaves(coord)),
    decreases tree.subtree(coord), 1nat,
{
    match tree.subtree(coord) {
        TreeModel::Interior(ch) => {
            lemma_leaves_from_are_found(tree, coord, 0, n);
        },
        _ => {},
    }
}

/// Each leaf that is listed below the children of a cell is found in the
/// tree at the coordinate that it is listed with.
pub proof fn lemma_leaves_from_are_found<T>(
    tree: TreeModel<T>,
    coord: Seq<PartitionID>,
    from: int,
    n: nat,
)
    requires
        0 <= from,
        is_cell(coord),
        coord.len() == n <= 3,
        tree.subtree(coord) is Interior,
        tree.subtree(coord).wf(n),
        tree.subtree(coord).height() + coord[0].depth() <= 62,
    ensures
        found_in(tree, TreeModel::leaves_from(tree.subtree(coord)->Interior_0, coord, from)),
    decreases tree.subtree(coord), 0nat, tree.subtree(coord)->Interior_0.len() - from,
{
    let ch = tree.subtree(coord)->Interior_0;
    if from < ch.len() {
        let child = coord_child(coord, from as nat);
        lemma_subtree_child(tree, coord, from as nat);
        lemma_cell_child(coord, from as nat);
        lemma_max_height_covers(ch, 0, from);
        assert(ch[from].wf(n));
        lemma_leaves_are_found(tree, child, n);
        lemma_leaves_from_are_found(tree, coord, from + 1, n);
        let here = ch[from].leaves(child);
        let rest = TreeModel::leaves_from(ch, coord, from + 1);
        let all = here + rest;
        assert forall|k: int| 0 <= k < all.len() implies tree.leaf_at((#[trigger] all[k]).0)
            == Some(all[k].1) by {
            if k < here.len() {
                assert(all[k] == here[k]);
            } else {
                assert(all[k] == rest[k - here.len()]);
            }
        }
    }
}

/// A leaf that is found after an insertion is the one inserted, or was
/// there before.
pub proof fn lemma_leaf_at_insert<T>(
    tree: TreeModel<T>,
    coord: Seq<PartitionID>,
    val: T,
    at: Seq<PartitionID>,
)
    requires
        is_cell(coord),
        is_cell(at),
        coord.len() == at.len() <= 3,
        tree.wf(coord.len()),
        tree.insert_leaf(coord, val).leaf_at(at) is Some,
    ensures
        (at == coord && tree.insert_leaf(coord, val).leaf_at(at) == Some(val)) || tree.leaf_at(at)
            == tree.insert_leaf(coord, val).leaf_at(at),
    decreases coord[0].depth(),
{
    let n = coord.len();
    let after = tree.insert_leaf(coord, val);
    if coord_is_root(coord) {
        if !(tree is Interior) {
            if coord_is_root(at) {
                lemma_root_is_unique(at, coord);
            } else {
                assert(after.subtree(at) == TreeModel::<T>::Empty);
            }
        }
    } else {
        lemma_descend(coord);
        lemma_tree_index_bound(coord);
        let ch = tree.children_or_empty(n);
        let index = coord_tree_index(coord) as int;
        let next = coord_id_at_child(coord);
        assert(after == TreeModel::Interior(ch.update(index, ch[index].insert_leaf(next, val))));
        if coord_is_root(at) {
            assert(after.subtree(at) == after);
        } else {
            lemma_descend(at);
            lemma_tree_index_bound(at);
            let at_index = coord_tree_index(at) as int;
            let at_next = coord_id_at_child(at);
            lemma_empty_children_wf::<T>(n);
            assert(TreeModel::Interior(ch).wf(n));
            if at_index == index {
                assert(ch[index].wf(n));
                assert(after.subtree(at) == ch[index].insert_leaf(next, val).subtree(at_next));
                lemma_leaf_at_insert(ch[index], next, val, at_next);
                if at_next == next {
                    lemma_descent_is_injective(at, coord);
                }
                if !(tree is Interior) {
                    assert(ch[index] == TreeModel::<T>::Empty);
                    lemma_empty_has_no_leaf::<T>(at_next);
                }
            } else {
                assert(after.subtree(at) == ch[at_index].subtree(at_next));
                if !(tree is Interior) {
                    assert(ch[at_index] == TreeModel::<T>::Empty);
                    lemma_empty_has_no_leaf::<T>(at_next);
                }
            }
        }
    }
}

/// An empty tree has no leaf.
pub proof fn lemma_empty_has_no_leaf<T>(at: Seq<PartitionID>)
    requires
        at.len() >= 1,
        all_segments(at),
    ensures
        TreeModel::<T>::Empty.leaf_at(at) is None,
{
}

/// After an insertion at a cell below which the tree held nothing but
/// perhaps a leaf, the value is found at that cell.
pub proof fn lemma_inserted_is_found<T>(tree: TreeModel<T>, coord: Seq<PartitionID>, val: T)
    requires
        is_cell(coord),
        coord.len() <= 3,
        tree.wf(coord.len()),
        !(tree.subtree(coord) is Interior),
    ensures
        tree.insert_leaf(coord, val).leaf_at(coord) == Some(val),
    decreases coord[0].depth(),
{
    let n = coord.len();
    if !coord_is_root(coord) {
        lemma_descend(coord);
        lemma_tree_index_bound(coord);
        lemma_empty_children_wf::<T>(n);
        let ch = tree.children_or_empty(n);
        let index = coord_tree_index(coord) as int;
        let next = coord_id_at_child(coord);
        assert(TreeModel::Interior(ch).wf(n));
        assert(ch[index].wf(n));
        if !(tree is Interior) {
            assert(ch[index] == TreeModel::<T>::Empty);
            assert(ch[index].subtree(next) == TreeModel::<T>::Empty);
        }
        lemma_inserted_is_found(ch[index], next, val);
    }
}

} // verus!
