//! Every leaf that is found in a tree at a coordinate is listed with that
//! coordinate when the leaves of the tree are listed.

use crate::partition::coord::{
    all_segments, coord_child, coord_id_at_child, coord_is_root, coord_tree_index, index_bit,
    is_cell, lemma_index_bits, lemma_root_is_unique, lemma_tree_index_bound,
    lemma_tree_index_unfold,
};
use crate::partition::id::{PartitionID, ROOT_ID};
use crate::partition::tree::{
    lemma_cell_child, lemma_descend, lemma_max_height_covers, lemma_root_is_cell, root_coord,
    TreeModel,
};
use vstd::arithmetic::power2::{lemma2_to64_rest, lemma_pow2_unfold};
use vstd::prelude::*;

verus! {

/// Whether `x` is the segment that lies in the segment `c` where `y` lies
/// in the whole interval.
pub open spec fn placed(c: PartitionID, y: PartitionID, x: PartitionID) -> bool {
    x.0 * ROOT_ID == (c.0 - c.half_width()) * ROOT_ID + y.0 * c.half_width()
}

/// The root lies in a segment where the segment itself is.
pub proof fn lemma_placed_root(c: PartitionID)
    requires
        c.is_segment(),
    ensures
        placed(c, PartitionID(ROOT_ID), c),
{
    c.lemma_segment();
    let h = c.half_width() as int;
    let v = c.0 as int;
    assert(v * 0x4000_0000_0000_0000 == (v - h) * 0x4000_0000_0000_0000 + 0x4000_0000_0000_0000
        * h) by (nonlinear_arith);
}

/// What lies in the whole interval lies where it is.
pub proof fn lemma_placed_in_root(y: PartitionID, x: PartitionID)
    requires
        placed(PartitionID(ROOT_ID), y, x),
    ensures
        x == y,
{
    let root = PartitionID(ROOT_ID);
    root.lemma_segment();
    lemma2_to64_rest();
    assert(root.half_width() == 0x4000_0000_0000_0000);
}

/// What lies in a half of a segment, where something lies in the whole
/// interval as seen from its half of the interval, lies in the segment
/// where that thing lies in the whole interval.
pub proof fn lemma_placed_step(c: PartitionID, y: PartitionID, x: PartitionID)
    requires
        c.has_children(),
        y.is_segment(),
        !y.spec_is_root(),
        placed(
            if y.spec_tree_index() == 1 {
                c.spec_high_child()
            } else {
                c.spec_low_child()
            },
            y.spec_id_at_child(),
            x,
        ),
    ensures
        placed(c, y, x),
{
    c.lemma_children();
    c.lemma_segment();
    y.lemma_id_at_child();
    lemma_pow2_unfold(c.zeros());
    let half = (c.half_width() / 2) as int;
    let h = c.half_width() as int;
    let v = c.0 as int;
    let i = y.spec_tree_index() as int;
    let w = y.0 as int;
    let child = if i == 1 {
        c.spec_high_child()
    } else {
        c.spec_low_child()
    };
    let next = y.spec_id_at_child();
    assert(child.half_width() == half);
    assert(h == 2 * half);
    let cv = child.0 as int;
    let nv = next.0 as int;
    assert(i == 0 || i == 1);
    assert(cv == if i == 1 {
        v + half
    } else {
        v - half
    });
    assert(nv == if i == 1 {
        2 * w - 0x8000_0000_0000_0000
    } else {
        2 * w
    });
    let xv = x.0 as int;
    assert(xv * 0x4000_0000_0000_0000 == (cv - half) * 0x4000_0000_0000_0000 + nv * half);
    assert(xv * 0x4000_0000_0000_0000 == (v - h) * 0x4000_0000_0000_0000 + w * h)
        by (nonlinear_arith)
        requires
            xv * 0x4000_0000_0000_0000 == (cv - half) * 0x4000_0000_0000_0000 + nv * half,
            h == 2 * half,
            (cv == v + half && nv == 2 * w - 0x8000_0000_0000_0000) || (cv == v - half && nv == 2
                * w),
    ;
}

/// The cell that lies in the cell `c` where the cell `y` lies in the whole
/// box: the leaf that a tree rooted at `c` holds at the coordinate `y` is
/// listed with this coordinate.
pub open spec fn embed(c: Seq<PartitionID>, y: Seq<PartitionID>) -> Seq<PartitionID>
    decreases y[0].depth(),
    when y.len() >= 1 && all_segments(y)
    via embed_decreases
{
    if coord_is_root(y) {
        c
    } else {
        embed(coord_child(c, coord_tree_index(y)), coord_id_at_child(y))
    }
}

#[via_fn]
proof fn embed_decreases(c: Seq<PartitionID>, y: Seq<PartitionID>) {
    if !coord_is_root(y) {
        lemma_descend(y);
    }
}

/// In each dimension, the embedded cell lies in `c` where `y` lies in the
/// whole box.
pub proof fn lemma_embed_placed(c: Seq<PartitionID>, y: Seq<PartitionID>)
    requires
        is_cell(c),
        is_cell(y),
        c.len() == y.len() <= 3,
        c[0].depth() + y[0].depth() <= 62,
    ensures
        embed(c, y).len() == c.len(),
        forall|d: int| 0 <= d < c.len() ==> placed(c[d], y[d], #[trigger] embed(c, y)[d]),
    decreases y[0].depth(),
{
    if coord_is_root(y) {
        lemma_root_is_cell(y.len());
        lemma_root_is_unique(y, root_coord(y.len()));
        assert forall|d: int| 0 <= d < c.len() implies placed(c[d], y[d], #[trigger] c[d]) by {
            assert(y[d] == PartitionID(ROOT_ID));
            lemma_placed_root(c[d]);
        }
    } else {
        let index = coord_tree_index(y);
        let child = coord_child(c, index);
        let next = coord_id_at_child(y);
        lemma_descend(y);
        lemma_cell_child(c, index);
        lemma_embed_placed(child, next);
        lemma_tree_index_unfold(y);
        lemma_index_bits(index);
        assert forall|d: int| 0 <= d < c.len() implies placed(
            c[d],
            y[d],
            #[trigger] embed(c, y)[d],
        ) by {
            assert(y[d].is_segment() && !y[d].spec_is_root());
            assert(c[d].depth() == c[0].depth());
            assert(index_bit(index, d) == (y[d].spec_tree_index() == 1)) by {
                assert(y[0].spec_tree_index() <= 1);
                if y.len() > 1 {
                    assert(y[1].spec_tree_index() <= 1);
                }
                if y.len() > 2 {
                    assert(y[2].spec_tree_index() <= 1);
                }
            }
            assert(placed(child[d], next[d], embed(child, next)[d]));
            lemma_placed_step(c[d], y[d], embed(c, y)[d]);
        }
    }
}

/// In the whole box a cell is embedded as itself.
pub proof fn lemma_embed_in_root(y: Seq<PartitionID>)
    requires
        is_cell(y),
        y.len() <= 3,
    ensures
        embed(root_coord(y.len()), y) == y,
{
    let root = root_coord(y.len());
    lemma_root_is_cell(y.len());
    y[0].lemma_segment();
    lemma_embed_placed(root, y);
    assert forall|d: int| 0 <= d < y.len() implies embed(root, y)[d] == y[d] by {
        assert(placed(root[d], y[d], embed(root, y)[d]));
        lemma_placed_in_root(y[d], embed(root, y)[d]);
    }
    assert(embed(root, y) =~= y);
}

/// What the leaves of one child list, the leaves of the children list.
pub proof fn lemma_listed_with_children<T>(
    ch: Seq<TreeModel<T>>,
    coord: Seq<PartitionID>,
    from: int,
    i: int,
    leaf: (Seq<PartitionID>, T),
)
    requires
        0 <= from <= i < ch.len(),
        ch[i].leaves(coord_child(coord, i as nat)).contains(leaf),
    ensures
        TreeModel::leaves_from(ch, coord, from).contains(leaf),
    decreases i - from,
{
    let here = ch[from].leaves(coord_child(coord, from as nat));
    let rest = TreeModel::leaves_from(ch, coord, from + 1);
    if from == i {
        let k = choose|k: int| 0 <= k < here.len() && here[k] == leaf;
        assert((here + rest)[k] == leaf);
    } else {
        lemma_listed_with_children(ch, coord, from + 1, i, leaf);
        let k = choose|k: int| 0 <= k < rest.len() && rest[k] == leaf;
        assert((here + rest)[here.len() + k] == leaf);
    }
}

/// A tree that holds a leaf at a coordinate is at least as high as the
/// coordinate is deep.
pub proof fn lemma_found_within_height<T>(tree: TreeModel<T>, at: Seq<PartitionID>, n: nat)
    requires
        tree.wf(n),
        is_cell(at),
        at.len() == n,
        tree.leaf_at(at) is Some,
    ensures
        at[0].depth() <= tree.height(),
    decreases at[0].depth(),
{
    if coord_is_root(at) {
        let i = choose|i: int| 0 <= i < at.len() && (#[trigger] at[i]).spec_is_root();
        at[i].lemma_segment();
    } else {
        lemma_descend(at);
        lemma_tree_index_bound(at);
        match tree {
            TreeModel::Interior(ch) => {
                let index = coord_tree_index(at) as int;
                lemma_found_within_height(ch[index], coord_id_at_child(at), n);
                lemma_max_height_covers(ch, 0, index);
            },
            _ => {},
        }
    }
}

/// The leaf that a tree rooted at the cell `coord` holds at a coordinate is
/// listed, with the cell that lies in `coord` where that coordinate lies in
/// the whole box.
pub proof fn lemma_found_is_listed<T>(
    tree: TreeModel<T>,
    coord: Seq<PartitionID>,
    at: Seq<PartitionID>,
    n: nat,
)
    requires
        tree.wf(n),
        is_cell(at),
        at.len() == n,
        tree.leaf_at(at) is Some,
    ensures
        tree.leaves(coord).contains((embed(coord, at), tree.leaf_at(at)->Some_0)),
    decreases at[0].depth(),
{
    let leaf = (embed(coord, at), tree.leaf_at(at)->Some_0);
    if coord_is_root(at) {
        assert(tree.leaves(coord)[0] == leaf);
    } else {
        lemma_descend(at);
        lemma_tree_index_bound(at);
        match tree {
            TreeModel::Interior(ch) => {
                let index = coord_tree_index(at) as int;
                lemma_found_is_listed(
                    ch[index],
                    coord_child(coord, index as nat),
                    coord_id_at_child(at),
                    n,
                );
                lemma_listed_with_children(ch, coord, 0, index, leaf);
            },
            _ => {},
        }
    }
}

/// Every leaf that a tree holds is listed with its coordinate when the
/// leaves of the tree are listed.
pub proof fn lemma_found_leaves_are_listed<T>(tree: TreeModel<T>, at: Seq<PartitionID>, n: nat)
    requires
        tree.wf(n),
        is_cell(at),
        at.len() == n <= 3,
        tree.leaf_at(at) is Some,
    ensures
        tree.leaves(root_coord(n)).contains((at, tree.leaf_at(at)->Some_0)),
{
    lemma_found_is_listed(tree, root_coord(n), at, n);
    lemma_embed_in_root(at);
}

} // verus!
