//! Sparse trees over the cells of a binary partition: a binary tree in one
//! dimension, a quadtree in two, an octree in three. Values are stored at the
//! leaves only.

use crate::partition::coord::{
    all_segments, coord_child, coord_id_at_child, coord_is_root, coord_tree_index, fan_out,
    is_cell, lemma_tree_index_bound, PartitionCoord,
};
use crate::partition::id::PartitionID;
use vstd::arithmetic::power2::pow2;
use vstd::prelude::*;

verus! {

/// The mathematical value of a partition tree.
pub enum TreeModel<T> {
    Empty,
    Interior(Seq<TreeModel<T>>),
    Leaf(T),
}

/// The children that an interior node gets when it is created.
pub open spec fn empty_children<T>(n: nat) -> Seq<TreeModel<T>> {
    Seq::new(pow2(n), |i: int| TreeModel::Empty)
}

impl<T> TreeModel<T> {
    /// Every interior node has one child for each combination of halves.
    pub open spec fn wf(self, n: nat) -> bool
        decreases self,
    {
        match self {
            TreeModel::Interior(ch) => {
                &&& ch.len() == pow2(n)
                &&& forall|i: int| 0 <= i < ch.len() ==> (#[trigger] ch[i]).wf(n)
            },
            _ => true,
        }
    }

    /// The number of interior nodes on the longest path from the root.
    pub open spec fn height(self) -> nat
        decreases self,
    {
        match self {
            TreeModel::Interior(ch) => 1 + Self::max_height(ch, 0),
            _ => 0,
        }
    }

    /// The greatest height among the trees from position `from` on.
    pub open spec fn max_height(ch: Seq<TreeModel<T>>, from: int) -> nat
        decreases ch, ch.len() - from,
    {
        if 0 <= from < ch.len() {
            let h = ch[from].height();
            let rest = Self::max_height(ch, from + 1);
            if h >= rest {
                h
            } else {
                rest
            }
        } else {
            0
        }
    }

    /// The children of the node, or those of a fresh interior node where
    /// the node is none.
    pub open spec fn children_or_empty(self, n: nat) -> Seq<TreeModel<T>> {
        match self {
            TreeModel::Interior(ch) => ch,
            _ => empty_children(n),
        }
    }

    /// The tree after a value was inserted at a coordinate. At the
    /// coordinate an interior node stays, and anything else is replaced by
    /// the new leaf. On the way there, whatever is not an interior node is
    /// replaced by one without children.
    pub open spec fn insert_leaf(self, coord: Seq<PartitionID>, val: T) -> TreeModel<T>
        decreases coord[0].depth(),
        when coord.len() >= 1 && all_segments(coord)
        via Self::insert_leaf_decreases
    {
        if coord_is_root(coord) {
            match self {
                TreeModel::Interior(_) => self,
                _ => TreeModel::Leaf(val),
            }
        } else {
            let ch = self.children_or_empty(coord.len());
            let index = coord_tree_index(coord) as int;
            TreeModel::Interior(
                ch.update(index, ch[index].insert_leaf(coord_id_at_child(coord), val)),
            )
        }
    }


    /// Whether every tree of the sequence is empty.
    pub open spec fn all_empty(ch: Seq<TreeModel<T>>) -> bool {
        forall|i: int| 0 <= i < ch.len() ==> (#[trigger] ch[i]) is Empty
    }

    /// The children of an interior node, each pruned.
    pub open spec fn prune_each(ch: Seq<TreeModel<T>>) -> Seq<TreeModel<T>>
        decreases ch, 0nat,
    {
        Seq::new(
            ch.len(),
            |i: int|
                if 0 <= i < ch.len() {
                    ch[i].prune()
                } else {
                    TreeModel::Empty
                },
        )
    }

    /// The tree without the interior nodes that hold no leaf: from the
    /// leaves upwards, an interior node whose children are all empty becomes
    /// empty itself.
    pub open spec fn prune(self) -> TreeModel<T>
        decreases self, 1nat,
    {
        match self {
            TreeModel::Interior(ch) => {
                let pruned = Self::prune_each(ch);
                if Self::all_empty(pruned) {
                    TreeModel::Empty
                } else {
                    TreeModel::Interior(pruned)
                }
            },
            _ => self,
        }
    }

    /// Whether no interior node of the tree has only empty children.
    pub open spec fn is_pruned(self) -> bool
        decreases self,
    {
        match self {
            TreeModel::Interior(ch) => {
                &&& !Self::all_empty(ch)
                &&& forall|i: int| 0 <= i < ch.len() ==> (#[trigger] ch[i]).is_pruned()
            },
            _ => true,
        }
    }

    /// The leaves of the tree in pre-order, each with its coordinate, where
    /// `coord` is the coordinate of the root: the children of a node are
    /// visited in the order of their indices.
    pub open spec fn leaves(self, coord: Seq<PartitionID>) -> Seq<(Seq<PartitionID>, T)>
        decreases self, 0nat,
    {
        match self {
            TreeModel::Empty => Seq::empty(),
            TreeModel::Leaf(v) => seq![(coord, v)],
            TreeModel::Interior(ch) => Self::leaves_from(ch, coord, 0),
        }
    }

    /// The leaves of the children of a node from the child `from` on, where
    /// `coord` is the coordinate of the node.
    pub open spec fn leaves_from(ch: Seq<TreeModel<T>>, coord: Seq<PartitionID>, from: int) -> Seq<
        (Seq<PartitionID>, T),
    >
        decreases ch, ch.len() - from,
    {
        if 0 <= from < ch.len() {
            ch[from].leaves(coord_child(coord, from as nat)) + Self::leaves_from(
                ch,
                coord,
                from + 1,
            )
        } else {
            Seq::empty()
        }
    }

    /// The subtree at a coordinate, empty where the tree does not reach
    /// that far.
    pub open spec fn subtree(self, coord: Seq<PartitionID>) -> TreeModel<T>
        decreases coord[0].depth(),
        when coord.len() >= 1 && all_segments(coord)
        via Self::subtree_decreases
    {
        if coord_is_root(coord) {
            self
        } else {
            match self {
                TreeModel::Interior(ch) => ch[coord_tree_index(coord) as int].subtree(
                    coord_id_at_child(coord),
                ),
                _ => TreeModel::Empty,
            }
        }
    }

    #[via_fn]
    proof fn subtree_decreases(self, coord: Seq<PartitionID>) {
        if !coord_is_root(coord) {
            lemma_descend(coord);
        }
    }

    /// The value of the leaf at a coordinate, if there is one.
    pub open spec fn leaf_at(self, coord: Seq<PartitionID>) -> Option<T> {
        match self.subtree(coord) {
            TreeModel::Leaf(v) => Some(v),
            _ => None,
        }
    }

    #[via_fn]
    proof fn insert_leaf_decreases(self, coord: Seq<PartitionID>, val: T) {
        if !coord_is_root(coord) {
            lemma_descend(coord);
        }
    }
}

/// A fresh interior node is well formed.
pub proof fn lemma_empty_children_wf<T>(n: nat)
    ensures
        TreeModel::<T>::Interior(empty_children(n)).wf(n),
        TreeModel::<T>::Interior(empty_children(n)).height() == 1,
{
    let ch = empty_children::<T>(n);
    assert forall|i: int| 0 <= i < ch.len() implies (#[trigger] ch[i]).wf(n) by {
        assert(ch[i] == TreeModel::<T>::Empty);
    }
    lemma_max_height_bound(ch, 0, 0);
}

/// The greatest height among some trees is no more than a bound on each.
pub proof fn lemma_max_height_bound<T>(ch: Seq<TreeModel<T>>, from: int, bound: nat)
    requires
        0 <= from,
        forall|i: int| from <= i < ch.len() ==> (#[trigger] ch[i]).height() <= bound,
    ensures
        TreeModel::max_height(ch, from) <= bound,
    decreases ch.len() - from,
{
    if from < ch.len() {
        lemma_max_height_bound(ch, from + 1, bound);
    }
}

/// The greatest height among some trees is at least the height of each.
pub proof fn lemma_max_height_covers<T>(ch: Seq<TreeModel<T>>, from: int, i: int)
    requires
        0 <= from <= i < ch.len(),
    ensures
        ch[i].height() <= TreeModel::max_height(ch, from),
    decreases ch.len() - from,
{
    if from < i {
        lemma_max_height_covers(ch, from + 1, i);
    }
}

/// Below the root, a coordinate made of segments is still made of segments
/// when it is seen from the child that holds it, and each is one level
/// nearer to the root.
pub proof fn lemma_descend(coord: Seq<PartitionID>)
    requires
        coord.len() >= 1,
        all_segments(coord),
        !coord_is_root(coord),
    ensures
        all_segments(coord_id_at_child(coord)),
        coord_id_at_child(coord).len() == coord.len(),
        forall|i: int|
            0 <= i < coord.len() ==> (#[trigger] coord_id_at_child(coord)[i]).depth()
                == coord[i].depth() - 1,
        coord[0].depth() >= 1,
        is_cell(coord) ==> is_cell(coord_id_at_child(coord)),
{
    let next = coord_id_at_child(coord);
    assert forall|i: int| 0 <= i < coord.len() implies (#[trigger] next[i]).is_segment()
        && next[i].depth() == coord[i].depth() - 1 by {
        assert(coord[i].is_segment());
        assert(!coord[i].spec_is_root());
        coord[i].lemma_id_at_child();
    }
    coord[0].lemma_segment();
    assert(!coord[0].spec_is_root());
}

/// A sparse tree over the cells of an N-dimensional binary partition.
pub enum PartitionTree<T, const N: usize> {
    Empty,
    Interior(Vec<PartitionTree<T, N>>),
    Leaf(T),
}

impl<T, const N: usize> View for PartitionTree<T, N> {
    type V = TreeModel<T>;

    open spec fn view(&self) -> TreeModel<T> {
        self.model()
    }
}

impl<T, const N: usize> PartitionTree<T, N> {
    /// The mathematical value of the tree.
    pub open spec fn model(&self) -> TreeModel<T>
        decreases self,
    {
        match self {
            PartitionTree::Empty => TreeModel::Empty,
            PartitionTree::Leaf(v) => TreeModel::Leaf(*v),
            PartitionTree::Interior(ch) => TreeModel::Interior(
                Seq::new(
                    ch@.len(),
                    |i: int|
                        if 0 <= i < ch@.len() {
                            ch@[i].model()
                        } else {
                            TreeModel::Empty
                        },
                ),
            ),
        }
    }

    /// Whether the tree is well formed: the dimension is one, two or three,
    /// every interior node has `2^N` children, and no path is longer than
    /// the partition is deep.
    pub open spec fn wf(&self) -> bool {
        &&& 1 <= N <= 3
        &&& self@.wf(N as nat)
        &&& self@.height() <= 62
    }

    /// The value of an interior node holds the values of its children.
    pub proof fn lemma_view_interior(children: Vec<PartitionTree<T, N>>)
        ensures
            PartitionTree::<T, N>::Interior(children)@ is Interior,
            PartitionTree::<T, N>::Interior(children)@->Interior_0.len() == children@.len(),
            forall|i: int|
                0 <= i < children@.len() ==> (#[trigger] PartitionTree::<T, N>::Interior(
                    children,
                )@->Interior_0[i]) == children@[i]@,
    {
        let tree = PartitionTree::<T, N>::Interior(children);
        let seq = Seq::new(
            children@.len(),
            |i: int|
                if 0 <= i < children@.len() {
                    children@[i].model()
                } else {
                    TreeModel::Empty
                },
        );
        assert(tree@ is Interior);
        assert(tree@->Interior_0.len() == children@.len());
        assert forall|i: int| 0 <= i < children@.len() implies tree@->Interior_0[i] == children@[i]@ by {
            assert(tree@->Interior_0[i] == children@[i].model());
        }
    }

    /// A child of an interior node is smaller than the node.
    proof fn lemma_child_decreases(tree: PartitionTree<T, N>, i: int)
        requires
            tree is Interior,
            0 <= i < tree->Interior_0.len(),
        ensures
            decreases_to!(tree => tree->Interior_0[i]),
    {
        match tree {
            PartitionTree::Interior(ch) => {
                assert(decreases_to!(tree => ch));
                assert(decreases_to!(ch => ch[i]));
            },
            _ => {},
        }
    }

    /// A vector of `2^N` empty trees.
    fn new_children() -> (r: Vec<PartitionTree<T, N>>)
        requires
            N <= 3,
        ensures
            PartitionTree::<T, N>::Interior(r)@ == TreeModel::<T>::Interior(
                empty_children(N as nat),
            ),
            r.len() == pow2(N as nat),
    {
        let count = fan_out(N);
        let mut children: Vec<PartitionTree<T, N>> = Vec::new();
        let mut i: usize = 0;
        while i < count
            invariant
                i <= count,
                children.len() == i,
                forall|j: int| 0 <= j < i ==> (#[trigger] children@[j])@ == TreeModel::<T>::Empty,
            decreases count - i,
        {
            children.push(PartitionTree::Empty);
            i += 1;
        }
        proof {
            assert(PartitionTree::<T, N>::Interior(children)@->Interior_0 =~= empty_children::<T>(
                N as nat,
            ));
        }
        children
    }

    /// Insert a value at the given coordinate, unless the tree already
    /// holds cells below that coordinate. Leaves on the way to the
    /// coordinate are removed.
    pub fn insert_leaf(&mut self, coord: PartitionCoord<N>, val: T)
        requires
            1 <= N <= 3,
            old(self)@.wf(N as nat),
            all_segments(coord@),
        ensures
            final(self)@ == old(self)@.insert_leaf(coord@, val),
            final(self)@.wf(N as nat),
            old(self).wf() ==> final(self).wf(),
        decreases coord@[0].depth(),
    {
        proof {
            crate::partition::tree_laws::lemma_insert_wf(old(self)@, coord@, val);
            coord@[0].lemma_segment();
        }
        if coord.is_root() {
            match self {
                PartitionTree::Interior(_) => {},
                _ => {
                    *self = PartitionTree::Leaf(val);
                },
            }
        } else {
            match self {
                PartitionTree::Interior(_) => {},
                _ => {
                    *self = PartitionTree::Interior(Self::new_children());
                },
            }
            proof {
                lemma_descend(coord@);
                lemma_tree_index_bound(coord@);
            }
            let ghost before = self@;
            let ghost ch0 = old(self)@.children_or_empty(N as nat);
            assert(before == TreeModel::Interior(ch0));
            proof {
                lemma_empty_children_wf::<T>(N as nat);
            }
            assert(before.wf(N as nat));
            match self {
                PartitionTree::Interior(children) => {
                    let index = coord.tree_index();
                    let ghost ch = children@;
                    proof {
                        Self::lemma_view_interior(*children);
                    }
                    assert(ch.len() == ch0.len());
                    assert(ch[index as int]@ == ch0[index as int]);
                    children[index].insert_leaf(coord.id_at_child(), val);
                    proof {
                        assert(children@ == ch.update(index as int, children@[index as int]));
                    }
                },
                _ => {},
            }
            proof {
                let ch0 = old(self)@.children_or_empty(N as nat);
                let index = coord_tree_index(coord@) as int;
                assert(self@->Interior_0 =~= ch0.update(
                    index,
                    ch0[index].insert_leaf(coord_id_at_child(coord@), val),
                ));
            }
        }
    }

    /// Remove the interior nodes that hold no leaf.
    pub fn prune(&mut self)
        ensures
            final(self)@ == old(self)@.prune(),
            final(self)@.is_pruned(),
            old(self).wf() ==> final(self).wf(),
        decreases *old(self),
    {
        proof {
            crate::partition::tree_laws::lemma_prune_is_pruned(old(self)@);
            if old(self).wf() {
                crate::partition::tree_laws::lemma_prune_wf(old(self)@, N as nat);
            }
        }
        let mut empty = true;
        let mut interior = false;
        match self {
            PartitionTree::Interior(children) => {
                interior = true;
                let ghost before = *children;
                let n = children.len();
                let mut i: usize = 0;
                proof {
                    Self::lemma_view_interior(before);
                }
                while i < n
                    invariant
                        i <= n,
                        n == children.len(),
                        n == before.len(),
                        *old(self) == PartitionTree::<T, N>::Interior(before),
                        forall|j: int| 0 <= j < i ==> (#[trigger] children@[j])@ == before@[j]@.prune(),
                        forall|j: int| i <= j < n ==> (#[trigger] children@[j]) == before@[j],
                        empty == (forall|j: int| 0 <= j < i ==> (#[trigger] children@[j])@ is Empty),
                    decreases n - i,
                {
                    let ghost current = children@;
                    proof {
                        assert(children@[i as int] == before@[i as int]);
                        Self::lemma_child_decreases(*old(self), i as int);
                    }
                    children[i].prune();
                    proof {
                        assert(children@ == current.update(i as int, children@[i as int]));
                        assert(forall|j: int| 0 <= j < i ==> children@[j] == current[j]);
                        assert(children@[i as int]@ is Empty <==> children@[i as int] is Empty);
                    }
                    match &children[i] {
                        PartitionTree::Empty => {},
                        _ => {
                            empty = false;
                        },
                    }
                    i += 1;
                }
                proof {
                    Self::lemma_view_interior(*children);
                    let pruned = TreeModel::prune_each(old(self)@->Interior_0);
                    assert(PartitionTree::<T, N>::Interior(*children)@->Interior_0 =~= pruned);
                    assert(empty == TreeModel::all_empty(pruned)) by {
                        if empty {
                            assert forall|j: int| 0 <= j < pruned.len() implies (
                            #[trigger] pruned[j]) is Empty by {
                                assert(children@[j]@ is Empty);
                            }
                        } else {
                            let j = choose|j: int| 0 <= j < n && !((#[trigger] children@[j])@ is Empty);
                            assert(!(pruned[j] is Empty));
                        }
                    }
                }
            },
            _ => {},
        }
        if interior && empty {
            *self = PartitionTree::Empty;
        }
    }

    /// The leaves below this node in pre-order, each with its coordinate,
    /// appended to `out`; `coord` is the coordinate of this node.
    fn collect_leaves<'a>(
        &'a self,
        coord: PartitionCoord<N>,
        out: &mut Vec<(PartitionCoord<N>, &'a T)>,
    )
        requires
            N <= 3,
            self@.wf(N as nat),
            is_cell(coord@),
            self@.height() + coord@[0].depth() <= 62,
        ensures
            leaves_view(final(out)@) == leaves_view(old(out)@) + self@.leaves(coord@),
        decreases self,
    {
        match self {
            PartitionTree::Empty => {
                proof {
                    assert(leaves_view(out@) + self@.leaves(coord@) =~= leaves_view(out@));
                }
            },
            PartitionTree::Leaf(val) => {
                out.push((coord, val));
                proof {
                    assert(leaves_view(out@) =~= leaves_view(old(out)@) + self@.leaves(coord@));
                }
            },
            PartitionTree::Interior(children) => {
                proof {
                    Self::lemma_view_interior(*children);
                    lemma_cell_children(coord@);
                }
                let ghost ch = self@->Interior_0;
                let child_coords = coord.child_coords();
                let n = children.len();
                let mut i: usize = 0;
                proof {
                    assert(leaves_view(out@) + TreeModel::leaves_from(ch, coord@, n as int)
                        =~= leaves_view(out@));
                }
                while i < n
                    invariant
                        i <= n,
                        N <= 3,
                        n == children.len(),
                        n == child_coords.len(),
                        n == ch.len(),
                        n == pow2(N as nat),
                        is_cell(coord@),
                        *self == PartitionTree::<T, N>::Interior(*children),
                        self@ == TreeModel::Interior(ch),
                        self@.wf(N as nat),
                        self@.height() + coord@[0].depth() <= 62,
                        forall|j: int| 0 <= j < n ==> (#[trigger] ch[j]) == children@[j]@,
                        forall|j: int|
                            0 <= j < n ==> (#[trigger] child_coords[j])@ == coord_child(
                                coord@,
                                j as nat,
                            ),
                        leaves_view(out@) + TreeModel::leaves_from(ch, coord@, i as int)
                            == leaves_view(old(out)@) + TreeModel::leaves_from(ch, coord@, 0),
                    decreases n - i,
                {
                    proof {
                        lemma_cell_child(coord@, i as nat);
                        lemma_max_height_covers(ch, 0, i as int);
                        assert(ch[i as int].wf(N as nat));
                    }
                    let ghost prev = leaves_view(out@);
                    children[i].collect_leaves(child_coords[i], out);
                    proof {
                        let here = ch[i as int].leaves(coord_child(coord@, i as nat));
                        let rest = TreeModel::leaves_from(ch, coord@, i + 1);
                        assert((prev + here) + rest =~= prev + (here + rest));
                    }
                    i += 1;
                }
                proof {
                    assert(leaves_view(out@) + TreeModel::leaves_from(ch, coord@, n as int)
                        =~= leaves_view(out@));
                }
            },
        }
    }

    /// Every leaf of the tree with its coordinate, in pre-order.
    pub fn leaves(&self) -> (r: Vec<(PartitionCoord<N>, &T)>)
        requires
            self.wf(),
        ensures
            leaves_view(r@) == self@.leaves(root_coord(N as nat)),
            crate::partition::tree_laws::cells_below(leaves_view(r@), N as nat, 0),
    {
        let mut out: Vec<(PartitionCoord<N>, &T)> = Vec::new();
        let root = PartitionCoord::<N>::default();
        proof {
            lemma_root_is_cell(N as nat);
            crate::partition::tree_laws::lemma_leaves_are_cells(
                self@,
                root_coord(N as nat),
                N as nat,
            );
            assert(root@ =~= root_coord(N as nat));
            assert(leaves_view(out@) =~= Seq::empty());
        }
        self.collect_leaves(root, &mut out);
        proof {
            assert(Seq::<(Seq<PartitionID>, T)>::empty() + self@.leaves(root@) =~= self@.leaves(
                root@,
            ));
        }
        out
    }

    /// Every leaf at or below the given coordinate, in pre-order.
    pub fn children(&self, coord: &PartitionCoord<N>) -> (r: Vec<(PartitionCoord<N>, &T)>)
        requires
            self.wf(),
            is_cell(coord@),
        ensures
            leaves_view(r@) == self@.subtree(coord@).leaves(coord@),
            crate::partition::tree_laws::cells_below(
                leaves_view(r@),
                N as nat,
                coord@[0].depth(),
            ),
    {
        proof {
            lemma_subtree_height(self@, coord@, N as nat);
            coord@[0].lemma_segment();
            crate::partition::tree_laws::lemma_leaves_are_cells(
                self@.subtree(coord@),
                coord@,
                N as nat,
            );
        }
        self.children_with_coord(coord, coord)
    }

    /// Every leaf of the subtree that `coord` leads to, in pre-order, with
    /// coordinates counted from `original_coord` at the root of that
    /// subtree.
    pub fn children_with_coord(
        &self,
        coord: &PartitionCoord<N>,
        original_coord: &PartitionCoord<N>,
    ) -> (r: Vec<(PartitionCoord<N>, &T)>)
        requires
            1 <= N <= 3,
            self@.wf(N as nat),
            all_segments(coord@),
            is_cell(original_coord@),
            self@.subtree(coord@).height() + original_coord@[0].depth() <= 62,
        ensures
            leaves_view(r@) == self@.subtree(coord@).leaves(original_coord@),
        decreases coord@[0].depth(),
    {
        if coord.is_root() {
            let mut out: Vec<(PartitionCoord<N>, &T)> = Vec::new();
            proof {
                assert(leaves_view(out@) =~= Seq::empty());
            }
            self.collect_leaves(*original_coord, &mut out);
            proof {
                assert(Seq::<(Seq<PartitionID>, T)>::empty() + self@.leaves(original_coord@)
                    =~= self@.leaves(original_coord@));
            }
            out
        } else {
            match self {
                PartitionTree::Interior(children) => {
                    proof {
                        Self::lemma_view_interior(*children);
                        lemma_descend(coord@);
                        lemma_tree_index_bound(coord@);
                    }
                    children[coord.tree_index()].children_with_coord(
                        &coord.id_at_child(),
                        original_coord,
                    )
                },
                _ => {
                    let out: Vec<(PartitionCoord<N>, &T)> = Vec::new();
                    proof {
                        assert(leaves_view(out@) =~= Seq::empty());
                    }
                    out
                },
            }
        }
    }
}

impl<T, const N: usize> Default for PartitionTree<T, N> {
    /// The empty tree.
    fn default() -> (r: Self)
        ensures
            r@ == TreeModel::<T>::Empty,
    {
        PartitionTree::Empty
    }
}

/// The coordinate of the whole box in `n` dimensions.
pub open spec fn root_coord(n: nat) -> Seq<PartitionID> {
    Seq::new(n, |d: int| PartitionID(crate::partition::id::ROOT_ID))
}

/// What a list of leaves says: the coordinate and the value of each.
pub open spec fn leaves_view<T, const N: usize>(s: Seq<(PartitionCoord<N>, &T)>) -> Seq<
    (Seq<PartitionID>, T),
> {
    Seq::new(s.len(), |i: int| (s[i].0@, *s[i].1))
}

/// The coordinate of the whole box names a cell of depth 0.
pub proof fn lemma_root_is_cell(n: nat)
    requires
        n >= 1,
    ensures
        is_cell(root_coord(n)),
        root_coord(n)[0].depth() == 0,
        coord_is_root(root_coord(n)),
{
    let c = root_coord(n);
    assert forall|i: int| 0 <= i < c.len() implies (#[trigger] c[i]).is_segment() && c[i].depth()
        == 0 by {
        c[i].lemma_segment();
    }
    assert(c[0].spec_is_root());
}

/// A cell above the deepest level can be halved in every dimension.
pub proof fn lemma_cell_children(coord: Seq<PartitionID>)
    requires
        is_cell(coord),
        coord[0].depth() <= 61,
    ensures
        crate::partition::coord::all_have_children(coord),
{
    assert forall|i: int| 0 <= i < coord.len() implies (#[trigger] coord[i]).has_children() by {
        assert(coord[i].depth() == coord[0].depth());
    }
}

/// Each child of a cell is a cell one level deeper.
pub proof fn lemma_cell_child(coord: Seq<PartitionID>, index: nat)
    requires
        is_cell(coord),
        coord[0].depth() <= 61,
    ensures
        is_cell(coord_child(coord, index)),
        coord_child(coord, index)[0].depth() == coord[0].depth() + 1,
{
    let child = coord_child(coord, index);
    assert forall|i: int| 0 <= i < coord.len() implies (#[trigger] child[i]).is_segment()
        && child[i].depth() == coord[0].depth() + 1 by {
        assert(coord[i].depth() == coord[0].depth());
        coord[i].lemma_children();
    }
}

/// The subtree at a cell is no higher than what the tree has left below the
/// depth of that cell.
pub proof fn lemma_subtree_height<T>(tree: TreeModel<T>, coord: Seq<PartitionID>, n: nat)
    requires
        is_cell(coord),
        tree.wf(n),
        coord.len() == n,
    ensures
        tree.subtree(coord).wf(n),
        tree.subtree(coord).height() + coord[0].depth() <= tree.height() || tree.subtree(coord)
            is Empty,
        tree.subtree(coord).height() <= tree.height(),
    decreases coord[0].depth(),
{
    if !coord_is_root(coord) {
        lemma_descend(coord);
        lemma_tree_index_bound(coord);
        match tree {
            TreeModel::Interior(ch) => {
                let index = coord_tree_index(coord) as int;
                lemma_subtree_height(ch[index], coord_id_at_child(coord), n);
                lemma_max_height_covers(ch, 0, index);
            },
            _ => {},
        }
    } else {
        assert(coord[0].depth() == 0) by {
            let i = choose|i: int| 0 <= i < coord.len() && (#[trigger] coord[i]).spec_is_root();
            coord[i].lemma_segment();
        }
    }
}

} // verus!
