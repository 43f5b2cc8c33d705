//! Collections of cells: for each subspace that holds cells, the tree of the
//! cells in it. The subspaces are kept in their order.

use crate::partition::coord::{all_segments, is_cell, PartitionCoord};
use crate::partition::id::PartitionID;
use crate::partition::tree::{
    leaves_view, lemma_root_is_cell, root_coord, PartitionTree, TreeModel,
};
use crate::partition::tree_laws::lemma_leaves_are_cells;
use crate::simplex::CellEntry;
use crate::subspace::{R3Space, Subspace};
use vstd::prelude::*;

verus! {

/// The mark of a cell that the surface passes through. What is computed for
/// the cell is kept by the caller, under the cell's entry.
#[derive(Clone, Copy, PartialEq, Eq, Debug, Structural)]
pub struct Cell;

impl Default for Cell {
    fn default() -> (r: Self)
        ensures
            r == Cell,
    {
        Cell
    }
}

/// A tree of cells.
pub type CellTree<const N: usize> = PartitionTree<Cell, N>;

/// The leaves of a tree of cells, each named with the subspace of the tree.
pub open spec fn tag<S>(subspace: S, leaves: Seq<(Seq<PartitionID>, Cell)>) -> Seq<
    (S, Seq<PartitionID>),
> {
    Seq::new(leaves.len(), |i: int| (subspace, leaves[i].0))
}

/// The tree of the given subspace, empty where the collection has none.
pub open spec fn lookup<S>(trees: Seq<(S, TreeModel<Cell>)>, subspace: S) -> TreeModel<Cell>
    decreases trees.len(),
{
    if trees.len() == 0 {
        TreeModel::Empty
    } else if trees[0].0 == subspace {
        trees[0].1
    } else {
        lookup(trees.drop_first(), subspace)
    }
}

/// The collection after a cell was inserted into the tree of a subspace:
/// a subspace that had no tree gets one, at its place in the order.
pub open spec fn spec_insert_cell<const N: usize, S: Subspace<N>>(
    trees: Seq<(S, TreeModel<Cell>)>,
    subspace: S,
    coord: Seq<PartitionID>,
) -> Seq<(S, TreeModel<Cell>)>
    decreases trees.len(),
{
    if trees.len() > 0 && trees[0].0.rank() < subspace.rank() {
        seq![trees[0]] + spec_insert_cell(trees.drop_first(), subspace, coord)
    } else if trees.len() > 0 && trees[0].0 == subspace {
        seq![(subspace, trees[0].1.insert_leaf(coord, Cell))] + trees.drop_first()
    } else {
        seq![(subspace, TreeModel::<Cell>::Empty.insert_leaf(coord, Cell))] + trees
    }
}

/// Every cell of a collection in the order of iteration: subspace by
/// subspace, and the cells of each tree in pre-order.
pub open spec fn spec_entries<S>(trees: Seq<(S, TreeModel<Cell>)>, n: nat) -> Seq<
    (S, Seq<PartitionID>),
>
    decreases trees.len(),
{
    if trees.len() == 0 {
        Seq::empty()
    } else {
        spec_entries(trees.drop_last(), n) + tag(
            trees.last().0,
            trees.last().1.leaves(root_coord(n)),
        )
    }
}

/// The collection after a cell was inserted, for each of the first `k`
/// subspaces along the boundary of a volume cell, at the projection of the
/// volume cell into it.
pub open spec fn spec_add_volume_cell<const N: usize, S: Subspace<N>>(
    trees: Seq<(S, TreeModel<Cell>)>,
    volume_coord: Seq<PartitionID>,
    k: nat,
) -> Seq<(S, TreeModel<Cell>)>
    decreases k,
{
    if k == 0 {
        trees
    } else {
        let subspace = S::spec_volume_cell_intersections(volume_coord)[k - 1];
        spec_insert_cell(
            spec_add_volume_cell(trees, volume_coord, (k - 1) as nat),
            subspace,
            subspace.spec_project_coord(volume_coord),
        )
    }
}

/// The collection of the cells on the boundaries of the first `m` of the
/// given volume cells.
pub open spec fn spec_build_from_volume_cells<const N: usize, S: Subspace<N>>(
    volume_cells: Seq<(R3Space, Seq<PartitionID>)>,
    m: nat,
) -> Seq<(S, TreeModel<Cell>)>
    decreases m,
{
    if m == 0 {
        Seq::empty()
    } else {
        let coord = volume_cells[m - 1].1;
        spec_add_volume_cell(
            spec_build_from_volume_cells(volume_cells, (m - 1) as nat),
            coord,
            S::spec_volume_cell_intersections(coord).len(),
        )
    }
}

/// Inserting a cell goes past the subspaces that come before its own.
pub proof fn lemma_insert_cell_skips<const N: usize, S: Subspace<N>>(
    trees: Seq<(S, TreeModel<Cell>)>,
    subspace: S,
    coord: Seq<PartitionID>,
    i: int,
)
    requires
        0 <= i <= trees.len(),
        forall|j: int| 0 <= j < i ==> (#[trigger] trees[j]).0.rank() < subspace.rank(),
    ensures
        spec_insert_cell(trees, subspace, coord) == trees.take(i) + spec_insert_cell(
            trees.skip(i),
            subspace,
            coord,
        ),
    decreases i,
{
    if i == 0 {
        assert(trees.skip(0) =~= trees);
        assert(trees.take(0) + spec_insert_cell(trees, subspace, coord) =~= spec_insert_cell(
            trees,
            subspace,
            coord,
        ));
    } else {
        lemma_insert_cell_skips(trees, subspace, coord, i - 1);
        let rest = trees.skip(i - 1);
        assert(rest[0] == trees[i - 1]);
        assert(rest.drop_first() =~= trees.skip(i));
        assert(trees.take(i - 1) + (seq![rest[0]] + spec_insert_cell(
            rest.drop_first(),
            subspace,
            coord,
        )) =~= trees.take(i) + spec_insert_cell(trees.skip(i), subspace, coord));
    }
}

/// Where the subspaces before position `i` are others, looking a subspace
/// up goes past them.
pub proof fn lemma_lookup_skips<S>(trees: Seq<(S, TreeModel<Cell>)>, subspace: S, i: int)
    requires
        0 <= i <= trees.len(),
        forall|j: int| 0 <= j < i ==> (#[trigger] trees[j]).0 != subspace,
    ensures
        lookup(trees, subspace) == lookup(trees.skip(i), subspace),
    decreases i,
{
    if i == 0 {
        assert(trees.skip(0) =~= trees);
    } else {
        lemma_lookup_skips(trees, subspace, i - 1);
        let rest = trees.skip(i - 1);
        assert(rest[0] == trees[i - 1]);
        assert(rest.drop_first() =~= trees.skip(i));
    }
}

/// The cells of well-formed trees are cells.
pub proof fn lemma_entries_are_cells<S>(trees: Seq<(S, TreeModel<Cell>)>, n: nat)
    requires
        n >= 1,
        forall|i: int|
            0 <= i < trees.len() ==> (#[trigger] trees[i]).1.wf(n) && trees[i].1.height() <= 62,
    ensures
        forall|k: int|
            0 <= k < spec_entries(trees, n).len() ==> {
                &&& is_cell((#[trigger] spec_entries(trees, n)[k]).1)
                &&& spec_entries(trees, n)[k].1.len() == n
            },
    decreases trees.len(),
{
    if trees.len() > 0 {
        lemma_entries_are_cells(trees.drop_last(), n);
        lemma_root_is_cell(n);
        lemma_leaves_are_cells(trees.last().1, root_coord(n), n);
        let before = spec_entries(trees.drop_last(), n);
        let leaves = trees.last().1.leaves(root_coord(n));
        let here = tag(trees.last().0, leaves);
        let all = before + here;
        assert forall|k: int| 0 <= k < all.len() implies is_cell((#[trigger] all[k]).1)
            && all[k].1.len() == n by {
            if k < before.len() {
                assert(all[k] == before[k]);
            } else {
                assert(all[k] == here[k - before.len()]);
                assert(is_cell(leaves[k - before.len()].0));
            }
        }
    }
}

/// What a list of cells says: the subspace and the coordinate of each.
pub open spec fn entries_view<const N: usize, S: Subspace<N>>(s: Seq<CellEntry<N, S>>) -> Seq<
    (S, Seq<PartitionID>),
> {
    Seq::new(s.len(), |i: int| s[i]@)
}

/// The cells of one kind: for each subspace that holds cells, the tree of
/// the cells in it, in the order of the subspaces.
pub struct CellCollection<const N: usize, S: Subspace<N>>(pub Vec<(S, CellTree<N>)>);

impl<const N: usize, S: Subspace<N>> View for CellCollection<N, S> {
    type V = Seq<(S, TreeModel<Cell>)>;

    open spec fn view(&self) -> Seq<(S, TreeModel<Cell>)> {
        Seq::new(self.0@.len(), |i: int| (self.0@[i].0, self.0@[i].1@))
    }
}

impl<const N: usize, S: Subspace<N>> CellCollection<N, S> {
    /// Whether the collection is well formed: every tree is, and the
    /// subspaces stand in their order, each once.
    pub open spec fn wf(&self) -> bool {
        &&& 1 <= N <= 3
        &&& forall|i: int| 0 <= i < self.0@.len() ==> (#[trigger] self.0@[i]).1.wf()
        &&& forall|i: int, j: int|
            0 <= i < j < self.0@.len() ==> (#[trigger] self.0@[i]).0.rank() < (
            #[trigger] self.0@[j]).0.rank()
    }

    /// A collection without cells.
    pub fn new() -> (r: Self)
        requires
            1 <= N <= 3,
        ensures
            r@ == Seq::<(S, TreeModel<Cell>)>::empty(),
            r.wf(),
    {
        let out = CellCollection(Vec::new());
        proof {
            assert(out@ =~= Seq::<(S, TreeModel<Cell>)>::empty());
        }
        out
    }

    /// The first position whose subspace does not come before the given
    /// one.
    fn lower_bound(&self, subspace: &S) -> (r: usize)
        requires
            self.wf(),
        ensures
            r <= self.0@.len(),
            forall|j: int| 0 <= j < r ==> (#[trigger] self.0@[j]).0.rank() < subspace.rank(),
            forall|j: int|
                r <= j < self.0@.len() ==> (#[trigger] self.0@[j]).0.rank() >= subspace.rank(),
    {
        let mut low: usize = 0;
        let mut high: usize = self.0.len();
        while low < high
            invariant
                low <= high <= self.0@.len(),
                self.wf(),
                forall|j: int| 0 <= j < low ==> (#[trigger] self.0@[j]).0.rank() < subspace.rank(),
                forall|j: int|
                    high <= j < self.0@.len() ==> (#[trigger] self.0@[j]).0.rank()
                        >= subspace.rank(),
            decreases high - low,
        {
            let mid = low + (high - low) / 2;
            if self.0[mid].0.precedes(subspace) {
                proof {
                    assert forall|j: int| 0 <= j < mid + 1 implies (#[trigger] self.0@[j]).0.rank()
                        < subspace.rank() by {
                        if j < mid {
                            assert(self.0@[j].0.rank() < self.0@[mid as int].0.rank());
                        }
                    }
                }
                low = mid + 1;
            } else {
                proof {
                    assert forall|j: int| mid <= j < self.0@.len() implies (
                    #[trigger] self.0@[j]).0.rank() >= subspace.rank() by {
                        if j > mid {
                            assert(self.0@[mid as int].0.rank() < self.0@[j].0.rank());
                        }
                    }
                }
                high = mid;
            }
        }
        low
    }

    /// Insert a cell at a coordinate of a subspace.
    pub fn insert_cell(&mut self, subspace: S, coord: PartitionCoord<N>)
        requires
            old(self).wf(),
            all_segments(coord@),
        ensures
            final(self)@ == spec_insert_cell(old(self)@, subspace, coord@),
            final(self).wf(),
    {
        let i = self.lower_bound(&subspace);
        let ghost trees = self@;
        let ghost rest = trees.skip(i as int);
        proof {
            assert forall|j: int| 0 <= j < i implies (#[trigger] trees[j]).0.rank()
                < subspace.rank() by {
                assert(self.0@[j].0.rank() < subspace.rank());
            }
            lemma_insert_cell_skips(trees, subspace, coord@, i as int);
        }
        if i < self.0.len() && !subspace.precedes(&self.0[i].0) {
            proof {
                assert(rest[0] == trees[i as int]);
                assert(self.0@[i as int].0.rank() >= subspace.rank());
                self.0@[i as int].0.lemma_rank_injective(&subspace);
            }
            let ghost before = self.0@;
            self.0[i].1.insert_leaf(coord, Cell);
            proof {
                assert(forall|j: int| 0 <= j < before.len() && j != i ==> self.0@[j] == before[j]);
                assert(self.0@[i as int].0 == before[i as int].0);
                assert(self@ =~= trees.take(i as int) + (seq![
                    (subspace, rest[0].1.insert_leaf(coord@, Cell)),
                ] + rest.drop_first()));
            }
        } else {
            let mut tree: CellTree<N> = PartitionTree::Empty;
            tree.insert_leaf(coord, Cell);
            let ghost before = self.0@;
            self.0.insert(i, (subspace, tree));
            proof {
                if rest.len() > 0 {
                    assert(rest[0] == trees[i as int]);
                    assert(before[i as int].0.rank() >= subspace.rank());
                }
                assert(self@ =~= trees.take(i as int) + (seq![
                    (subspace, TreeModel::<Cell>::Empty.insert_leaf(coord@, Cell)),
                ] + rest));
                assert forall|a: int, b: int| 0 <= a < b < self.0@.len() implies (
                #[trigger] self.0@[a]).0.rank() < (#[trigger] self.0@[b]).0.rank() by {
                    let a0 = if a < i { a } else { a - 1 };
                    let b0 = if b < i { b } else { b - 1 };
                    if a != i && b != i {
                        assert(self.0@[a] == before[a0]);
                        assert(self.0@[b] == before[b0]);
                    } else if a == i {
                        assert(self.0@[b] == before[b0]);
                        assert(before[i as int].0.rank() <= before[b0].0.rank());
                    } else {
                        assert(self.0@[a] == before[a0]);
                    }
                }
                assert forall|a: int| 0 <= a < self.0@.len() implies (#[trigger] self.0@[a]).1.wf() by {
                    if a != i {
                        let a0 = if a < i { a } else { a - 1 };
                        assert(self.0@[a] == before[a0]);
                    }
                }
            }
        }
    }

    /// The cells of a tree of the collection, each named with the subspace
    /// of the tree, appended to `out`.
    fn push_entries(subspace: S, leaves: &Vec<(PartitionCoord<N>, &Cell)>, out: &mut Vec<CellEntry<N, S>>)
        ensures
            entries_view(final(out)@) == entries_view(old(out)@) + tag(
                subspace,
                leaves_view(leaves@),
            ),
            final(out)@.len() == old(out)@.len() + leaves@.len(),
            forall|k: int| 0 <= k < old(out)@.len() ==> final(out)@[k] == old(out)@[k],
            forall|k: int|
                0 <= k < leaves@.len() ==> (#[trigger] final(out)@[old(out)@.len() + k]).coord
                    == leaves@[k].0,
    {
        let mut j: usize = 0;
        proof {
            assert(entries_view(out@) + tag(subspace, leaves_view(leaves@).take(0))
                =~= entries_view(out@));
        }
        while j < leaves.len()
            invariant
                j <= leaves.len(),
                entries_view(out@) == entries_view(old(out)@) + tag(
                    subspace,
                    leaves_view(leaves@).take(j as int),
                ),
                out@.len() == old(out)@.len() + j,
                forall|k: int| 0 <= k < old(out)@.len() ==> out@[k] == old(out)@[k],
                forall|k: int|
                    0 <= k < j ==> (#[trigger] out@[old(out)@.len() + k]).coord == leaves@[k].0,
            decreases leaves.len() - j,
        {
            let ghost before = out@;
            out.push(CellEntry { subspace, coord: leaves[j].0 });
            proof {
                assert(entries_view(out@) =~= entries_view(before).push((subspace, leaves@[j as int].0@)));
                assert(tag(subspace, leaves_view(leaves@).take(j + 1)) =~= tag(
                    subspace,
                    leaves_view(leaves@).take(j as int),
                ).push((subspace, leaves@[j as int].0@)));
                assert(entries_view(out@) =~= entries_view(old(out)@) + tag(
                    subspace,
                    leaves_view(leaves@).take(j + 1),
                ));
            }
            j += 1;
        }
        proof {
            assert(leaves_view(leaves@).take(j as int) =~= leaves_view(leaves@));
        }
    }

    /// Every cell of the collection: subspace by subspace in their order,
    /// and the cells of each tree in pre-order.
    pub fn entries(&self) -> (r: Vec<CellEntry<N, S>>)
        requires
            self.wf(),
        ensures
            entries_view(r@) == spec_entries(self@, N as nat),
            forall|k: int| 0 <= k < r@.len() ==> is_cell((#[trigger] r@[k]).coord@),
    {
        let mut out: Vec<CellEntry<N, S>> = Vec::new();
        let mut i: usize = 0;
        proof {
            assert(self@.take(0) =~= Seq::empty());
            assert(entries_view(out@) =~= Seq::empty());
        }
        while i < self.0.len()
            invariant
                i <= self.0@.len(),
                self.wf(),
                entries_view(out@) == spec_entries(self@.take(i as int), N as nat),
                forall|k: int| 0 <= k < out@.len() ==> is_cell((#[trigger] out@[k]).coord@),
            decreases self.0.len() - i,
        {
            let leaves = self.0[i].1.leaves();
            proof {
                let t = self@.take(i + 1);
                assert(t.drop_last() =~= self@.take(i as int));
                assert(t.last() == self@[i as int]);
            }
            let ghost before = out@;
            Self::push_entries(self.0[i].0, &leaves, &mut out);
            proof {
                assert forall|k: int| 0 <= k < out@.len() implies is_cell(
                    (#[trigger] out@[k]).coord@,
                ) by {
                    if k >= before.len() {
                        let j = k - before.len();
                        assert(out@[before.len() + j].coord == leaves@[j].0);
                        assert(is_cell(leaves_view(leaves@)[j].0));
                    }
                }
            }
            i += 1;
        }
        proof {
            assert(self@.take(i as int) =~= self@);
        }
        out
    }

    /// The cells at or below a coordinate of a subspace, in pre-order.
    pub fn children(&self, coord: &PartitionCoord<N>, subspace: &S) -> (r: Vec<CellEntry<N, S>>)
        requires
            self.wf(),
            is_cell(coord@),
        ensures
            entries_view(r@) == tag(
                *subspace,
                lookup(self@, *subspace).subtree(coord@).leaves(coord@),
            ),
            forall|k: int|
                0 <= k < r@.len() ==> is_cell((#[trigger] r@[k]).coord@) && r@[k].subspace
                    == *subspace,
    {
        let i = self.lower_bound(subspace);
        let mut out: Vec<CellEntry<N, S>> = Vec::new();
        proof {
            assert(entries_view(out@) =~= Seq::empty());
            assert forall|j: int| 0 <= j < i implies (#[trigger] self@[j]).0 != *subspace by {
                assert(self.0@[j].0.rank() < subspace.rank());
            }
            lemma_lookup_skips(self@, *subspace, i as int);
        }
        let ghost rest = self@.skip(i as int);
        if i < self.0.len() && !subspace.precedes(&self.0[i].0) {
            proof {
                assert(self.0@[i as int].0.rank() >= subspace.rank());
                self.0@[i as int].0.lemma_rank_injective(subspace);
                assert(rest[0] == self@[i as int]);
            }
            let leaves = self.0[i].1.children(coord);
            Self::push_entries(*subspace, &leaves, &mut out);
            proof {
                assert(Seq::<(S, Seq<PartitionID>)>::empty() + tag(*subspace, leaves_view(leaves@))
                    =~= tag(*subspace, leaves_view(leaves@)));
                assert forall|k: int| 0 <= k < out@.len() implies is_cell(
                    (#[trigger] out@[k]).coord@,
                ) && out@[k].subspace == *subspace by {
                    assert(out@[0 + k].coord == leaves@[k].0);
                    assert(is_cell(leaves_view(leaves@)[k].0));
                    assert(entries_view(out@)[k] == tag(*subspace, leaves_view(leaves@))[k]);
                }
            }
        } else {
            proof {
                assert forall|j: int| 0 <= j < rest.len() implies (#[trigger] rest[j]).0
                    != *subspace by {
                    assert(rest[j] == self@[i + j]);
                    assert(self.0@[i + j].0.rank() >= subspace.rank());
                    if j > 0 {
                        assert(self.0@[i as int].0.rank() < self.0@[i + j].0.rank());
                    }
                }
                lemma_lookup_skips(rest, *subspace, rest.len() as int);
                assert(rest.skip(rest.len() as int) =~= Seq::empty());
                assert(tag(
                    *subspace,
                    TreeModel::<Cell>::Empty.subtree(coord@).leaves(coord@),
                ) =~= Seq::empty()) by {
                    lemma_empty_subtree::<Cell>(coord@);
                }
            }
        }
        out
    }

    /// The cells on the boundaries of the given volume cells: for each
    /// volume cell in turn, and for each subspace along its boundary, a
    /// cell at the projection of the volume cell into that subspace.
    pub fn build_from_volume_cells(volume_cells: &VolumeCellCollection) -> (r: Self)
        requires
            1 <= N <= 3,
            volume_cells.wf(),
        ensures
            r@ == spec_build_from_volume_cells::<N, S>(
                spec_entries(volume_cells@, 3),
                spec_entries(volume_cells@, 3).len(),
            ),
            r.wf(),
    {
        let mut out = Self::new();
        let cells = volume_cells.entries();
        let ghost all = spec_entries(volume_cells@, 3);
        proof {
            assert forall|i: int| 0 <= i < volume_cells@.len() implies (
            #[trigger] volume_cells@[i]).1.wf(3) && volume_cells@[i].1.height() <= 62 by {
                assert(volume_cells.0@[i].1.wf());
            }
            lemma_entries_are_cells(volume_cells@, 3);
        }
        let mut m: usize = 0;
        while m < cells.len()
            invariant
                m <= cells.len(),
                1 <= N <= 3,
                all == entries_view(cells@),
                forall|k: int| 0 <= k < all.len() ==> is_cell((#[trigger] all[k]).1) && all[k].1.len() == 3,
                out.wf(),
                out@ == spec_build_from_volume_cells::<N, S>(all, m as nat),
            decreases cells.len() - m,
        {
            let coord = cells[m].coord;
            proof {
                assert(all[m as int] == cells@[m as int]@);
                assert(is_cell(all[m as int].1));
            }
            let subspaces = S::volume_cell_intersections(&coord);
            let ghost start = out@;
            let mut k: usize = 0;
            while k < subspaces.len()
                invariant
                    k <= subspaces.len(),
                    1 <= N <= 3,
                    is_cell(coord@),
                    coord@.len() == 3,
                    subspaces@ == S::spec_volume_cell_intersections(coord@),
                    out.wf(),
                    out@ == spec_add_volume_cell::<N, S>(start, coord@, k as nat),
                decreases subspaces.len() - k,
            {
                let subspace = subspaces[k];
                proof {
                    subspace.lemma_project_cell(coord@);
                }
                out.insert_cell(subspace, subspace.project_coord(&coord));
                k += 1;
            }
            m += 1;
        }
        out
    }
}

/// Nothing lies below a coordinate in an empty tree.
pub proof fn lemma_empty_subtree<T>(coord: Seq<PartitionID>)
    requires
        coord.len() >= 1,
        all_segments(coord),
    ensures
        TreeModel::<T>::Empty.subtree(coord).leaves(coord) == Seq::<(Seq<PartitionID>, T)>::empty(),
{
}

/// The volume cells: the octree of the box.
pub type VolumeCellCollection = CellCollection<3, R3Space>;

} // verus!
