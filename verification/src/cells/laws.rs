//! What holds of the face and the edge cells that are derived from the
//! volume cells: each lies on the boundary of a volume cell.

use crate::cells::collection::{
    lookup, spec_add_volume_cell, spec_build_from_volume_cells, spec_entries, spec_insert_cell,
    tag, Cell,
};
use crate::partition::coord::is_cell;
use crate::partition::id::PartitionID;
use crate::partition::tree::{lemma_root_is_cell, root_coord, TreeModel};
use crate::partition::tree_laws::{
    lemma_empty_has_no_leaf, lemma_insert_wf, lemma_leaf_at_insert, lemma_leaves_are_found,
};
use crate::subspace::{R3Space, Subspace};
use vstd::prelude::*;

verus! {

/// Whether the cell at `coord` of `subspace` lies on the boundary of the
/// volume cell at `volume_coord`: the subspace is one of those along the
/// boundary of the volume cell, and the volume cell projects to `coord`.
pub open spec fn borders<const N: usize, S: Subspace<N>>(
    subspace: S,
    coord: Seq<PartitionID>,
    volume_coord: Seq<PartitionID>,
) -> bool {
    &&& S::spec_volume_cell_intersections(volume_coord).contains(subspace)
    &&& subspace.spec_project_coord(volume_coord) == coord
}

/// Whether the cell lies on the boundary of one of the first `m` volume
/// cells.
pub open spec fn has_source<const N: usize, S: Subspace<N>>(
    subspace: S,
    coord: Seq<PartitionID>,
    volume_cells: Seq<(R3Space, Seq<PartitionID>)>,
    m: nat,
) -> bool {
    exists|k: int|
        0 <= k < m && borders::<N, S>(subspace, coord, (#[trigger] volume_cells[k]).1)
}

/// Whether every tree is well formed and no deeper than the partition.
pub open spec fn trees_wf<S>(trees: Seq<(S, TreeModel<Cell>)>, n: nat) -> bool {
    forall|i: int|
        0 <= i < trees.len() ==> (#[trigger] trees[i]).1.wf(n) && trees[i].1.height() <= 62
}

/// Whether the tree of position `i` has a leaf at the cell `at`.
pub open spec fn holds<S>(trees: Seq<(S, TreeModel<Cell>)>, i: int, at: Seq<PartitionID>) -> bool {
    0 <= i < trees.len() && trees[i].1.leaf_at(at) is Some
}

/// Whether every cell of the collection lies on the boundary of one of the
/// first `m` volume cells.
pub open spec fn all_sourced<const N: usize, S: Subspace<N>>(
    trees: Seq<(S, TreeModel<Cell>)>,
    volume_cells: Seq<(R3Space, Seq<PartitionID>)>,
    m: nat,
) -> bool {
    forall|i: int, at: Seq<PartitionID>| #[trigger]
        holds(trees, i, at) && is_cell(at) && at.len() == N ==> has_source::<N, S>(
            trees[i].0,
            at,
            volume_cells,
            m,
        )
}

/// Inserting a cell keeps the trees well formed; and a cell that is held
/// afterwards is the one inserted, or was held before by a tree of the
/// same subspace.
pub proof fn lemma_insert_cell<const N: usize, S: Subspace<N>>(
    trees: Seq<(S, TreeModel<Cell>)>,
    subspace: S,
    coord: Seq<PartitionID>,
)
    requires
        1 <= N <= 3,
        trees_wf(trees, N as nat),
        is_cell(coord),
        coord.len() == N,
    ensures
        trees_wf(spec_insert_cell(trees, subspace, coord), N as nat),
        forall|i: int, at: Seq<PartitionID>| #[trigger]
            holds(spec_insert_cell(trees, subspace, coord), i, at) && is_cell(at) && at.len() == N
                ==> (spec_insert_cell(trees, subspace, coord)[i].0 == subspace && at == coord)
                || exists|j: int| #[trigger]
                holds(trees, j, at) && trees[j].0 == spec_insert_cell(trees, subspace, coord)[i].0,
    decreases trees.len(),
{
    let after = spec_insert_cell(trees, subspace, coord);
    coord[0].lemma_segment();
    if trees.len() > 0 && trees[0].0.rank() < subspace.rank() {
        let rest = trees.drop_first();
        let rest_after = spec_insert_cell(rest, subspace, coord);
        assert forall|i: int| 0 <= i < rest.len() implies (#[trigger] rest[i]).1.wf(N as nat)
            && rest[i].1.height() <= 62 by {
            assert(rest[i] == trees[i + 1]);
        }
        lemma_insert_cell(rest, subspace, coord);
        assert forall|i: int| 0 <= i < after.len() implies (#[trigger] after[i]).1.wf(N as nat)
            && after[i].1.height() <= 62 by {
            if i == 0 {
                assert(after[0] == trees[0]);
            } else {
                assert(after[i] == rest_after[i - 1]);
            }
        }
        assert forall|i: int, at: Seq<PartitionID>| #[trigger]
            holds(after, i, at) && is_cell(at) && at.len() == N implies (after[i].0 == subspace
            && at == coord) || exists|j: int| #[trigger]
            holds(trees, j, at) && trees[j].0 == after[i].0 by {
            if i == 0 {
                assert(after[0] == trees[0]);
                assert(holds(trees, 0, at));
            } else {
                assert(after[i] == rest_after[i - 1]);
                assert(holds(rest_after, i - 1, at));
                if !(after[i].0 == subspace && at == coord) {
                    let j = choose|j: int| #[trigger]
                        holds(rest, j, at) && rest[j].0 == rest_after[i - 1].0;
                    assert(rest[j] == trees[j + 1]);
                    assert(holds(trees, j + 1, at));
                }
            }
        }
    } else {
        let old_tree = if trees.len() > 0 && trees[0].0 == subspace {
            trees[0].1
        } else {
            TreeModel::<Cell>::Empty
        };
        let new_tree = old_tree.insert_leaf(coord, Cell);
        lemma_insert_wf(old_tree, coord, Cell);
        let shift: int = if trees.len() > 0 && trees[0].0 == subspace {
            0
        } else {
            1
        };
        assert(after[0] == (subspace, new_tree));
        assert forall|i: int| 0 < i < after.len() implies after[i] == trees[i - shift] by {}
        assert forall|i: int| 0 <= i < after.len() implies (#[trigger] after[i]).1.wf(N as nat)
            && after[i].1.height() <= 62 by {
            if i > 0 {
                assert(after[i] == trees[i - shift]);
            }
        }
        assert forall|i: int, at: Seq<PartitionID>| #[trigger]
            holds(after, i, at) && is_cell(at) && at.len() == N implies (after[i].0 == subspace
            && at == coord) || exists|j: int| #[trigger]
            holds(trees, j, at) && trees[j].0 == after[i].0 by {
            if i == 0 {
                lemma_leaf_at_insert(old_tree, coord, Cell, at);
                if at != coord {
                    if shift == 1 {
                        lemma_empty_has_no_leaf::<Cell>(at);
                    } else {
                        assert(holds(trees, 0, at));
                    }
                }
            } else {
                assert(after[i] == trees[i - shift]);
                assert(holds(trees, i - shift, at));
            }
        }
    }
}

/// After the cells on the boundary of one more volume cell were inserted,
/// every cell still lies on the boundary of a volume cell.
pub proof fn lemma_add_volume_cell<const N: usize, S: Subspace<N>>(
    trees: Seq<(S, TreeModel<Cell>)>,
    volume_cells: Seq<(R3Space, Seq<PartitionID>)>,
    m: nat,
    k: nat,
)
    requires
        1 <= N <= 3,
        m < volume_cells.len(),
        is_cell(volume_cells[m as int].1),
        volume_cells[m as int].1.len() == 3,
        k <= S::spec_volume_cell_intersections(volume_cells[m as int].1).len(),
        trees_wf(trees, N as nat),
        all_sourced::<N, S>(trees, volume_cells, m),
    ensures
        trees_wf(spec_add_volume_cell::<N, S>(trees, volume_cells[m as int].1, k), N as nat),
        all_sourced::<N, S>(
            spec_add_volume_cell::<N, S>(trees, volume_cells[m as int].1, k),
            volume_cells,
            m + 1,
        ),
    decreases k,
{
    let v = volume_cells[m as int].1;
    let after = spec_add_volume_cell::<N, S>(trees, v, k);
    if k == 0 {
        assert forall|i: int, at: Seq<PartitionID>| #[trigger]
            holds(after, i, at) && is_cell(at) && at.len() == N implies has_source::<N, S>(
            after[i].0,
            at,
            volume_cells,
            m + 1,
        ) by {
            assert(has_source::<N, S>(trees[i].0, at, volume_cells, m));
            let j = choose|j: int|
                0 <= j < m && borders::<N, S>(trees[i].0, at, (#[trigger] volume_cells[j]).1);
            assert(borders::<N, S>(after[i].0, at, volume_cells[j].1));
        }
    } else {
        lemma_add_volume_cell::<N, S>(trees, volume_cells, m, (k - 1) as nat);
        let before = spec_add_volume_cell::<N, S>(trees, v, (k - 1) as nat);
        let subspace = S::spec_volume_cell_intersections(v)[k - 1];
        let coord = subspace.spec_project_coord(v);
        subspace.lemma_project_cell(v);
        lemma_insert_cell::<N, S>(before, subspace, coord);
        assert forall|i: int, at: Seq<PartitionID>| #[trigger]
            holds(after, i, at) && is_cell(at) && at.len() == N implies has_source::<N, S>(
            after[i].0,
            at,
            volume_cells,
            m + 1,
        ) by {
            if after[i].0 == subspace && at == coord {
                assert(S::spec_volume_cell_intersections(v).contains(subspace));
                assert(borders::<N, S>(subspace, at, volume_cells[m as int].1));
            } else {
                let j = choose|j: int| #[trigger] holds(before, j, at) && before[j].0 == after[i].0;
                assert(has_source::<N, S>(before[j].0, at, volume_cells, m + 1));
            }
        }
    }
}

/// Every face or edge cell that is derived from the first `m` volume cells
/// lies on the boundary of one of them.
pub proof fn lemma_derived_cells_have_source<const N: usize, S: Subspace<N>>(
    volume_cells: Seq<(R3Space, Seq<PartitionID>)>,
    m: nat,
)
    requires
        1 <= N <= 3,
        m <= volume_cells.len(),
        forall|k: int|
            0 <= k < volume_cells.len() ==> is_cell((#[trigger] volume_cells[k]).1)
                && volume_cells[k].1.len() == 3,
    ensures
        trees_wf(spec_build_from_volume_cells::<N, S>(volume_cells, m), N as nat),
        all_sourced::<N, S>(
            spec_build_from_volume_cells::<N, S>(volume_cells, m),
            volume_cells,
            m,
        ),
    decreases m,
{
    if m > 0 {
        lemma_derived_cells_have_source::<N, S>(volume_cells, (m - 1) as nat);
        let before = spec_build_from_volume_cells::<N, S>(volume_cells, (m - 1) as nat);
        let coord = volume_cells[m - 1].1;
        lemma_add_volume_cell::<N, S>(
            before,
            volume_cells,
            (m - 1) as nat,
            S::spec_volume_cell_intersections(coord).len(),
        );
    }
}

/// Whether a tree of the cell's subspace has a leaf at the cell.
pub open spec fn held<S>(trees: Seq<(S, TreeModel<Cell>)>, cell: (S, Seq<PartitionID>)) -> bool {
    exists|i: int| #[trigger] holds(trees, i, cell.1) && trees[i].0 == cell.0
}

/// Each cell that a collection lists is held by the tree of its subspace.
pub proof fn lemma_entries_are_held<S>(trees: Seq<(S, TreeModel<Cell>)>, n: nat)
    requires
        1 <= n <= 3,
        trees_wf(trees, n),
    ensures
        forall|k: int|
            0 <= k < spec_entries(trees, n).len() ==> held(
                trees,
                #[trigger] spec_entries(trees, n)[k],
            ),
    decreases trees.len(),
{
    if trees.len() > 0 {
        let front = trees.drop_last();
        lemma_entries_are_held(front, n);
        lemma_root_is_cell(n);
        let last = trees.last();
        assert(last.1.subtree(root_coord(n)) == last.1);
        lemma_leaves_are_found(last.1, root_coord(n), n);
        let before = spec_entries(front, n);
        let leaves = last.1.leaves(root_coord(n));
        let here = tag(last.0, leaves);
        let all = before + here;
        assert forall|k: int| 0 <= k < all.len() implies held(trees, #[trigger] all[k]) by {
            if k < before.len() {
                assert(all[k] == before[k]);
                assert(held(front, before[k]));
                let i = choose|i: int| #[trigger]
                    holds(front, i, before[k].1) && front[i].0 == before[k].0;
                assert(front[i] == trees[i]);
                assert(holds(trees, i, all[k].1));
            } else {
                let j = k - before.len();
                assert(all[k] == here[j]);
                assert(last.1.leaf_at(leaves[j].0) == Some(leaves[j].1));
                assert(holds(trees, trees.len() - 1, all[k].1));
            }
        }
    }
}

/// No orphans: every face or edge cell that the collection derived from
/// the given volume cells lists lies on the boundary of one of those
/// volume cells.
pub proof fn lemma_no_orphans<const N: usize, S: Subspace<N>>(
    volume_cells: Seq<(R3Space, Seq<PartitionID>)>,
)
    requires
        1 <= N <= 3,
        forall|k: int|
            0 <= k < volume_cells.len() ==> is_cell((#[trigger] volume_cells[k]).1)
                && volume_cells[k].1.len() == 3,
    ensures
        forall|k: int|
            0 <= k < spec_entries(
                spec_build_from_volume_cells::<N, S>(volume_cells, volume_cells.len()),
                N as nat,
            ).len() ==> {
                let cell = #[trigger] spec_entries(
                    spec_build_from_volume_cells::<N, S>(volume_cells, volume_cells.len()),
                    N as nat,
                )[k];
                has_source::<N, S>(cell.0, cell.1, volume_cells, volume_cells.len())
            },
{
    let trees = spec_build_from_volume_cells::<N, S>(volume_cells, volume_cells.len());
    let cells = spec_entries(trees, N as nat);
    lemma_derived_cells_have_source::<N, S>(volume_cells, volume_cells.len());
    lemma_entries_are_held(trees, N as nat);
    crate::cells::collection::lemma_entries_are_cells(trees, N as nat);
    assert forall|k: int| 0 <= k < cells.len() implies has_source::<N, S>(
        (#[trigger] cells[k]).0,
        cells[k].1,
        volume_cells,
        volume_cells.len(),
    ) by {
        assert(held(trees, cells[k]));
        let i = choose|i: int| #[trigger] holds(trees, i, cells[k].1) && trees[i].0 == cells[k].0;
        assert(is_cell(cells[k].1) && cells[k].1.len() == N);
    }
}

/// Whether the subspaces stand in their order, each once.
pub open spec fn in_rank_order<const N: usize, S: Subspace<N>>(
    trees: Seq<(S, TreeModel<Cell>)>,
) -> bool {
    forall|i: int, j: int|
        0 <= i < j < trees.len() ==> (#[trigger] trees[i]).0.rank() < (#[trigger] trees[j]).0.rank()
}

/// Whether no subspace of the collection comes before the given rank.
pub open spec fn ranks_from<const N: usize, S: Subspace<N>>(
    trees: Seq<(S, TreeModel<Cell>)>,
    rank: int,
) -> bool {
    forall|i: int| 0 <= i < trees.len() ==> rank <= (#[trigger] trees[i]).0.rank()
}

/// Inserting a cell inserts a leaf into the tree of its subspace, and
/// leaves the trees of the other subspaces as they are; the subspaces stay
/// in their order.
pub proof fn lemma_lookup_insert_cell<const N: usize, S: Subspace<N>>(
    trees: Seq<(S, TreeModel<Cell>)>,
    subspace: S,
    coord: Seq<PartitionID>,
    other: S,
    from: int,
)
    requires
        in_rank_order::<N, S>(trees),
        ranks_from::<N, S>(trees, from),
    ensures
        in_rank_order::<N, S>(spec_insert_cell(trees, subspace, coord)),
        ranks_from::<N, S>(
            spec_insert_cell(trees, subspace, coord),
            if from <= subspace.rank() {
                from
            } else {
                subspace.rank()
            },
        ),
        lookup(spec_insert_cell(trees, subspace, coord), other) == (if other == subspace {
            lookup(trees, subspace).insert_leaf(coord, Cell)
        } else {
            lookup(trees, other)
        }),
    decreases trees.len(),
{
    let after = spec_insert_cell(trees, subspace, coord);
    let low = if from <= subspace.rank() {
        from
    } else {
        subspace.rank()
    };
    if trees.len() > 0 && trees[0].0.rank() < subspace.rank() {
        let rest = trees.drop_first();
        let rest_after = spec_insert_cell(rest, subspace, coord);
        assert forall|i: int, j: int| 0 <= i < j < rest.len() implies (#[trigger] rest[i]).0.rank()
            < (#[trigger] rest[j]).0.rank() by {
            assert(rest[i] == trees[i + 1] && rest[j] == trees[j + 1]);
        }
        assert forall|i: int| 0 <= i < rest.len() implies trees[0].0.rank() + 1 <= (
        #[trigger] rest[i]).0.rank() by {
            assert(rest[i] == trees[i + 1]);
        }
        lemma_lookup_insert_cell::<N, S>(rest, subspace, coord, other, trees[0].0.rank() + 1);
        assert(after[0] == trees[0]);
        assert(after.drop_first() =~= rest_after);
        assert forall|i: int, j: int| 0 <= i < j < after.len() implies (
        #[trigger] after[i]).0.rank() < (#[trigger] after[j]).0.rank() by {
            assert(after[j] == rest_after[j - 1]);
            if i > 0 {
                assert(after[i] == rest_after[i - 1]);
            }
        }
        assert forall|i: int| 0 <= i < after.len() implies low <= (#[trigger] after[i]).0.rank() by {
            if i > 0 {
                assert(after[i] == rest_after[i - 1]);
            }
        }
        if trees[0].0 == other {
            assert(other != subspace);
        }
    } else if trees.len() > 0 && trees[0].0 == subspace {
        assert(after[0] == (subspace, trees[0].1.insert_leaf(coord, Cell)));
        assert(after.drop_first() =~= trees.drop_first());
        assert forall|i: int| 0 < i < after.len() implies after[i] == trees[i] by {}
        assert forall|i: int, j: int| 0 <= i < j < after.len() implies (
        #[trigger] after[i]).0.rank() < (#[trigger] after[j]).0.rank() by {
            assert(after[i].0 == trees[i].0 && after[j].0 == trees[j].0);
        }
        assert forall|i: int| 0 <= i < after.len() implies low <= (#[trigger] after[i]).0.rank() by {
            assert(after[i].0 == trees[i].0);
        }
    } else {
        assert(after =~= seq![(subspace, TreeModel::<Cell>::Empty.insert_leaf(coord, Cell))]
            + trees);
        assert(after.drop_first() =~= trees);
        assert forall|i: int| 0 < i < after.len() implies after[i] == trees[i - 1] by {}
        if trees.len() > 0 {
            if trees[0].0.rank() == subspace.rank() {
                trees[0].0.lemma_rank_injective(&subspace);
            }
        }
        assert forall|i: int, j: int| 0 <= i < j < after.len() implies (
        #[trigger] after[i]).0.rank() < (#[trigger] after[j]).0.rank() by {
            assert(after[j] == trees[j - 1]);
            if i > 0 {
                assert(after[i] == trees[i - 1]);
            } else {
                assert(trees[0].0.rank() <= trees[j - 1].0.rank());
            }
        }
        assert forall|i: int| 0 <= i < after.len() implies low <= (#[trigger] after[i]).0.rank() by {
            if i > 0 {
                assert(after[i] == trees[i - 1]);
            }
        }
        if other == subspace {
            lemma_lookup_absent::<N, S>(trees, subspace);
        }
    }
}

/// A subspace that comes before all those of a collection has no tree
/// there.
pub proof fn lemma_lookup_absent<const N: usize, S: Subspace<N>>(
    trees: Seq<(S, TreeModel<Cell>)>,
    subspace: S,
)
    requires
        forall|i: int| 0 <= i < trees.len() ==> (#[trigger] trees[i]).0 != subspace,
    ensures
        lookup(trees, subspace) == TreeModel::<Cell>::Empty,
    decreases trees.len(),
{
    if trees.len() > 0 {
        let rest = trees.drop_first();
        assert forall|i: int| 0 <= i < rest.len() implies (#[trigger] rest[i]).0 != subspace by {
            assert(rest[i] == trees[i + 1]);
        }
        lemma_lookup_absent::<N, S>(rest, subspace);
    }
}

} // verus!
