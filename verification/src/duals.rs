//! The cells at which the field is sampled to place the dual vertex of a
//! cell.

use crate::partition::coord::{
    coord_child, coord_rank, fan_out, is_cell, lemma_rank_injective, PartitionCoord,
};
use crate::partition::id::PartitionID;
use crate::partition::tree::{lemma_cell_child, lemma_cell_children};
use vstd::arithmetic::power2::pow2;
use vstd::prelude::*;

verus! {

/// Whether the list holds the coordinate.
pub open spec fn holds_coord<const N: usize>(list: Seq<PartitionCoord<N>>, x: Seq<PartitionID>) -> bool {
    exists|t: int| 0 <= t < list.len() && (#[trigger] list[t])@ == x
}

/// Whether the coordinates stand in lexicographic order, each once.
pub open spec fn in_order<const N: usize>(list: Seq<PartitionCoord<N>>) -> bool {
    forall|i: int, j: int|
        0 <= i < j < list.len() ==> coord_rank((#[trigger] list[i])@) < coord_rank(
            (#[trigger] list[j])@,
        )
}

/// Whether `x` is a cell that `pow` halvings in every dimension lead to
/// from the cell `coord`.
pub open spec fn is_subdivision(coord: Seq<PartitionID>, pow: nat, x: Seq<PartitionID>) -> bool
    decreases pow,
{
    if pow == 0 {
        x == coord
    } else {
        exists|p: Seq<PartitionID>, i: int|
            is_subdivision(coord, (pow - 1) as nat, p) && 0 <= i < pow2(coord.len()) && x
                == #[trigger] coord_child(p, i as nat)
    }
}

/// The cells that halvings lead to are cells, deeper by the number of
/// halvings.
pub proof fn lemma_subdivision_is_cell(coord: Seq<PartitionID>, pow: nat, x: Seq<PartitionID>)
    requires
        is_cell(coord),
        coord[0].depth() + pow <= 62,
        is_subdivision(coord, pow, x),
    ensures
        is_cell(x),
        x.len() == coord.len(),
        x[0].depth() == coord[0].depth() + pow,
    decreases pow,
{
    if pow > 0 {
        let (p, i) = choose|p: Seq<PartitionID>, i: int|
            is_subdivision(coord, (pow - 1) as nat, p) && 0 <= i < pow2(coord.len()) && x
                == #[trigger] coord_child(p, i as nat);
        lemma_subdivision_is_cell(coord, (pow - 1) as nat, p);
        lemma_cell_child(p, i as nat);
    }
}

/// Whether `x` is a child of one of the first `m` cells of the list, or
/// one of the first `k` children of the cell after them.
pub open spec fn is_child_up_to<const N: usize>(
    parents: Seq<PartitionCoord<N>>,
    m: int,
    k: int,
    x: Seq<PartitionID>,
) -> bool {
    exists|j: int, i: int|
        0 <= j < parents.len() && 0 <= i < pow2(N as nat) && (j < m || (j == m && i < k)) && x
            == #[trigger] coord_child(parents[j]@, i as nat)
}

/// Put a coordinate into a list that is in order, at its place, unless it
/// is there already.
pub fn insert_in_order<const N: usize>(list: &mut Vec<PartitionCoord<N>>, coord: PartitionCoord<N>)
    requires
        in_order(old(list)@),
    ensures
        in_order(final(list)@),
        forall|x: Seq<PartitionID>| #[trigger]
            holds_coord(final(list)@, x) <==> holds_coord(old(list)@, x) || x == coord@,
{
    let mut i: usize = 0;
    while i < list.len() && list[i].precedes(&coord)
        invariant
            i <= list.len(),
            *list == *old(list),
            forall|j: int| 0 <= j < i ==> coord_rank((#[trigger] list@[j])@) < coord_rank(coord@),
        decreases list.len() - i,
    {
        i += 1;
    }
    if i < list.len() && !coord.precedes(&list[i]) {
        proof {
            lemma_rank_injective(list@[i as int]@, coord@);
            assert forall|x: Seq<PartitionID>| #[trigger]
                holds_coord(list@, x) <==> holds_coord(old(list)@, x) || x == coord@ by {
                if x == coord@ {
                    assert(list@[i as int]@ == x);
                }
            }
        }
    } else {
        let ghost before = list@;
        list.insert(i, coord);
        proof {
            assert forall|a: int, b: int| 0 <= a < b < list@.len() implies coord_rank(
                (#[trigger] list@[a])@,
            ) < coord_rank((#[trigger] list@[b])@) by {
                let a0 = if a < i { a } else { a - 1 };
                let b0 = if b < i { b } else { b - 1 };
                if a != i && b != i {
                    assert(list@[a] == before[a0]);
                    assert(list@[b] == before[b0]);
                } else if a == i {
                    assert(list@[b] == before[b0]);
                    assert(coord_rank(before[i as int]@) <= coord_rank(before[b0]@));
                } else {
                    assert(list@[a] == before[a0]);
                }
            }
            assert forall|x: Seq<PartitionID>| #[trigger]
                holds_coord(list@, x) <==> holds_coord(before, x) || x == coord@ by {
                if holds_coord(list@, x) {
                    let t = choose|t: int| 0 <= t < list@.len() && (#[trigger] list@[t])@ == x;
                    if t != i {
                        let t0 = if t < i { t } else { t - 1 };
                        assert(before[t0]@ == x);
                    }
                }
                if holds_coord(before, x) {
                    let t = choose|t: int| 0 <= t < before.len() && (#[trigger] before[t])@ == x;
                    let t1 = if t < i { t } else { t + 1 };
                    assert(list@[t1]@ == x);
                }
                if x == coord@ {
                    assert(list@[i as int]@ == x);
                }
            }
        }
    }
}

/// The cells that `pow` halvings in every dimension lead to from the given
/// cell, in lexicographic order, each once.
pub fn subdivide_coord<const N: usize>(coord: &PartitionCoord<N>, pow: usize) -> (r: Vec<
    PartitionCoord<N>,
>)
    requires
        1 <= N <= 3,
        is_cell(coord@),
        coord@[0].depth() + pow <= 62,
    ensures
        in_order(r@),
        forall|x: Seq<PartitionID>| #[trigger] holds_coord(r@, x) <==> is_subdivision(coord@, pow as nat, x),
{
    let mut coords: Vec<PartitionCoord<N>> = Vec::new();
    coords.push(*coord);
    proof {
        assert forall|x: Seq<PartitionID>| #[trigger]
            holds_coord(coords@, x) <==> is_subdivision(coord@, 0, x) by {
            if x == coord@ {
                assert(coords@[0]@ == x);
            }
        }
    }
    let count = fan_out(N);
    let mut level: usize = 0;
    while level < pow
        invariant
            level <= pow,
            1 <= N <= 3,
            count == pow2(N as nat),
            is_cell(coord@),
            coord@.len() == N,
            coord@[0].depth() + pow <= 62,
            in_order(coords@),
            forall|x: Seq<PartitionID>| #[trigger]
                holds_coord(coords@, x) <==> is_subdivision(coord@, level as nat, x),
        decreases pow - level,
    {
        let mut next: Vec<PartitionCoord<N>> = Vec::new();
        let mut m: usize = 0;
        proof {
            assert forall|x: Seq<PartitionID>| #[trigger]
                holds_coord(next@, x) <==> is_child_up_to(coords@, 0, 0, x) by {}
        }
        while m < coords.len()
            invariant
                m <= coords.len(),
                level < pow,
                1 <= N <= 3,
                count == pow2(N as nat),
                is_cell(coord@),
                coord@.len() == N,
                coord@[0].depth() + pow <= 62,
                in_order(next@),
                forall|x: Seq<PartitionID>| #[trigger]
                    holds_coord(coords@, x) <==> is_subdivision(coord@, level as nat, x),
                forall|x: Seq<PartitionID>| #[trigger]
                    holds_coord(next@, x) <==> is_child_up_to(coords@, m as int, 0, x),
            decreases coords.len() - m,
        {
            let parent = coords[m];
            proof {
                assert(holds_coord(coords@, parent@));
                lemma_subdivision_is_cell(coord@, level as nat, parent@);
                lemma_cell_children(parent@);
            }
            let children = parent.child_coords();
            let mut k: usize = 0;
            while k < count
                invariant
                    k <= count,
                    m < coords.len(),
                    count == pow2(N as nat),
                    children.len() == count,
                    parent == coords@[m as int],
                    forall|i: int|
                        0 <= i < count ==> (#[trigger] children[i])@ == coord_child(
                            parent@,
                            i as nat,
                        ),
                    in_order(next@),
                    forall|x: Seq<PartitionID>| #[trigger]
                        holds_coord(next@, x) <==> is_child_up_to(coords@, m as int, k as int, x),
                decreases count - k,
            {
                let ghost before = next@;
                insert_in_order(&mut next, children[k]);
                proof {
                    let c = children[k as int]@;
                    assert forall|x: Seq<PartitionID>| #[trigger]
                        holds_coord(next@, x) <==> is_child_up_to(
                            coords@,
                            m as int,
                            k + 1,
                            x,
                        ) by {
                        assert(holds_coord(next@, x) <==> holds_coord(before, x) || x == c);
                        assert(holds_coord(before, x) <==> is_child_up_to(
                            coords@,
                            m as int,
                            k as int,
                            x,
                        ));
                        if is_child_up_to(coords@, m as int, k as int, x) {
                            let (j, i) = choose|j: int, i: int|
                                0 <= j < coords@.len() && 0 <= i < pow2(N as nat) && (j < m || (j
                                    == m && i < k)) && x == #[trigger] coord_child(
                                    coords@[j]@,
                                    i as nat,
                                );
                            assert(x == coord_child(coords@[j]@, i as nat));
                        }
                        if x == c {
                            assert(x == coord_child(coords@[m as int]@, k as nat));
                        }
                        if is_child_up_to(coords@, m as int, k + 1, x) {
                            let (j, i) = choose|j: int, i: int|
                                0 <= j < coords@.len() && 0 <= i < pow2(N as nat) && (j < m || (j
                                    == m && i < k + 1)) && x == #[trigger] coord_child(
                                    coords@[j]@,
                                    i as nat,
                                );
                            if j == m && i == k {
                                assert(x == c);
                            } else {
                                assert(x == coord_child(coords@[j]@, i as nat));
                                assert(is_child_up_to(coords@, m as int, k as int, x));
                            }
                        }
                    }
                }
                k += 1;
            }
            proof {
                assert forall|x: Seq<PartitionID>| #[trigger]
                    holds_coord(next@, x) <==> is_child_up_to(coords@, m + 1, 0, x) by {
                    if is_child_up_to(coords@, m as int, count as int, x) {
                        let (j, i) = choose|j: int, i: int|
                            0 <= j < coords@.len() && 0 <= i < pow2(N as nat) && (j < m || (j == m
                                && i < count)) && x == #[trigger] coord_child(
                                coords@[j]@,
                                i as nat,
                            );
                        assert(x == coord_child(coords@[j]@, i as nat));
                    }
                    if is_child_up_to(coords@, m + 1, 0, x) {
                        let (j, i) = choose|j: int, i: int|
                            0 <= j < coords@.len() && 0 <= i < pow2(N as nat) && (j < m + 1 || (j
                                == m + 1 && i < 0)) && x == #[trigger] coord_child(
                                coords@[j]@,
                                i as nat,
                            );
                        assert(x == coord_child(coords@[j]@, i as nat));
                    }
                }
            }
            m += 1;
        }
        proof {
            assert forall|x: Seq<PartitionID>| #[trigger]
                holds_coord(next@, x) <==> is_subdivision(coord@, (level + 1) as nat, x) by {
                if is_child_up_to(coords@, coords@.len() as int, 0, x) {
                    let (j, i) = choose|j: int, i: int|
                        0 <= j < coords@.len() && 0 <= i < pow2(N as nat) && (j < coords@.len()
                            || (j == coords@.len() && i < 0)) && x == #[trigger] coord_child(
                            coords@[j]@,
                            i as nat,
                        );
                    assert(holds_coord(coords@, coords@[j]@));
                    assert(is_subdivision(coord@, level as nat, coords@[j]@));
                    assert(x == coord_child(coords@[j]@, i as nat));
                }
                if is_subdivision(coord@, (level + 1) as nat, x) {
                    let (p, i) = choose|p: Seq<PartitionID>, i: int|
                        is_subdivision(coord@, level as nat, p) && 0 <= i < pow2(coord@.len())
                            && x == #[trigger] coord_child(p, i as nat);
                    assert(holds_coord(coords@, p));
                    let t = choose|t: int| 0 <= t < coords@.len() && (#[trigger] coords@[t])@ == p;
                    assert(x == coord_child(coords@[t]@, i as nat));
                }
            }
        }
        coords = next;
        level += 1;
    }
    coords
}

} // verus!
