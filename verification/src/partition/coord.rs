//! Coordinates of the cells of a binary partition of the unit square, cube
//! or interval: one segment identifier for each dimension.

use crate::partition::id::PartitionID;
use vstd::arithmetic::power2::{lemma2_to64, pow2};
use vstd::prelude::*;

verus! {

/// Whether every component names a segment.
pub open spec fn all_segments(c: Seq<PartitionID>) -> bool {
    forall|i: int| 0 <= i < c.len() ==> (#[trigger] c[i]).is_segment()
}

/// Whether every component names a segment that can be halved.
pub open spec fn all_have_children(c: Seq<PartitionID>) -> bool {
    forall|i: int| 0 <= i < c.len() ==> (#[trigger] c[i]).has_children()
}

/// Whether the coordinate names a cell: every component is a segment, and
/// all are of the same depth.
pub open spec fn is_cell(c: Seq<PartitionID>) -> bool {
    &&& c.len() >= 1
    &&& all_segments(c)
    &&& forall|i: int| 0 <= i < c.len() ==> (#[trigger] c[i]).depth() == c[0].depth()
}

/// A coordinate is at the root of a tree as soon as one component is.
pub open spec fn coord_is_root(c: Seq<PartitionID>) -> bool {
    exists|i: int| 0 <= i < c.len() && (#[trigger] c[i]).spec_is_root()
}

/// The index of the child of a tree's root that holds the coordinate:
/// component `d` gives bit `d`.
pub open spec fn coord_tree_index(c: Seq<PartitionID>) -> nat
    decreases c.len(),
{
    if c.len() == 0 {
        0
    } else {
        coord_tree_index(c.drop_last()) + c.last().spec_tree_index() as nat * pow2(
            (c.len() - 1) as nat,
        )
    }
}

/// The coordinate as seen from the child of the root that holds it.
pub open spec fn coord_id_at_child(c: Seq<PartitionID>) -> Seq<PartitionID> {
    Seq::new(c.len(), |d: int| c[d].spec_id_at_child())
}

/// The upper bound of each component.
pub open spec fn coord_high_parents(c: Seq<PartitionID>) -> Seq<PartitionID> {
    Seq::new(c.len(), |d: int| c[d].spec_high_parent())
}

/// The lower bound of each component.
pub open spec fn coord_low_parents(c: Seq<PartitionID>) -> Seq<PartitionID> {
    Seq::new(c.len(), |d: int| c[d].spec_low_parent())
}

/// Bit `d` of `index`.
pub open spec fn index_bit(index: nat, d: int) -> bool {
    (index / pow2(d as nat)) % 2 == 1
}

/// The child cell with the given index: bit `d` of the index chooses the
/// upper half in dimension `d`.
pub open spec fn coord_child(c: Seq<PartitionID>, index: nat) -> Seq<PartitionID> {
    Seq::new(
        c.len(),
        |d: int|
            if index_bit(index, d) {
                c[d].spec_high_child()
            } else {
                c[d].spec_low_child()
            },
    )
}

/// The corner with the given index: bit `d` of the index chooses the upper
/// bound in dimension `d`.
pub open spec fn coord_vertex(c: Seq<PartitionID>, index: nat) -> Seq<PartitionID> {
    Seq::new(
        c.len(),
        |d: int|
            if index_bit(index, d) {
                c[d].spec_high_parent()
            } else {
                c[d].spec_low_parent()
            },
    )
}

/// The position of each component as a fraction in lowest terms.
pub open spec fn coord_norm_pos(c: Seq<PartitionID>) -> Seq<(u64, u64)> {
    Seq::new(c.len(), |d: int| c[d].spec_norm_pos())
}

/// The index of a child is below two to the number of dimensions.
pub proof fn lemma_tree_index_bound(c: Seq<PartitionID>)
    ensures
        coord_tree_index(c) < pow2(c.len()),
    decreases c.len(),
{
    lemma2_to64();
    if c.len() > 0 {
        lemma_tree_index_bound(c.drop_last());
        vstd::arithmetic::power2::lemma_pow2_unfold(c.len());
        let bit = c.last().spec_tree_index() as nat;
        let p = pow2((c.len() - 1) as nat);
        assert(bit * p <= p) by (nonlinear_arith)
            requires
                bit <= 1,
        ;
    }
}

/// Whether, in dimension `d`, the centre of the cell `c` is one of the two
/// bounds of its child with the given index: the upper bound of a child
/// that is the lower half, the lower bound of one that is the upper half.
pub open spec fn center_bounds_child(c: Seq<PartitionID>, index: nat, d: int) -> bool {
    let child = coord_child(c, index);
    let low = coord_low_parents(child)[d];
    let high = coord_high_parents(child)[d];
    &&& low.0 <= c[d].0 <= high.0
    &&& low.0 < high.0
    &&& index_bit(index, d) ==> low == c[d]
    &&& !index_bit(index, d) ==> high == c[d]
}

/// The centre of a cell lies on the boundary of each of its children: in
/// every dimension it lies between the bounds of the child, and is one of
/// them.
pub proof fn lemma_center_bounds_child(c: Seq<PartitionID>, index: nat)
    requires
        all_have_children(c),
    ensures
        forall|d: int| 0 <= d < c.len() ==> #[trigger] center_bounds_child(c, index, d),
{
    let child = coord_child(c, index);
    assert forall|d: int| 0 <= d < c.len() implies #[trigger] center_bounds_child(
        c,
        index,
        d,
    ) by {
        assert(c[d].has_children());
        c[d].lemma_children();
        c[d].lemma_parent_of_child();
        c[d].lemma_segment();
        child[d].lemma_segment();
    }
}

/// The place of a coordinate in the lexicographic order of the coordinates
/// of its dimension: the first component counts most.
pub open spec fn coord_rank(c: Seq<PartitionID>) -> int
    decreases c.len(),
{
    if c.len() == 0 {
        0
    } else {
        coord_rank(c.drop_last()) * 0x1_0000_0000_0000_0000 + c.last().0
    }
}

/// The rank of a coordinate is not negative.
pub proof fn lemma_rank_bound(c: Seq<PartitionID>)
    ensures
        0 <= coord_rank(c),
    decreases c.len(),
{
    if c.len() > 0 {
        lemma_rank_bound(c.drop_last());
    }
}

/// Where two coordinates agree up to a component in which the first is
/// smaller, the first has the smaller rank.
pub proof fn lemma_rank_lexicographic(a: Seq<PartitionID>, b: Seq<PartitionID>, i: int)
    requires
        a.len() == b.len(),
        0 <= i < a.len(),
        forall|j: int| 0 <= j < i ==> a[j] == b[j],
        a[i].0 < b[i].0,
    ensures
        coord_rank(a) < coord_rank(b),
    decreases a.len(),
{
    let a0 = a.drop_last();
    let b0 = b.drop_last();
    if i == a.len() - 1 {
        assert(a0 =~= b0);
    } else {
        lemma_rank_lexicographic(a0, b0, i);
    }
}

/// Coordinates of the same rank are the same.
pub proof fn lemma_rank_injective(a: Seq<PartitionID>, b: Seq<PartitionID>)
    requires
        a.len() == b.len(),
        coord_rank(a) == coord_rank(b),
    ensures
        a == b,
    decreases a.len(),
{
    if a.len() > 0 {
        lemma_rank_bound(a.drop_last());
        lemma_rank_bound(b.drop_last());
        lemma_rank_injective(a.drop_last(), b.drop_last());
        assert(a =~= a.drop_last().push(a.last()));
        assert(b =~= b.drop_last().push(b.last()));
    } else {
        assert(a =~= b);
    }
}

/// An N-dimensional coordinate: one segment identifier for each dimension.
#[derive(Clone, Copy, PartialEq, Eq, PartialOrd, Ord, Hash, Debug)]
pub struct PartitionCoord<const N: usize>(pub [PartitionID; N]);

impl<const N: usize> View for PartitionCoord<N> {
    type V = Seq<PartitionID>;

    open spec fn view(&self) -> Seq<PartitionID> {
        self.0@
    }
}

impl<const N: usize> PartitionCoord<N> {
    /// The index, in the children of the root of a tree, of the child that
    /// holds this coordinate.
    pub fn tree_index(&self) -> (r: usize)
        requires
            N <= 3,
        ensures
            r == coord_tree_index(self@),
            r < pow2(N as nat),
    {
        let mut index: usize = 0;
        let mut mul: usize = 1;
        let mut i: usize = 0;
        proof {
            lemma2_to64();
            assert(self@.take(0) =~= Seq::<PartitionID>::empty());
        }
        while i < N
            invariant
                i <= N <= 3,
                mul == pow2(i as nat),
                index == coord_tree_index(self@.take(i as int)),
                index < mul,
                self@.len() == N,
            decreases N - i,
        {
            let bit = self.0[i].tree_index();
            proof {
                lemma2_to64();
                let s = self@.take(i + 1);
                assert(s.drop_last() =~= self@.take(i as int));
                assert(s.last() == self@[i as int]);
                assert(bit * mul <= mul) by (nonlinear_arith)
                    requires
                        bit <= 1,
                ;
                assert(mul << 1 == 2 * mul) by (bit_vector)
                    requires
                        mul <= 8,
                ;
            }
            index += bit * mul;
            mul <<= 1;
            i += 1;
        }
        proof {
            assert(self@.take(N as int) =~= self@);
        }
        index
    }

    /// The same coordinate, seen from the child of the root that holds it.
    pub fn id_at_child(&self) -> (r: Self)
        ensures
            r@ == coord_id_at_child(self@),
    {
        let mut out = *self;
        let mut i: usize = 0;
        while i < N
            invariant
                i <= N,
                out@.len() == N,
                self@.len() == N,
                forall|j: int| 0 <= j < i ==> out@[j] == self@[j].spec_id_at_child(),
            decreases N - i,
        {
            out.0[i] = self.0[i].id_at_child();
            i += 1;
        }
        proof {
            assert(out@ =~= coord_id_at_child(self@));
        }
        out
    }

    /// Whether some component is the whole interval.
    pub fn is_root(&self) -> (r: bool)
        ensures
            r == coord_is_root(self@),
    {
        let mut i: usize = 0;
        while i < N
            invariant
                i <= N,
                self@.len() == N,
                forall|j: int| 0 <= j < i ==> !(#[trigger] self@[j]).spec_is_root(),
            decreases N - i,
        {
            if self.0[i].is_root() {
                return true;
            }
            i += 1;
        }
        false
    }

    /// The coordinate made of the upper bound of each component.
    pub fn high_parents(&self) -> (r: Self)
        requires
            all_segments(self@),
        ensures
            r@ == coord_high_parents(self@),
    {
        let mut out = *self;
        let mut i: usize = 0;
        while i < N
            invariant
                i <= N,
                out@.len() == N,
                self@.len() == N,
                all_segments(self@),
                forall|j: int| 0 <= j < i ==> out@[j] == self@[j].spec_high_parent(),
            decreases N - i,
        {
            out.0[i] = self.0[i].high_parent();
            i += 1;
        }
        proof {
            assert(out@ =~= coord_high_parents(self@));
        }
        out
    }

    /// The coordinate made of the lower bound of each component.
    pub fn low_parents(&self) -> (r: Self)
        requires
            all_segments(self@),
        ensures
            r@ == coord_low_parents(self@),
    {
        let mut out = *self;
        let mut i: usize = 0;
        while i < N
            invariant
                i <= N,
                out@.len() == N,
                self@.len() == N,
                all_segments(self@),
                forall|j: int| 0 <= j < i ==> out@[j] == self@[j].spec_low_parent(),
            decreases N - i,
        {
            out.0[i] = self.0[i].low_parent();
            i += 1;
        }
        proof {
            assert(out@ =~= coord_low_parents(self@));
        }
        out
    }

    /// The child cell with the given index.
    pub fn child_coord(&self, index: usize) -> (r: Self)
        requires
            all_have_children(self@),
        ensures
            r@ == coord_child(self@, index as nat),
    {
        let mut out = *self;
        let mut index_bits = index;
        let mut dim: usize = 0;
        proof {
            lemma2_to64();
        }
        while dim < N
            invariant
                dim <= N,
                out@.len() == N,
                self@.len() == N,
                all_have_children(self@),
                index_bits == index as nat / pow2(dim as nat),
                forall|j: int|
                    0 <= j < dim ==> out@[j] == (if index_bit(index as nat, j) {
                        self@[j].spec_high_child()
                    } else {
                        self@[j].spec_low_child()
                    }),
            decreases N - dim,
        {
            proof {
                lemma_shift_index(index as nat, dim as nat);
                assert((index_bits & 1 != 0) == (index_bits % 2 == 1)) by (bit_vector);
                assert(index_bits >> 1 == index_bits / 2) by (bit_vector);
            }
            out.0[dim] = if index_bits & 1 != 0 {
                self.0[dim].high_child()
            } else {
                self.0[dim].low_child()
            };
            index_bits >>= 1;
            dim += 1;
        }
        proof {
            assert(out@ =~= coord_child(self@, index as nat));
        }
        out
    }

    /// Every combination of the lower and the upper half of each component:
    /// the child cells, in the order of their indices.
    pub fn child_coords(&self) -> (r: Vec<PartitionCoord<N>>)
        requires
            N <= 3,
            all_have_children(self@),
        ensures
            r.len() == pow2(N as nat),
            forall|k: int| 0 <= k < r.len() ==> (#[trigger] r[k])@ == coord_child(self@, k as nat),
    {
        let count = fan_out(N);
        let mut coords: Vec<PartitionCoord<N>> = Vec::new();
        let mut index: usize = 0;
        while index < count
            invariant
                index <= count,
                coords.len() == index,
                all_have_children(self@),
                forall|k: int|
                    0 <= k < index ==> (#[trigger] coords[k])@ == coord_child(self@, k as nat),
            decreases count - index,
        {
            coords.push(self.child_coord(index));
            index += 1;
        }
        coords
    }

    /// The corner with the given index.
    pub fn vertex_coord(&self, index: usize) -> (r: Self)
        requires
            all_segments(self@),
        ensures
            r@ == coord_vertex(self@, index as nat),
    {
        let mut out = *self;
        let mut index_div = index;
        let mut dim: usize = 0;
        proof {
            lemma2_to64();
        }
        while dim < N
            invariant
                dim <= N,
                out@.len() == N,
                self@.len() == N,
                all_segments(self@),
                index_div == index as nat / pow2(dim as nat),
                forall|j: int|
                    0 <= j < dim ==> out@[j] == (if index_bit(index as nat, j) {
                        self@[j].spec_high_parent()
                    } else {
                        self@[j].spec_low_parent()
                    }),
            decreases N - dim,
        {
            proof {
                lemma_shift_index(index as nat, dim as nat);
            }
            if index_div % 2 == 0 {
                out.0[dim] = self.0[dim].low_parent();
            } else {
                out.0[dim] = self.0[dim].high_parent();
            }
            index_div /= 2;
            dim += 1;
        }
        proof {
            assert(out@ =~= coord_vertex(self@, index as nat));
        }
        out
    }

    /// The coordinates of every corner of the cell, in the order of their
    /// indices.
    pub fn vertex_coords(&self) -> (r: Vec<PartitionCoord<N>>)
        requires
            N <= 3,
            all_segments(self@),
        ensures
            r.len() == pow2(N as nat),
            forall|k: int|
                0 <= k < r.len() ==> (#[trigger] r[k])@ == coord_vertex(self@, k as nat),
    {
        let count = fan_out(N);
        let mut coords: Vec<PartitionCoord<N>> = Vec::new();
        let mut index: usize = 0;
        while index < count
            invariant
                index <= count,
                coords.len() == index,
                all_segments(self@),
                forall|k: int|
                    0 <= k < index ==> (#[trigger] coords[k])@ == coord_vertex(self@, k as nat),
            decreases count - index,
        {
            coords.push(self.vertex_coord(index));
            index += 1;
        }
        coords
    }

    /// Whether this coordinate comes before the other in the lexicographic
    /// order.
    pub fn precedes(&self, other: &Self) -> (r: bool)
        ensures
            r == (coord_rank(self@) < coord_rank(other@)),
    {
        let mut i: usize = 0;
        while i < N
            invariant
                i <= N,
                self@.len() == N,
                other@.len() == N,
                forall|j: int| 0 <= j < i ==> self@[j] == other@[j],
            decreases N - i,
        {
            if self.0[i].0 < other.0[i].0 {
                proof {
                    lemma_rank_lexicographic(self@, other@, i as int);
                }
                return true;
            }
            if self.0[i].0 > other.0[i].0 {
                proof {
                    lemma_rank_lexicographic(other@, self@, i as int);
                }
                return false;
            }
            i += 1;
        }
        proof {
            assert(self@ =~= other@);
        }
        false
    }

    /// Whether the two coordinates have the same components.
    pub fn same(&self, other: &Self) -> (r: bool)
        ensures
            r == (self@ == other@),
    {
        let mut i: usize = 0;
        while i < N
            invariant
                i <= N,
                self@.len() == N,
                other@.len() == N,
                forall|j: int| 0 <= j < i ==> self@[j] == other@[j],
            decreases N - i,
        {
            if self.0[i] != other.0[i] {
                return false;
            }
            i += 1;
        }
        proof {
            assert(self@ =~= other@);
        }
        true
    }

    /// The position of each component, as the numerator and the denominator
    /// of a fraction in lowest terms.
    pub fn norm_pos(&self) -> (r: [(u64, u64); N])
        ensures
            r@ == coord_norm_pos(self@),
    {
        let mut out: [(u64, u64); N] = [(0u64, 1u64);N];
        let mut i: usize = 0;
        while i < N
            invariant
                i <= N,
                out@.len() == N,
                self@.len() == N,
                forall|j: int| 0 <= j < i ==> out@[j] == self@[j].spec_norm_pos(),
            decreases N - i,
        {
            out[i] = self.0[i].norm_pos();
            i += 1;
        }
        proof {
            assert(out@ =~= coord_norm_pos(self@));
        }
        out
    }
}

/// The number of children of a cell in `n` dimensions.
pub fn fan_out(n: usize) -> (r: usize)
    requires
        n <= 3,
    ensures
        r == pow2(n as nat),
        1 <= r <= 8,
{
    proof {
        lemma2_to64();
        assert(1usize << 0 == 1) by (bit_vector);
        assert(1usize << 1 == 2) by (bit_vector);
        assert(1usize << 2 == 4) by (bit_vector);
        assert(1usize << 3 == 8) by (bit_vector);
    }
    1usize << n
}

/// Dropping one more bit of an index halves what is left of it.
pub proof fn lemma_shift_index(index: nat, d: nat)
    ensures
        pow2(d) >= 1,
        (index / pow2(d)) / 2 == index / pow2(d + 1),
{
    vstd::arithmetic::power2::lemma_pow2_pos(d);
    vstd::arithmetic::power2::lemma_pow2_unfold(d + 1);
    vstd::arithmetic::div_mod::lemma_div_denominator(index as int, pow2(d) as int, 2);
    assert(pow2(d) * 2 == pow2(d + 1));
}

impl<const N: usize> Default for PartitionCoord<N> {
    /// The coordinate of the whole box.
    fn default() -> (r: Self)
        ensures
            r@ == Seq::new(N as nat, |d: int| PartitionID(crate::partition::id::ROOT_ID)),
    {
        let root = PartitionID(crate::partition::id::ROOT_ID);
        let out = PartitionCoord([root;N]);
        proof {
            vstd::array::axiom_spec_array_fill_for_copy_type::<PartitionID, N>(root);
            assert(out@ =~= Seq::new(N as nat, |d: int| PartitionID(crate::partition::id::ROOT_ID)));
        }
        out
    }
}

/// The index of the child that holds a coordinate, written out for up to
/// three dimensions.
pub proof fn lemma_tree_index_unfold(c: Seq<PartitionID>)
    requires
        c.len() <= 3,
    ensures
        c.len() == 0 ==> coord_tree_index(c) == 0,
        c.len() == 1 ==> coord_tree_index(c) == c[0].spec_tree_index(),
        c.len() == 2 ==> coord_tree_index(c) == c[0].spec_tree_index() + 2
            * c[1].spec_tree_index(),
        c.len() == 3 ==> coord_tree_index(c) == c[0].spec_tree_index() + 2
            * c[1].spec_tree_index() + 4 * c[2].spec_tree_index(),
    decreases c.len(),
{
    lemma2_to64();
    if c.len() >= 1 {
        lemma_tree_index_unfold(c.drop_last());
        let bit = c.last().spec_tree_index() as nat;
        let p = pow2((c.len() - 1) as nat);
        assert(coord_tree_index(c) == coord_tree_index(c.drop_last()) + bit * p);
        assert(bit * p == if c.len() == 1 {
            bit
        } else if c.len() == 2 {
            2 * bit
        } else {
            4 * bit
        }) by (nonlinear_arith)
            requires
                p == (if c.len() == 1 {
                    1nat
                } else if c.len() == 2 {
                    2nat
                } else {
                    4nat
                }),
        ;
        if c.len() >= 2 {
            assert(c.drop_last()[0] == c[0]);
        }
        if c.len() >= 3 {
            assert(c.drop_last()[1] == c[1]);
        }
    }
}

/// Bit `d` of an index below eight, for `d` below three.
pub proof fn lemma_index_bits(index: nat)
    ensures
        index_bit(index, 0) == (index % 2 == 1),
        index_bit(index, 1) == ((index / 2) % 2 == 1),
        index_bit(index, 2) == ((index / 4) % 2 == 1),
{
    lemma2_to64();
    assert(pow2(0int as nat) == 1);
    assert(pow2(1int as nat) == 2);
    assert(pow2(2int as nat) == 4);
}

/// Seen from the root, each child of the root cell is the root cell, in the
/// child of the root that has its index.
pub proof fn lemma_child_of_root(c: Seq<PartitionID>, index: nat)
    requires
        is_cell(c),
        c.len() <= 3,
        coord_is_root(c),
        index < pow2(c.len()),
    ensures
        !coord_is_root(coord_child(c, index)),
        coord_tree_index(coord_child(c, index)) == index,
        coord_id_at_child(coord_child(c, index)) == c,
{
    lemma2_to64();
    lemma_index_bits(index);
    let child = coord_child(c, index);
    let r = choose|i: int| 0 <= i < c.len() && (#[trigger] c[i]).spec_is_root();
    c[r].lemma_segment();
    assert forall|d: int| 0 <= d < c.len() implies (#[trigger] c[d]).spec_is_root() && c[d].has_children()
        && !child[d].spec_is_root() && child[d].spec_id_at_child() == c[d]
        && child[d].spec_tree_index() == (if index_bit(index, d) {
        1usize
    } else {
        0usize
    }) by {
        assert(c[d].depth() == c[0].depth());
        assert(c[r].depth() == c[0].depth());
        c[d].lemma_segment();
        c[d].lemma_children();
        c[d].lemma_child_at_child();
        child[d].lemma_segment();
    }
    assert(coord_id_at_child(child) =~= c);
    lemma_tree_index_unfold(child);
    if coord_is_root(child) {
        let i = choose|i: int| 0 <= i < child.len() && (#[trigger] child[i]).spec_is_root();
        assert(c[i].spec_is_root());
    }
}

/// Seen from the child of the root that holds them, the children of a cell
/// below the root are the children of what the cell is seen as; and they
/// are held by the same child of the root as the cell.
pub proof fn lemma_child_below_root(c: Seq<PartitionID>, index: nat)
    requires
        is_cell(c),
        c.len() <= 3,
        !coord_is_root(c),
        c[0].depth() <= 61,
    ensures
        !coord_is_root(coord_child(c, index)),
        coord_tree_index(coord_child(c, index)) == coord_tree_index(c),
        coord_id_at_child(coord_child(c, index)) == coord_child(coord_id_at_child(c), index),
{
    let child = coord_child(c, index);
    assert forall|d: int| 0 <= d < c.len() implies !(#[trigger] c[d]).spec_is_root()
        && !child[d].spec_is_root() && child[d].spec_id_at_child() == coord_child(
        coord_id_at_child(c),
        index,
    )[d] && child[d].spec_tree_index() == c[d].spec_tree_index() by {
        assert(c[d].depth() == c[0].depth());
        c[d].lemma_segment();
        c[d].lemma_children();
        c[d].lemma_child_at_child();
        child[d].lemma_segment();
    }
    assert(coord_id_at_child(child) =~= coord_child(coord_id_at_child(c), index));
    lemma_tree_index_unfold(child);
    lemma_tree_index_unfold(c);
    if coord_is_root(child) {
        let i = choose|i: int| 0 <= i < child.len() && (#[trigger] child[i]).spec_is_root();
        assert(!child[i].spec_is_root());
    }
}

/// Two cells below the root that are held by the same child of the root
/// and are seen from it as the same cell are the same cell.
pub proof fn lemma_descent_is_injective(a: Seq<PartitionID>, b: Seq<PartitionID>)
    requires
        is_cell(a),
        is_cell(b),
        a.len() == b.len() <= 3,
        !coord_is_root(a),
        !coord_is_root(b),
        coord_tree_index(a) == coord_tree_index(b),
        coord_id_at_child(a) == coord_id_at_child(b),
    ensures
        a == b,
{
    lemma_tree_index_unfold(a);
    lemma_tree_index_unfold(b);
    assert forall|d: int| 0 <= d < a.len() implies a[d] == b[d] by {
        assert(a[d].is_segment() && b[d].is_segment());
        assert(!a[d].spec_is_root() && !b[d].spec_is_root());
        a[d].lemma_id_at_child();
        b[d].lemma_id_at_child();
        assert(coord_id_at_child(a)[d] == a[d].spec_id_at_child());
        assert(coord_id_at_child(b)[d] == b[d].spec_id_at_child());
        assert(a[d].spec_tree_index() <= 1 && b[d].spec_tree_index() <= 1);
    }
    assert(a =~= b);
}

/// Two cells at the root are the same cell.
pub proof fn lemma_root_is_unique(a: Seq<PartitionID>, b: Seq<PartitionID>)
    requires
        is_cell(a),
        is_cell(b),
        a.len() == b.len(),
        coord_is_root(a),
        coord_is_root(b),
    ensures
        a == b,
{
    let i = choose|i: int| 0 <= i < a.len() && (#[trigger] a[i]).spec_is_root();
    let j = choose|j: int| 0 <= j < b.len() && (#[trigger] b[j]).spec_is_root();
    a[i].lemma_segment();
    b[j].lemma_segment();
    assert forall|d: int| 0 <= d < a.len() implies a[d] == b[d] by {
        assert(a[d].depth() == a[0].depth() && a[i].depth() == a[0].depth());
        assert(b[d].depth() == b[0].depth() && b[j].depth() == b[0].depth());
        a[d].lemma_segment();
        b[d].lemma_segment();
    }
    assert(a =~= b);
}

} // verus!
