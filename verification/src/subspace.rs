//! The axis-aligned subspaces of the box that cells live in: the box itself,
//! the planes of its faces and the lines of its edges.

use crate::data::Dimension;
use crate::partition::coord::{
    all_segments, coord_high_parents, coord_low_parents, is_cell, PartitionCoord,
};
use crate::partition::id::PartitionID;
use vstd::prelude::*;

verus! {

/// The components of a vector of the box at the given axes.
pub open spec fn project_seq<T>(axes: Seq<int>, vec: Seq<T>) -> Seq<T> {
    Seq::new(axes.len(), |i: int| vec[axes[i]])
}

/// The vector `onto` of the box, with the components at the given axes
/// replaced by those of `vec`.
pub open spec fn unproject_seq<T>(axes: Seq<int>, vec: Seq<T>, onto: Seq<T>) -> Seq<T> {
    Seq::new(
        onto.len(),
        |k: int|
            if axes.contains(k) {
                vec[axes.index_of(k)]
            } else {
                onto[k]
            },
    )
}

/// An N-dimensional axis-aligned subspace of the box. Coordinates and
/// vectors of the box are projected into it by dropping the components that
/// the subspace fixes, and brought back by putting them in again.
pub trait Subspace<const N: usize>: Sized + Copy {
    /// The place of the subspace in the order of its kind.
    spec fn rank(&self) -> int;

    /// A coordinate of the box without the components that the subspace
    /// fixes.
    spec fn spec_project_coord(&self, coord: Seq<PartitionID>) -> Seq<PartitionID>;

    /// A coordinate of the subspace with the position of the subspace put in
    /// at the components that it fixes.
    spec fn spec_unproject_coord(&self, coord: Seq<PartitionID>) -> Seq<PartitionID>;

    /// The components of the box that are free in the subspace, in
    /// increasing order.
    spec fn axes(&self) -> Seq<int>;

    /// The subspaces of this kind along the boundary of a cell of the box:
    /// the planes of its six faces, or the lines of its twelve edges.
    spec fn spec_volume_cell_intersections(coord: Seq<PartitionID>) -> Seq<Self>;

    /// Two subspaces of the same rank are the same subspace.
    proof fn lemma_rank_injective(&self, other: &Self)
        requires
            self.rank() == other.rank(),
        ensures
            *self == *other,
    ;

    /// Projecting what was brought back from the subspace gives it back.
    proof fn lemma_project_unproject(&self, coord: Seq<PartitionID>)
        requires
            coord.len() == N,
        ensures
            self.spec_project_coord(self.spec_unproject_coord(coord)) == coord,
            self.spec_unproject_coord(coord).len() == 3,
    ;

    /// A cell of the box projects to a cell of the subspace, of the same
    /// depth.
    proof fn lemma_project_cell(&self, coord: Seq<PartitionID>)
        requires
            is_cell(coord),
            coord.len() == 3,
        ensures
            is_cell(self.spec_project_coord(coord)),
            self.spec_project_coord(coord).len() == N,
            self.spec_project_coord(coord)[0].depth() == coord[0].depth(),
    ;

    /// Whether this subspace comes before the other in the order of their
    /// kind.
    fn precedes(&self, other: &Self) -> (r: bool)
        ensures
            r == (self.rank() < other.rank()),
    ;

    /// Project a coordinate of the box into this subspace.
    fn project_coord(&self, coord: &PartitionCoord<3>) -> (r: PartitionCoord<N>)
        ensures
            r@ == self.spec_project_coord(coord@),
    ;

    /// Project a vector of the box into this subspace.
    fn project_vec<T: Copy>(&self, vec: &[T; 3]) -> (r: [T; N])
        ensures
            r@ == project_seq(self.axes(), vec@),
    ;

    /// The coordinate of the box that a coordinate of this subspace names.
    fn unproject_coord(&self, coord: &PartitionCoord<N>) -> (r: PartitionCoord<3>)
        ensures
            r@ == self.spec_unproject_coord(coord@),
    ;

    /// The vector of the box that has `vec` at the free components of this
    /// subspace and the components of `onto` at the fixed ones.
    fn unproject_vec<T: Copy>(&self, vec: &[T; N], onto: &[T; 3]) -> (r: [T; 3])
        ensures
            r@ == unproject_seq(self.axes(), vec@, onto@),
    ;

    /// The subspaces of this kind along the boundary of a cell of the box.
    fn volume_cell_intersections(coord: &PartitionCoord<3>) -> (r: Vec<Self>)
        requires
            all_segments(coord@),
        ensures
            r@ == Self::spec_volume_cell_intersections(coord@),
    ;
}

/// The box itself.
#[derive(Clone, Copy, PartialEq, Eq, PartialOrd, Ord, Hash, Debug, Structural)]
pub struct R3Space();

impl Subspace<3> for R3Space {
    open spec fn rank(&self) -> int {
        0
    }

    open spec fn spec_project_coord(&self, coord: Seq<PartitionID>) -> Seq<PartitionID> {
        coord
    }

    open spec fn spec_unproject_coord(&self, coord: Seq<PartitionID>) -> Seq<PartitionID> {
        coord
    }

    open spec fn axes(&self) -> Seq<int> {
        seq![0, 1, 2]
    }

    open spec fn spec_volume_cell_intersections(coord: Seq<PartitionID>) -> Seq<Self> {
        seq![R3Space()]
    }

    proof fn lemma_rank_injective(&self, other: &Self) {
    }

    proof fn lemma_project_unproject(&self, coord: Seq<PartitionID>) {
    }

    proof fn lemma_project_cell(&self, coord: Seq<PartitionID>) {
    }

    fn precedes(&self, other: &Self) -> (r: bool) {
        false
    }

    fn project_coord(&self, coord: &PartitionCoord<3>) -> (r: PartitionCoord<3>) {
        *coord
    }

    fn project_vec<T: Copy>(&self, vec: &[T; 3]) -> (r: [T; 3]) {
        proof {
            assert(vec@ =~= project_seq(self.axes(), vec@));
        }
        *vec
    }

    fn unproject_coord(&self, coord: &PartitionCoord<3>) -> (r: PartitionCoord<3>) {
        *coord
    }

    fn unproject_vec<T: Copy>(&self, vec: &[T; 3], onto: &[T; 3]) -> (r: [T; 3]) {
        proof {
            let axes = self.axes();
            assert forall|k: int| 0 <= k < 3 implies axes.contains(k) && axes.index_of(k) == k by {
                assert(axes[k] == k);
            }
            assert(vec@ =~= unproject_seq(axes, vec@, onto@));
        }
        *vec
    }

    fn volume_cell_intersections(coord: &PartitionCoord<3>) -> (r: Vec<Self>) {
        let mut out: Vec<R3Space> = Vec::new();
        out.push(R3Space());
        proof {
            assert(out@ =~= seq![R3Space()]);
        }
        out
    }
}

/// Two to the power 64: one more than the greatest identifier.
pub open spec fn id_range() -> int {
    0x1_0000_0000_0000_0000
}

/// A plane of the box, perpendicular to one axis at the position `slab` on
/// that axis. `YZ` is perpendicular to X, `XZ` to Y and `XY` to Z.
#[derive(Clone, Copy, PartialEq, Eq, PartialOrd, Ord, Hash, Debug, Structural)]
pub enum R2Space {
    YZ(PartitionID),
    XZ(PartitionID),
    XY(PartitionID),
}

impl R2Space {
    /// The axis that the plane is perpendicular to.
    pub open spec fn spec_normal(&self) -> Dimension {
        match self {
            R2Space::YZ(_) => Dimension::X,
            R2Space::XZ(_) => Dimension::Y,
            R2Space::XY(_) => Dimension::Z,
        }
    }

    /// The position of the plane on the axis that it is perpendicular to.
    pub open spec fn spec_slab(&self) -> PartitionID {
        match self {
            R2Space::YZ(s) => *s,
            R2Space::XZ(s) => *s,
            R2Space::XY(s) => *s,
        }
    }

    /// The axis that the plane is perpendicular to.
    #[verifier::when_used_as_spec(spec_normal)]
    pub fn normal(&self) -> (r: Dimension)
        ensures
            r == self.spec_normal(),
    {
        match self {
            R2Space::YZ(_) => Dimension::X,
            R2Space::XZ(_) => Dimension::Y,
            R2Space::XY(_) => Dimension::Z,
        }
    }

    /// The position of the plane on the axis that it is perpendicular to.
    #[verifier::when_used_as_spec(spec_slab)]
    pub fn slab(&self) -> (r: PartitionID)
        ensures
            r == self.spec_slab(),
    {
        match self {
            R2Space::YZ(s) => *s,
            R2Space::XZ(s) => *s,
            R2Space::XY(s) => *s,
        }
    }

    /// The four edges of a cell of this plane: each is a coordinate on a
    /// line of the plane, and that line. The first two run along the first
    /// free axis of the plane, at the lower and the upper bound of the cell
    /// on the second; the last two run along the second free axis, at the
    /// lower and the upper bound on the first.
    pub open spec fn spec_edges(&self, coord: Seq<PartitionID>) -> Seq<(Seq<PartitionID>, R1Space)> {
        let u = coord[0];
        let v = coord[1];
        let ul = u.spec_low_parent();
        let uh = u.spec_high_parent();
        let vl = v.spec_low_parent();
        let vh = v.spec_high_parent();
        match self {
            R2Space::YZ(x) => seq![
                (seq![u], R1Space::Y(*x, vl)),
                (seq![u], R1Space::Y(*x, vh)),
                (seq![v], R1Space::Z(*x, ul)),
                (seq![v], R1Space::Z(*x, uh)),
            ],
            R2Space::XZ(y) => seq![
                (seq![u], R1Space::X(*y, vl)),
                (seq![u], R1Space::X(*y, vh)),
                (seq![v], R1Space::Z(ul, *y)),
                (seq![v], R1Space::Z(uh, *y)),
            ],
            R2Space::XY(z) => seq![
                (seq![u], R1Space::X(vl, *z)),
                (seq![u], R1Space::X(vh, *z)),
                (seq![v], R1Space::Y(ul, *z)),
                (seq![v], R1Space::Y(uh, *z)),
            ],
        }
    }

    /// The four edges of a cell of this plane.
    pub fn edges(&self, coord: &PartitionCoord<2>) -> (r: [(PartitionCoord<1>, R1Space); 4])
        requires
            all_segments(coord@),
        ensures
            edges_view(r@) == self.spec_edges(coord@),
    {
        let u = coord.0[0];
        let v = coord.0[1];
        let low = coord.low_parents();
        let high = coord.high_parents();
        let ul = low.0[0];
        let vl = low.0[1];
        let uh = high.0[0];
        let vh = high.0[1];
        let out = match self {
            R2Space::YZ(x) => [
                (PartitionCoord([u]), R1Space::Y(*x, vl)),
                (PartitionCoord([u]), R1Space::Y(*x, vh)),
                (PartitionCoord([v]), R1Space::Z(*x, ul)),
                (PartitionCoord([v]), R1Space::Z(*x, uh)),
            ],
            R2Space::XZ(y) => [
                (PartitionCoord([u]), R1Space::X(*y, vl)),
                (PartitionCoord([u]), R1Space::X(*y, vh)),
                (PartitionCoord([v]), R1Space::Z(ul, *y)),
                (PartitionCoord([v]), R1Space::Z(uh, *y)),
            ],
            R2Space::XY(z) => [
                (PartitionCoord([u]), R1Space::X(vl, *z)),
                (PartitionCoord([u]), R1Space::X(vh, *z)),
                (PartitionCoord([v]), R1Space::Y(ul, *z)),
                (PartitionCoord([v]), R1Space::Y(uh, *z)),
            ],
        };
        proof {
            assert(out@[0].0@ =~= seq![u]);
            assert(out@[1].0@ =~= seq![u]);
            assert(out@[2].0@ =~= seq![v]);
            assert(out@[3].0@ =~= seq![v]);
            assert(edges_view(out@) =~= self.spec_edges(coord@));
        }
        out
    }
}

/// What a list of edges says: the coordinate on its line, and the line.
pub open spec fn edges_view(s: Seq<(PartitionCoord<1>, R1Space)>) -> Seq<
    (Seq<PartitionID>, R1Space),
> {
    Seq::new(s.len(), |i: int| (s[i].0@, s[i].1))
}

impl Subspace<2> for R2Space {
    open spec fn rank(&self) -> int {
        self.spec_normal().spec_index() * id_range() + self.spec_slab().0
    }

    open spec fn spec_project_coord(&self, coord: Seq<PartitionID>) -> Seq<PartitionID> {
        match self {
            R2Space::YZ(_) => seq![coord[1], coord[2]],
            R2Space::XZ(_) => seq![coord[0], coord[2]],
            R2Space::XY(_) => seq![coord[0], coord[1]],
        }
    }

    open spec fn spec_unproject_coord(&self, coord: Seq<PartitionID>) -> Seq<PartitionID> {
        match self {
            R2Space::YZ(x) => seq![*x, coord[0], coord[1]],
            R2Space::XZ(y) => seq![coord[0], *y, coord[1]],
            R2Space::XY(z) => seq![coord[0], coord[1], *z],
        }
    }

    open spec fn axes(&self) -> Seq<int> {
        match self {
            R2Space::YZ(_) => seq![1, 2],
            R2Space::XZ(_) => seq![0, 2],
            R2Space::XY(_) => seq![0, 1],
        }
    }

    open spec fn spec_volume_cell_intersections(coord: Seq<PartitionID>) -> Seq<Self> {
        let l = coord_low_parents(coord);
        let h = coord_high_parents(coord);
        seq![
            R2Space::YZ(h[0]),
            R2Space::YZ(l[0]),
            R2Space::XZ(l[1]),
            R2Space::XZ(h[1]),
            R2Space::XY(l[2]),
            R2Space::XY(h[2]),
        ]
    }

    proof fn lemma_rank_injective(&self, other: &Self) {
    }

    proof fn lemma_project_unproject(&self, coord: Seq<PartitionID>) {
        assert(self.spec_project_coord(self.spec_unproject_coord(coord)) =~= coord);
    }

    proof fn lemma_project_cell(&self, coord: Seq<PartitionID>) {
        assert(coord[0].is_segment() && coord[1].is_segment() && coord[2].is_segment());
        assert(coord[1].depth() == coord[0].depth() && coord[2].depth() == coord[0].depth());
    }

    fn precedes(&self, other: &Self) -> (r: bool) {
        let a = self.normal().index();
        let b = other.normal().index();
        a < b || (a == b && self.slab().0 < other.slab().0)
    }

    fn project_coord(&self, coord: &PartitionCoord<3>) -> (r: PartitionCoord<2>) {
        let x = coord.0[0];
        let y = coord.0[1];
        let z = coord.0[2];
        let out = match self {
            R2Space::YZ(_) => PartitionCoord([y, z]),
            R2Space::XZ(_) => PartitionCoord([x, z]),
            R2Space::XY(_) => PartitionCoord([x, y]),
        };
        proof {
            assert(out@ =~= self.spec_project_coord(coord@));
        }
        out
    }

    fn project_vec<T: Copy>(&self, vec: &[T; 3]) -> (r: [T; 2]) {
        let out = match self {
            R2Space::YZ(_) => [vec[1], vec[2]],
            R2Space::XZ(_) => [vec[0], vec[2]],
            R2Space::XY(_) => [vec[0], vec[1]],
        };
        proof {
            assert(out@ =~= project_seq(self.axes(), vec@));
        }
        out
    }

    fn unproject_coord(&self, coord: &PartitionCoord<2>) -> (r: PartitionCoord<3>) {
        let u = coord.0[0];
        let v = coord.0[1];
        let out = match self {
            R2Space::YZ(x) => PartitionCoord([*x, u, v]),
            R2Space::XZ(y) => PartitionCoord([u, *y, v]),
            R2Space::XY(z) => PartitionCoord([u, v, *z]),
        };
        proof {
            assert(out@ =~= self.spec_unproject_coord(coord@));
        }
        out
    }

    fn unproject_vec<T: Copy>(&self, vec: &[T; 2], onto: &[T; 3]) -> (r: [T; 3])
        ensures
            r@ == match self {
                R2Space::YZ(_) => seq![onto@[0], vec@[0], vec@[1]],
                R2Space::XZ(_) => seq![vec@[0], onto@[1], vec@[1]],
                R2Space::XY(_) => seq![vec@[0], vec@[1], onto@[2]],
            },
    {
        let out = match self {
            R2Space::YZ(_) => [onto[0], vec[0], vec[1]],
            R2Space::XZ(_) => [vec[0], onto[1], vec[1]],
            R2Space::XY(_) => [vec[0], vec[1], onto[2]],
        };
        proof {
            let axes = self.axes();
            lemma_axes_index(axes);
            assert(out@ =~= unproject_seq(axes, vec@, onto@));
            assert(out@ =~= match self {
                R2Space::YZ(_) => seq![onto@[0], vec@[0], vec@[1]],
                R2Space::XZ(_) => seq![vec@[0], onto@[1], vec@[1]],
                R2Space::XY(_) => seq![vec@[0], vec@[1], onto@[2]],
            });
        }
        out
    }

    fn volume_cell_intersections(coord: &PartitionCoord<3>) -> (r: Vec<Self>) {
        let low = coord.low_parents();
        let high = coord.high_parents();
        let mut out: Vec<R2Space> = Vec::new();
        out.push(R2Space::YZ(high.0[0]));
        out.push(R2Space::YZ(low.0[0]));
        out.push(R2Space::XZ(low.0[1]));
        out.push(R2Space::XZ(high.0[1]));
        out.push(R2Space::XY(low.0[2]));
        out.push(R2Space::XY(high.0[2]));
        proof {
            assert(out@ =~= Self::spec_volume_cell_intersections(coord@));
        }
        out
    }
}

/// In a strictly increasing list of axes, each axis is found at its own
/// position.
pub proof fn lemma_axes_index(axes: Seq<int>)
    requires
        forall|i: int, j: int| 0 <= i < j < axes.len() ==> axes[i] < axes[j],
    ensures
        forall|i: int| 0 <= i < axes.len() ==> axes.contains(#[trigger] axes[i]) && axes.index_of(axes[i]) == i,
{
    assert forall|i: int| 0 <= i < axes.len() implies axes.contains(#[trigger] axes[i])
        && axes.index_of(axes[i]) == i by {
        let k = axes.index_of(axes[i]);
        assert(axes.contains(axes[i]));
        assert(0 <= k < axes.len() && axes[k] == axes[i]);
    }
}

/// A line of the box, along one axis at the given positions on the two
/// others, in the order of the axes.
#[derive(Clone, Copy, PartialEq, Eq, PartialOrd, Ord, Hash, Debug, Structural)]
pub enum R1Space {
    X(PartitionID, PartitionID),
    Y(PartitionID, PartitionID),
    Z(PartitionID, PartitionID),
}

impl R1Space {
    /// The axis that the line runs along.
    pub open spec fn spec_axis(&self) -> Dimension {
        match self {
            R1Space::X(_, _) => Dimension::X,
            R1Space::Y(_, _) => Dimension::Y,
            R1Space::Z(_, _) => Dimension::Z,
        }
    }

    /// The positions of the line on the two other axes.
    pub open spec fn spec_slab(&self) -> (PartitionID, PartitionID) {
        match self {
            R1Space::X(a, b) => (*a, *b),
            R1Space::Y(a, b) => (*a, *b),
            R1Space::Z(a, b) => (*a, *b),
        }
    }

    /// The axis that the line runs along.
    #[verifier::when_used_as_spec(spec_axis)]
    pub fn axis(&self) -> (r: Dimension)
        ensures
            r == self.spec_axis(),
    {
        match self {
            R1Space::X(_, _) => Dimension::X,
            R1Space::Y(_, _) => Dimension::Y,
            R1Space::Z(_, _) => Dimension::Z,
        }
    }

    /// The positions of the line on the two other axes.
    #[verifier::when_used_as_spec(spec_slab)]
    pub fn slab(&self) -> (r: (PartitionID, PartitionID))
        ensures
            r == self.spec_slab(),
    {
        match self {
            R1Space::X(a, b) => (*a, *b),
            R1Space::Y(a, b) => (*a, *b),
            R1Space::Z(a, b) => (*a, *b),
        }
    }
}

impl Subspace<1> for R1Space {
    open spec fn rank(&self) -> int {
        (self.spec_axis().spec_index() * id_range() + self.spec_slab().0.0) * id_range()
            + self.spec_slab().1.0
    }

    open spec fn spec_project_coord(&self, coord: Seq<PartitionID>) -> Seq<PartitionID> {
        match self {
            R1Space::X(_, _) => seq![coord[0]],
            R1Space::Y(_, _) => seq![coord[1]],
            R1Space::Z(_, _) => seq![coord[2]],
        }
    }

    open spec fn spec_unproject_coord(&self, coord: Seq<PartitionID>) -> Seq<PartitionID> {
        match self {
            R1Space::X(y, z) => seq![coord[0], *y, *z],
            R1Space::Y(x, z) => seq![*x, coord[0], *z],
            R1Space::Z(x, y) => seq![*x, *y, coord[0]],
        }
    }

    open spec fn axes(&self) -> Seq<int> {
        seq![self.spec_axis().spec_index() as int]
    }

    open spec fn spec_volume_cell_intersections(coord: Seq<PartitionID>) -> Seq<Self> {
        let l = coord_low_parents(coord);
        let h = coord_high_parents(coord);
        seq![
            R1Space::X(l[1], l[2]),
            R1Space::X(h[1], l[2]),
            R1Space::X(l[1], h[2]),
            R1Space::X(h[1], h[2]),
            R1Space::Y(l[0], l[2]),
            R1Space::Y(h[0], l[2]),
            R1Space::Y(l[0], h[2]),
            R1Space::Y(h[0], h[2]),
            R1Space::Z(l[0], l[1]),
            R1Space::Z(h[0], l[1]),
            R1Space::Z(l[0], h[1]),
            R1Space::Z(h[0], h[1]),
        ]
    }

    proof fn lemma_rank_injective(&self, other: &Self) {
    }

    proof fn lemma_project_unproject(&self, coord: Seq<PartitionID>) {
        assert(self.spec_project_coord(self.spec_unproject_coord(coord)) =~= coord);
    }

    proof fn lemma_project_cell(&self, coord: Seq<PartitionID>) {
        assert(coord[0].is_segment() && coord[1].is_segment() && coord[2].is_segment());
        assert(coord[1].depth() == coord[0].depth() && coord[2].depth() == coord[0].depth());
    }

    fn precedes(&self, other: &Self) -> (r: bool) {
        let a = self.axis().index();
        let b = other.axis().index();
        let s = self.slab();
        let t = other.slab();
        a < b || (a == b && (s.0.0 < t.0.0 || (s.0.0 == t.0.0 && s.1.0 < t.1.0)))
    }

    fn project_coord(&self, coord: &PartitionCoord<3>) -> (r: PartitionCoord<1>) {
        let out = match self {
            R1Space::X(_, _) => PartitionCoord([coord.0[0]]),
            R1Space::Y(_, _) => PartitionCoord([coord.0[1]]),
            R1Space::Z(_, _) => PartitionCoord([coord.0[2]]),
        };
        proof {
            assert(out@ =~= self.spec_project_coord(coord@));
        }
        out
    }

    fn project_vec<T: Copy>(&self, vec: &[T; 3]) -> (r: [T; 1]) {
        let out = match self {
            R1Space::X(_, _) => [vec[0]],
            R1Space::Y(_, _) => [vec[1]],
            R1Space::Z(_, _) => [vec[2]],
        };
        proof {
            assert(out@ =~= project_seq(self.axes(), vec@));
        }
        out
    }

    fn unproject_coord(&self, coord: &PartitionCoord<1>) -> (r: PartitionCoord<3>) {
        let c = coord.0[0];
        let out = match self {
            R1Space::X(y, z) => PartitionCoord([c, *y, *z]),
            R1Space::Y(x, z) => PartitionCoord([*x, c, *z]),
            R1Space::Z(x, y) => PartitionCoord([*x, *y, c]),
        };
        proof {
            assert(out@ =~= self.spec_unproject_coord(coord@));
        }
        out
    }

    fn unproject_vec<T: Copy>(&self, vec: &[T; 1], onto: &[T; 3]) -> (r: [T; 3])
        ensures
            r@ == match self {
                R1Space::X(_, _) => seq![vec@[0], onto@[1], onto@[2]],
                R1Space::Y(_, _) => seq![onto@[0], vec@[0], onto@[2]],
                R1Space::Z(_, _) => seq![onto@[0], onto@[1], vec@[0]],
            },
    {
        let out = match self {
            R1Space::X(_, _) => [vec[0], onto[1], onto[2]],
            R1Space::Y(_, _) => [onto[0], vec[0], onto[2]],
            R1Space::Z(_, _) => [onto[0], onto[1], vec[0]],
        };
        proof {
            let axes = self.axes();
            lemma_axes_index(axes);
            assert(axes.len() == 1);
            assert forall|k: int| 0 <= k < 3 && k != axes[0] implies !axes.contains(k) by {
                if axes.contains(k) {
                    let i = choose|i: int| 0 <= i < axes.len() && axes[i] == k;
                    assert(i == 0);
                }
            }
            assert(axes.contains(axes[0]) && axes.index_of(axes[0]) == 0);
            assert(out@ =~= unproject_seq(axes, vec@, onto@));
            assert(out@ =~= match self {
                R1Space::X(_, _) => seq![vec@[0], onto@[1], onto@[2]],
                R1Space::Y(_, _) => seq![onto@[0], vec@[0], onto@[2]],
                R1Space::Z(_, _) => seq![onto@[0], onto@[1], vec@[0]],
            });
        }
        out
    }

    fn volume_cell_intersections(coord: &PartitionCoord<3>) -> (r: Vec<Self>) {
        let low = coord.low_parents();
        let high = coord.high_parents();
        let xl = low.0[0];
        let yl = low.0[1];
        let zl = low.0[2];
        let xh = high.0[0];
        let yh = high.0[1];
        let zh = high.0[2];
        let mut out: Vec<R1Space> = Vec::new();
        out.push(R1Space::X(yl, zl));
        out.push(R1Space::X(yh, zl));
        out.push(R1Space::X(yl, zh));
        out.push(R1Space::X(yh, zh));
        out.push(R1Space::Y(xl, zl));
        out.push(R1Space::Y(xh, zl));
        out.push(R1Space::Y(xl, zh));
        out.push(R1Space::Y(xh, zh));
        out.push(R1Space::Z(xl, yl));
        out.push(R1Space::Z(xh, yl));
        out.push(R1Space::Z(xl, yh));
        out.push(R1Space::Z(xh, yh));
        proof {
            assert(out@ =~= Self::spec_volume_cell_intersections(coord@));
        }
        out
    }
}

/// Each face of a volume cell lies in the plane of one of its bounds: the
/// centre of the face has the coordinates of the volume cell, but for the
/// coordinate on the axis that the plane is perpendicular to, which is the
/// lower or the upper bound of the volume cell on that axis.
pub proof fn lemma_faces_bound_cell(coord: Seq<PartitionID>, j: int)
    requires
        coord.len() == 3,
        0 <= j < 6,
    ensures
        ({
            let plane = R2Space::spec_volume_cell_intersections(coord)[j];
            let axis = plane.spec_normal().spec_index() as int;
            let center = plane.spec_unproject_coord(plane.spec_project_coord(coord));
            &&& center.len() == 3
            &&& forall|d: int| 0 <= d < 3 && d != axis ==> center[d] == coord[d]
            &&& center[axis] == coord[axis].spec_low_parent() || center[axis]
                == coord[axis].spec_high_parent()
        }),
{
}

/// Each edge of a volume cell lies on the line of two of its bounds: the
/// centre of the edge has the coordinate of the volume cell on the axis
/// that the line runs along, and on each of the other axes the lower or the
/// upper bound of the volume cell.
pub proof fn lemma_edges_bound_cell(coord: Seq<PartitionID>, j: int)
    requires
        coord.len() == 3,
        0 <= j < 12,
    ensures
        ({
            let line = R1Space::spec_volume_cell_intersections(coord)[j];
            let axis = line.spec_axis().spec_index() as int;
            let center = line.spec_unproject_coord(line.spec_project_coord(coord));
            &&& center.len() == 3
            &&& center[axis] == coord[axis]
            &&& forall|d: int|
                0 <= d < 3 && d != axis ==> center[d] == coord[d].spec_low_parent() || center[d]
                    == coord[d].spec_high_parent()
        }),
{
}

/// The edges of the faces of a volume cell are edges of the volume cell:
/// the line of each edge of a face is one of the twelve lines along the
/// boundary of the volume cell, and the volume cell projects into that line
/// to the coordinate of the edge.
pub proof fn lemma_face_edges_are_cell_edges(coord: Seq<PartitionID>, j: int, k: int)
    requires
        coord.len() == 3,
        0 <= j < 6,
        0 <= k < 4,
    ensures
        ({
            let plane = R2Space::spec_volume_cell_intersections(coord)[j];
            let edge = plane.spec_edges(plane.spec_project_coord(coord))[k];
            &&& R1Space::spec_volume_cell_intersections(coord).contains(edge.1)
            &&& edge.1.spec_project_coord(coord) == edge.0
        }),
{
    let plane = R2Space::spec_volume_cell_intersections(coord)[j];
    let edge = plane.spec_edges(plane.spec_project_coord(coord))[k];
    let lines = R1Space::spec_volume_cell_intersections(coord);
    assert(edge.1.spec_project_coord(coord) =~= edge.0);
    assert(edge.1 == lines[0] || edge.1 == lines[1] || edge.1 == lines[2] || edge.1 == lines[3]
        || edge.1 == lines[4] || edge.1 == lines[5] || edge.1 == lines[6] || edge.1 == lines[7]
        || edge.1 == lines[8] || edge.1 == lines[9] || edge.1 == lines[10] || edge.1
        == lines[11]);
}

} // verus!
