//! The vertices that the simplices of the partition are made of: the corners
//! of the cells of the box, and the dual vertices of its volume, face and
//! edge cells.

use crate::partition::coord::PartitionCoord;
use crate::partition::id::PartitionID;
use crate::subspace::{R1Space, R2Space, R3Space, Subspace};
use vstd::prelude::*;

verus! {

/// What names a cell: the subspace it lies in and its coordinate there.
/// Whatever is computed for a cell is kept under this name.
#[derive(PartialEq, Eq, PartialOrd, Ord, Hash, Debug)]
pub struct CellEntry<const N: usize, S: Subspace<N>> {
    pub subspace: S,
    pub coord: PartitionCoord<N>,
}

impl<const N: usize, S: Subspace<N>> Clone for CellEntry<N, S> {
    fn clone(&self) -> (r: Self)
        ensures
            r == *self,
    {
        *self
    }
}

impl<const N: usize, S: Subspace<N>> Copy for CellEntry<N, S> {

}

impl<const N: usize, S: Subspace<N>> View for CellEntry<N, S> {
    type V = (S, Seq<PartitionID>);

    open spec fn view(&self) -> (S, Seq<PartitionID>) {
        (self.subspace, self.coord@)
    }
}

impl<const N: usize, S: Subspace<N>> CellEntry<N, S> {
    /// Whether both name the same cell.
    pub fn same(&self, other: &Self) -> (r: bool)
        ensures
            r == (self@ == other@),
    {
        proof {
            if self.subspace.rank() == other.subspace.rank() {
                self.subspace.lemma_rank_injective(&other.subspace);
            }
        }
        !self.subspace.precedes(&other.subspace) && !other.subspace.precedes(&self.subspace)
            && self.coord.same(&other.coord)
    }
}

/// The mathematical value of a vertex of a simplex.
pub enum VertModel {
    CellBoundary(Seq<PartitionID>),
    EdgeDual(R1Space, Seq<PartitionID>),
    FaceDual(R2Space, Seq<PartitionID>),
    VolumeDual(R3Space, Seq<PartitionID>),
}

/// The coordinate in the box of a corner, or of the centre of the cell that
/// a dual vertex belongs to.
pub open spec fn spec_box_coord(vert: VertModel) -> Seq<PartitionID> {
    match vert {
        VertModel::CellBoundary(c) => c,
        VertModel::EdgeDual(s, c) => s.spec_unproject_coord(c),
        VertModel::FaceDual(s, c) => s.spec_unproject_coord(c),
        VertModel::VolumeDual(s, c) => c,
    }
}

/// A word turned to the right by some bits.
pub open spec fn spec_turn(v: u64, by: u64) -> u64 {
    (v >> by) | (v << ((64 - by) as u64))
}

/// Four words folded into one.
pub open spec fn spec_mix(kind: u64, x: u64, y: u64, z: u64) -> u64 {
    (kind << 10) ^ x ^ spec_turn(y, 14) ^ spec_turn(z, 28)
}

/// The key of a vertex: its kind and its coordinate in the box, folded into
/// one word.
pub open spec fn spec_key(vert: VertModel) -> u64 {
    let at = spec_box_coord(vert);
    let kind: u64 = match vert {
        VertModel::CellBoundary(_) => 0,
        VertModel::EdgeDual(_, _) => 1,
        VertModel::FaceDual(_, _) => 2,
        VertModel::VolumeDual(_, _) => 3,
    };
    spec_mix(kind, at[0].0, at[1].0, at[2].0)
}

/// A word turned to the right by some bits.
pub fn turn(v: u64, by: u64) -> (r: u64)
    requires
        0 < by < 64,
    ensures
        r == spec_turn(v, by),
{
    (v >> by) | (v << (64 - by))
}

/// Four words folded into one.
pub fn mix(kind: u64, x: u64, y: u64, z: u64) -> (r: u64)
    ensures
        r == spec_mix(kind, x, y, z),
{
    (kind << 10) ^ x ^ turn(y, 14) ^ turn(z, 28)
}

/// A vertex of a simplex: a corner of a cell of the box, or the dual vertex
/// of an edge, face or volume cell.
#[derive(Clone, Copy, PartialEq, Eq, PartialOrd, Ord, Hash, Debug)]
pub enum SimplexVert {
    CellBoundary(PartitionCoord<3>),
    EdgeDual(CellEntry<1, R1Space>),
    FaceDual(CellEntry<2, R2Space>),
    VolumeDual(CellEntry<3, R3Space>),
}

impl View for SimplexVert {
    type V = VertModel;

    open spec fn view(&self) -> VertModel {
        match self {
            SimplexVert::CellBoundary(coord) => VertModel::CellBoundary(coord@),
            SimplexVert::EdgeDual(cell) => VertModel::EdgeDual(cell.subspace, cell.coord@),
            SimplexVert::FaceDual(cell) => VertModel::FaceDual(cell.subspace, cell.coord@),
            SimplexVert::VolumeDual(cell) => VertModel::VolumeDual(cell.subspace, cell.coord@),
        }
    }
}

impl SimplexVert {
    /// Whether both are the same vertex.
    pub fn same(&self, other: &Self) -> (r: bool)
        ensures
            r == (self@ == other@),
    {
        match (self, other) {
            (SimplexVert::CellBoundary(a), SimplexVert::CellBoundary(b)) => a.same(b),
            (SimplexVert::EdgeDual(a), SimplexVert::EdgeDual(b)) => a.same(b),
            (SimplexVert::FaceDual(a), SimplexVert::FaceDual(b)) => a.same(b),
            (SimplexVert::VolumeDual(a), SimplexVert::VolumeDual(b)) => a.same(b),
            _ => false,
        }
    }

    /// A number that is the same for the same vertex, and seldom the same
    /// for two vertices: it serves to find a vertex among many.
    pub fn key(&self) -> (r: u64)
        ensures
            r == spec_key(self@),
    {
        let at = self.box_coord();
        let kind: u64 = match self {
            SimplexVert::CellBoundary(_) => 0,
            SimplexVert::EdgeDual(_) => 1,
            SimplexVert::FaceDual(_) => 2,
            SimplexVert::VolumeDual(_) => 3,
        };
        mix(kind, at.0[0].0, at.0[1].0, at.0[2].0)
    }

    /// The coordinate in the box of the corner, or of the centre of the
    /// cell that the dual vertex belongs to.
    pub fn box_coord(&self) -> (r: PartitionCoord<3>)
        ensures
            r@ == spec_box_coord(self@),
    {
        match self {
            SimplexVert::CellBoundary(coord) => *coord,
            SimplexVert::EdgeDual(cell) => cell.subspace.unproject_coord(&cell.coord),
            SimplexVert::FaceDual(cell) => cell.subspace.unproject_coord(&cell.coord),
            SimplexVert::VolumeDual(cell) => cell.subspace.unproject_coord(&cell.coord),
        }
    }
}

/// A simplex with N vertices.
#[derive(Clone, Copy, PartialEq, Eq, Debug)]
pub struct Simplex<const N: usize> {
    pub verts: [SimplexVert; N],
}

impl<const N: usize> View for Simplex<N> {
    type V = Seq<VertModel>;

    open spec fn view(&self) -> Seq<VertModel> {
        Seq::new(N as nat, |i: int| self.verts@[i]@)
    }
}

impl Simplex<1> {
    /// The simplex with one more vertex, after those it has.
    pub fn add(&self, vert: SimplexVert) -> (r: Simplex<2>)
        ensures
            r@ == self@.push(vert@),
    {
        let out = Simplex { verts: [self.verts[0], vert] };
        proof {
            assert(out@ =~= self@.push(vert@));
        }
        out
    }
}

impl Simplex<2> {
    /// The simplex with one more vertex, after those it has.
    pub fn add(&self, vert: SimplexVert) -> (r: Simplex<3>)
        ensures
            r@ == self@.push(vert@),
    {
        let out = Simplex { verts: [self.verts[0], self.verts[1], vert] };
        proof {
            assert(out@ =~= self@.push(vert@));
        }
        out
    }
}

impl Simplex<3> {
    /// The simplex with one more vertex, after those it has.
    pub fn add(&self, vert: SimplexVert) -> (r: Simplex<4>)
        ensures
            r@ == self@.push(vert@),
    {
        let out = Simplex { verts: [self.verts[0], self.verts[1], self.verts[2], vert] };
        proof {
            assert(out@ =~= self@.push(vert@));
        }
        out
    }
}

} // verus!
