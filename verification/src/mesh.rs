//! Marching tetrahedra: from the tetrahedra of the partition and the side of
//! the surface that each of their vertices lies on, to the triangles of the
//! surface and to index and vertex buffers without repeated vertices.

use crate::simplex::{spec_key, spec_turn, turn, Simplex, SimplexVert, VertModel};
use std::collections::HashMap;
use vstd::std_specs::hash::group_hash_axioms;
use vstd::prelude::*;

verus! {

/// A vertex of the surface: the point where it crosses the edge that leads
/// from a vertex inside the surface to one outside.
#[derive(Clone, Copy, PartialEq, Eq, PartialOrd, Ord, Hash, Debug)]
pub struct FaceVert {
    pub i: SimplexVert,
    pub o: SimplexVert,
}

impl View for FaceVert {
    type V = (VertModel, VertModel);

    open spec fn view(&self) -> (VertModel, VertModel) {
        (self.i@, self.o@)
    }
}

impl FaceVert {
    /// The crossing on the edge from `inner` to `outer`.
    pub fn from(value: (&SimplexVert, &SimplexVert)) -> (r: Self)
        ensures
            r@ == (value.0@, value.1@),
    {
        FaceVert { i: *value.0, o: *value.1 }
    }

    /// A number that is the same for the same crossing, and seldom the
    /// same for two crossings.
    pub fn key(&self) -> (r: u64)
        ensures
            r == spec_crossing_key(self@),
    {
        self.i.key() ^ turn(self.o.key(), 7)
    }

    /// Whether both are the crossing of the same edge, from the same end.
    pub fn same(&self, other: &Self) -> (r: bool)
        ensures
            r == (self@ == other@),
    {
        self.i.same(&other.i) && self.o.same(&other.o)
    }
}

/// The key of a crossing: the keys of its two ends, folded into one word.
pub open spec fn spec_crossing_key(vert: (VertModel, VertModel)) -> u64 {
    spec_key(vert.0) ^ spec_turn(spec_key(vert.1), 7)
}

/// Whether the buckets lead to every crossing of the list: each crossing
/// is listed, by its position, in the bucket of its key, and the buckets
/// list nothing but positions.
pub open spec fn leads_to(buckets: Map<u64, Vec<usize>>, verts: Seq<FaceVert>) -> bool {
    &&& forall|t: int|
        0 <= t < verts.len() ==> buckets.contains_key(spec_crossing_key((#[trigger] verts[t])@))
            && buckets[spec_crossing_key(verts[t]@)]@.contains(t as usize)
    &&& forall|h: u64, k: int|
        buckets.contains_key(h) && 0 <= k < buckets[h]@.len() ==> (#[trigger] buckets[h]@[k])
            < verts.len()
}

/// A triangle of the surface.
#[derive(Clone, Copy, PartialEq, Eq, PartialOrd, Ord, Debug)]
pub struct Face(pub [FaceVert; 3]);

impl View for Face {
    type V = Seq<(VertModel, VertModel)>;

    open spec fn view(&self) -> Seq<(VertModel, VertModel)> {
        Seq::new(3, |k: int| self.0@[k]@)
    }
}

/// The triangle on three crossings.
pub open spec fn spec_tri(
    a: (VertModel, VertModel),
    b: (VertModel, VertModel),
    c: (VertModel, VertModel),
) -> Seq<Seq<(VertModel, VertModel)>> {
    seq![seq![a, b, c]]
}

/// The two triangles that a quadrilateral on four crossings, given in order
/// round it, is split into.
pub open spec fn spec_quad(
    a: (VertModel, VertModel),
    b: (VertModel, VertModel),
    c: (VertModel, VertModel),
    d: (VertModel, VertModel),
) -> Seq<Seq<(VertModel, VertModel)>> {
    seq![seq![a, b, c], seq![c, d, a]]
}

impl Face {
    /// The triangle on three crossings, each given by its inner and its
    /// outer vertex.
    pub fn tri(
        a: (&SimplexVert, &SimplexVert),
        b: (&SimplexVert, &SimplexVert),
        c: (&SimplexVert, &SimplexVert),
    ) -> (r: Vec<Face>)
        ensures
            faces_view(r@) == spec_tri((a.0@, a.1@), (b.0@, b.1@), (c.0@, c.1@)),
    {
        let face = Face([FaceVert::from(a), FaceVert::from(b), FaceVert::from(c)]);
        let mut out: Vec<Face> = Vec::new();
        out.push(face);
        proof {
            assert(face@ =~= seq![(a.0@, a.1@), (b.0@, b.1@), (c.0@, c.1@)]);
            assert(faces_view(out@) =~= spec_tri((a.0@, a.1@), (b.0@, b.1@), (c.0@, c.1@)));
        }
        out
    }

    /// The two triangles of the quadrilateral on four crossings, given in
    /// order round it.
    pub fn quad(
        a: (&SimplexVert, &SimplexVert),
        b: (&SimplexVert, &SimplexVert),
        c: (&SimplexVert, &SimplexVert),
        d: (&SimplexVert, &SimplexVert),
    ) -> (r: Vec<Face>)
        ensures
            faces_view(r@) == spec_quad(
                (a.0@, a.1@),
                (b.0@, b.1@),
                (c.0@, c.1@),
                (d.0@, d.1@),
            ),
    {
        let ai = FaceVert::from(a);
        let bi = FaceVert::from(b);
        let ci = FaceVert::from(c);
        let di = FaceVert::from(d);
        let first = Face([ai, bi, ci]);
        let second = Face([ci, di, ai]);
        let mut out: Vec<Face> = Vec::new();
        out.push(first);
        out.push(second);
        proof {
            assert(first@ =~= seq![ai@, bi@, ci@]);
            assert(second@ =~= seq![ci@, di@, ai@]);
            assert(faces_view(out@) =~= spec_quad(
                (a.0@, a.1@),
                (b.0@, b.1@),
                (c.0@, c.1@),
                (d.0@, d.1@),
            ));
        }
        out
    }
}

/// What a list of triangles says: the three crossings of each.
pub open spec fn faces_view(s: Seq<Face>) -> Seq<Seq<(VertModel, VertModel)>> {
    Seq::new(s.len(), |k: int| s[k]@)
}

/// The crossing on the edge from vertex `i` to vertex `o` of a tetrahedron.
pub open spec fn crossing(verts: Seq<VertModel>, i: int, o: int) -> (VertModel, VertModel) {
    (verts[i], verts[o])
}

/// The triangles of the surface within one tetrahedron, where `inside`
/// tells for each vertex whether it lies inside the surface. With no vertex
/// or every vertex inside there is none; with one vertex on its own side,
/// one triangle on the three edges that leave it; with two on each side, a
/// quadrilateral on the four edges between the sides, as two triangles.
/// Every crossing is named from its inside vertex to its outside vertex.
pub open spec fn spec_tetra_tris(inside: Seq<bool>, verts: Seq<VertModel>) -> Seq<
    Seq<(VertModel, VertModel)>,
> {
    let a = inside[0];
    let b = inside[1];
    let c = inside[2];
    let d = inside[3];
    let x = |i: int, o: int| crossing(verts, i, o);
    if a == b && b == c && c == d {
        Seq::empty()
    } else if a && b && c && !d {
        spec_tri(x(0, 3), x(1, 3), x(2, 3))
    } else if !a && !b && !c && d {
        spec_tri(x(3, 0), x(3, 1), x(3, 2))
    } else if a && b && !c && d {
        spec_tri(x(0, 2), x(1, 2), x(3, 2))
    } else if !a && !b && c && !d {
        spec_tri(x(2, 0), x(2, 1), x(2, 3))
    } else if a && !b && c && d {
        spec_tri(x(0, 1), x(2, 1), x(3, 1))
    } else if !a && b && !c && !d {
        spec_tri(x(1, 0), x(1, 2), x(1, 3))
    } else if !a && b && c && d {
        spec_tri(x(1, 0), x(2, 0), x(3, 0))
    } else if a && !b && !c && !d {
        spec_tri(x(0, 1), x(0, 2), x(0, 3))
    } else if a && b && !c && !d {
        spec_quad(x(0, 2), x(0, 3), x(1, 3), x(1, 2))
    } else if !a && !b && c && d {
        spec_quad(x(2, 0), x(3, 0), x(3, 1), x(2, 1))
    } else if a && !b && c && !d {
        spec_quad(x(0, 1), x(0, 3), x(2, 3), x(2, 1))
    } else if !a && b && !c && d {
        spec_quad(x(1, 0), x(3, 0), x(3, 2), x(1, 2))
    } else if a && !b && !c && d {
        spec_quad(x(0, 1), x(0, 2), x(3, 2), x(3, 1))
    } else {
        spec_quad(x(1, 0), x(2, 0), x(2, 3), x(1, 3))
    }
}

/// The triangles of all the tetrahedra, in the order of the tetrahedra.
pub open spec fn spec_marching_tetrahedra(
    tetras: Seq<Seq<VertModel>>,
    inside: Seq<Seq<bool>>,
) -> Seq<Seq<(VertModel, VertModel)>>
    decreases tetras.len(),
{
    if tetras.len() == 0 {
        Seq::empty()
    } else {
        spec_marching_tetrahedra(tetras.drop_last(), inside.drop_last()) + spec_tetra_tris(
            inside[tetras.len() - 1],
            tetras.last(),
        )
    }
}

/// The corners of all the triangles, three for each, in order.
pub open spec fn corners(faces: Seq<Seq<(VertModel, VertModel)>>) -> Seq<(VertModel, VertModel)> {
    Seq::new(3 * faces.len(), |k: int| faces[k / 3][k % 3])
}

/// The values of a sequence in the order in which they first occur.
pub open spec fn distinct<A>(s: Seq<A>) -> Seq<A>
    decreases s.len(),
{
    if s.len() == 0 {
        Seq::empty()
    } else {
        let before = distinct(s.drop_last());
        if before.contains(s.last()) {
            before
        } else {
            before.push(s.last())
        }
    }
}

/// The number of vertices of a tetrahedron that lie inside the surface.
pub open spec fn count_inside(inside: Seq<bool>) -> nat {
    let one = |b: bool| if b { 1nat } else { 0nat };
    one(inside[0]) + one(inside[1]) + one(inside[2]) + one(inside[3])
}

/// Whether a crossing lies on an edge of the tetrahedron that leads from a
/// vertex inside the surface to a vertex outside.
pub open spec fn leads_outside(
    inside: Seq<bool>,
    verts: Seq<VertModel>,
    vert: (VertModel, VertModel),
) -> bool {
    exists|i: int, o: int|
        0 <= i < 4 && 0 <= o < 4 && inside[i] && !inside[o] && vert == #[trigger] crossing(
            verts,
            i,
            o,
        )
}

/// A tetrahedron gives no triangle where its vertices are all on one side
/// of the surface, one where one vertex is alone on its side, and two where
/// two are on each side. Each triangle has three corners, and each corner
/// lies on an edge that leads from a vertex inside to a vertex outside.
pub proof fn lemma_tetra_tris(inside: Seq<bool>, verts: Seq<VertModel>)
    requires
        inside.len() == 4,
        verts.len() == 4,
    ensures
        spec_tetra_tris(inside, verts).len() == (if count_inside(inside) == 0 || count_inside(
            inside,
        ) == 4 {
            0nat
        } else if count_inside(inside) == 2 {
            2nat
        } else {
            1nat
        }),
        forall|f: int, c: int|
            0 <= f < spec_tetra_tris(inside, verts).len() && 0 <= c < 3 ==> spec_tetra_tris(
                inside,
                verts,
            )[f].len() == 3 && leads_outside(
                inside,
                verts,
                #[trigger] spec_tetra_tris(inside, verts)[f][c],
            ),
{
    let tris = spec_tetra_tris(inside, verts);
    assert forall|f: int, c: int| 0 <= f < tris.len() && 0 <= c < 3 implies tris[f].len() == 3
        && leads_outside(inside, verts, #[trigger] tris[f][c]) by {
        let x = tris[f][c];
        assert forall|i: int, o: int|
            0 <= i < 4 && 0 <= o < 4 && inside[i] && !inside[o] && x == crossing(
                verts,
                i,
                o,
            ) implies leads_outside(inside, verts, x) by {
            assert(x == crossing(verts, i, o));
        }
        assert(x == crossing(verts, 0, 1) || x == crossing(verts, 0, 2) || x == crossing(
            verts,
            0,
            3,
        ) || x == crossing(verts, 1, 0) || x == crossing(verts, 1, 2) || x == crossing(
            verts,
            1,
            3,
        ) || x == crossing(verts, 2, 0) || x == crossing(verts, 2, 1) || x == crossing(
            verts,
            2,
            3,
        ) || x == crossing(verts, 3, 0) || x == crossing(verts, 3, 1) || x == crossing(
            verts,
            3,
            2,
        ));
    }
}

/// The values of a sequence in the order in which they first occur are the
/// values of the sequence, each once.
pub proof fn lemma_distinct<A>(s: Seq<A>)
    ensures
        distinct(s).no_duplicates(),
        distinct(s).len() <= s.len(),
        forall|x: A| #[trigger] distinct(s).contains(x) <==> s.contains(x),
    decreases s.len(),
{
    if s.len() > 0 {
        let front = s.drop_last();
        lemma_distinct(front);
        let before = distinct(front);
        let after = distinct(s);
        assert forall|x: A| #[trigger] after.contains(x) <==> s.contains(x) by {
            assert(front.len() == s.len() - 1);
            assert(distinct(front).contains(x) <==> front.contains(x));
            if s.contains(x) {
                let i = choose|i: int| 0 <= i < s.len() && s[i] == x;
                if i < s.len() - 1 {
                    assert(front[i] == x);
                    assert(front.contains(x));
                    assert(before.contains(x));
                    let j = choose|j: int| 0 <= j < before.len() && before[j] == x;
                    assert(after[j] == x);
                } else if before.contains(x) {
                    let j = choose|j: int| 0 <= j < before.len() && before[j] == x;
                    assert(after[j] == x);
                } else {
                    assert(after[before.len() as int] == x);
                }
                assert(after.contains(x));
            }
            if after.contains(x) {
                let j = choose|j: int| 0 <= j < after.len() && after[j] == x;
                if j < before.len() {
                    assert(before[j] == x);
                    assert(before.contains(x));
                    assert(front.contains(x));
                    let i = choose|i: int| 0 <= i < front.len() && front[i] == x;
                    assert(s[i] == x);
                } else {
                    assert(s[s.len() - 1] == x);
                }
                assert(s.contains(x));
            }
        }
        if !before.contains(s.last()) {
            assert forall|i: int, j: int|
                0 <= i < after.len() && 0 <= j < after.len() && i != j implies after[i]
                != after[j] by {
                if i < before.len() && j < before.len() {
                    assert(before[i] != before[j]);
                } else if i < before.len() {
                    assert(before[i] == after[i]);
                } else {
                    assert(before[j] == after[j]);
                }
            }
        }
    }
}

/// What a list of tetrahedra says: the four vertices of each.
pub open spec fn tetras_view(s: Seq<Simplex<4>>) -> Seq<Seq<VertModel>> {
    Seq::new(s.len(), |k: int| s[k]@)
}

/// What a list of sides says.
pub open spec fn inside_view(s: Seq<[bool; 4]>) -> Seq<Seq<bool>> {
    Seq::new(s.len(), |k: int| s[k]@)
}

/// What a list of crossings says.
pub open spec fn verts_view(s: Seq<FaceVert>) -> Seq<(VertModel, VertModel)> {
    Seq::new(s.len(), |k: int| s[k]@)
}

/// A vertex buffer and an index buffer: each three indices in a row name
/// the corners of one triangle.
pub struct MeshBuffers<V>(pub Vec<V>, pub Vec<usize>);

impl MeshBuffers<FaceVert> {
    /// The surface within the given tetrahedra, as buffers; `inside` tells
    /// for each vertex of each tetrahedron whether it lies inside the
    /// surface.
    pub fn new(tetras: &Vec<Simplex<4>>, inside: &Vec<[bool; 4]>) -> (r: Self)
        requires
            tetras.len() == inside.len(),
        ensures
            r.is_mesh_of(spec_marching_tetrahedra(tetras_view(tetras@), inside_view(inside@))),
    {
        let faces = Self::marching_tetrahedra(tetras, inside);
        Self::collect_buffers(&faces)
    }

    /// Whether these are the buffers of the given triangles: the vertex
    /// buffer holds the corners of the triangles, each once, in the order
    /// in which they first occur, and the index buffer names the corners of
    /// each triangle in turn.
    pub open spec fn is_mesh_of(&self, faces: Seq<Seq<(VertModel, VertModel)>>) -> bool {
        &&& verts_view(self.0@) == distinct(corners(faces))
        &&& self.1@.len() == 3 * faces.len()
        &&& forall|k: int|
            0 <= k < self.1@.len() ==> 0 <= #[trigger] self.1@[k] < self.0@.len() && self.0@[self.1@[k] as int]@
                == corners(faces)[k]
    }

    /// The triangles of the surface within the given tetrahedra.
    pub fn marching_tetrahedra(tetras: &Vec<Simplex<4>>, inside: &Vec<[bool; 4]>) -> (r: Vec<Face>)
        requires
            tetras.len() == inside.len(),
        ensures
            faces_view(r@) == spec_marching_tetrahedra(tetras_view(tetras@), inside_view(inside@)),
    {
        let mut faces: Vec<Face> = Vec::new();
        let mut k: usize = 0;
        proof {
            assert(tetras_view(tetras@).take(0) =~= Seq::empty());
            assert(faces_view(faces@) =~= Seq::empty());
        }
        while k < tetras.len()
            invariant
                k <= tetras.len(),
                tetras.len() == inside.len(),
                faces_view(faces@) == spec_marching_tetrahedra(
                    tetras_view(tetras@).take(k as int),
                    inside_view(inside@).take(k as int),
                ),
            decreases tetras.len() - k,
        {
            let mut tris = Self::tetra_tris(&inside[k], &tetras[k]);
            let ghost before = faces@;
            let ghost added = tris@;
            faces.append(&mut tris);
            proof {
                let t = tetras_view(tetras@).take(k + 1);
                let i = inside_view(inside@).take(k + 1);
                assert(t.drop_last() =~= tetras_view(tetras@).take(k as int));
                assert(i.drop_last() =~= inside_view(inside@).take(k as int));
                assert(t.last() == tetras@[k as int]@);
                assert(i[t.len() - 1] == inside@[k as int]@);
                assert(faces_view(faces@) =~= faces_view(before) + faces_view(added));
            }
            k += 1;
        }
        proof {
            assert(tetras_view(tetras@).take(k as int) =~= tetras_view(tetras@));
            assert(inside_view(inside@).take(k as int) =~= inside_view(inside@));
        }
        faces
    }

    /// The triangles of the surface within one tetrahedron.
    pub fn tetra_tris(inside: &[bool; 4], tetra: &Simplex<4>) -> (r: Vec<Face>)
        ensures
            faces_view(r@) == spec_tetra_tris(inside@, tetra@),
    {
        let a = &tetra.verts[0];
        let b = &tetra.verts[1];
        let c = &tetra.verts[2];
        let d = &tetra.verts[3];
        let ai = inside[0];
        let bi = inside[1];
        let ci = inside[2];
        let di = inside[3];

        match (ai, bi, ci, di) {
            (true, true, true, true) | (false, false, false, false) => {
                let out: Vec<Face> = Vec::new();
                proof {
                    assert(faces_view(out@) =~= Seq::empty());
                }
                out
            },
            (true, true, true, false) => Face::tri((a, d), (b, d), (c, d)),
            (false, false, false, true) => Face::tri((d, a), (d, b), (d, c)),
            (true, true, false, true) => Face::tri((a, c), (b, c), (d, c)),
            (false, false, true, false) => Face::tri((c, a), (c, b), (c, d)),
            (true, false, true, true) => Face::tri((a, b), (c, b), (d, b)),
            (false, true, false, false) => Face::tri((b, a), (b, c), (b, d)),
            (false, true, true, true) => Face::tri((b, a), (c, a), (d, a)),
            (true, false, false, false) => Face::tri((a, b), (a, c), (a, d)),
            (true, true, false, false) => Face::quad((a, c), (a, d), (b, d), (b, c)),
            (false, false, true, true) => Face::quad((c, a), (d, a), (d, b), (c, b)),
            (true, false, true, false) => Face::quad((a, b), (a, d), (c, d), (c, b)),
            (false, true, false, true) => Face::quad((b, a), (d, a), (d, c), (b, c)),
            (true, false, false, true) => Face::quad((a, b), (a, c), (d, c), (d, b)),
            (false, true, true, false) => Face::quad((b, a), (c, a), (c, d), (b, d)),
        }
    }

    /// The position in `verts` of a crossing, if it is there.
    fn position(
        buckets: &HashMap<u64, Vec<usize>>,
        verts: &Vec<FaceVert>,
        vert: &FaceVert,
    ) -> (r: Option<usize>)
        requires
            leads_to(buckets@, verts@),
        ensures
            match r {
                Some(k) => k < verts.len() && verts@[k as int]@ == vert@,
                None => !verts_view(verts@).contains(vert@),
            },
    {
        broadcast use group_hash_axioms;

        let key = vert.key();
        let ghost s = verts_view(verts@);
        match buckets.get(&key) {
            None => {
                proof {
                    if s.contains(vert@) {
                        let t = choose|t: int| 0 <= t < s.len() && s[t] == vert@;
                        assert(verts@[t]@ == vert@);
                    }
                }
                None
            },
            Some(bucket) => {
                let mut k: usize = 0;
                while k < bucket.len()
                    invariant
                        k <= bucket.len(),
                        buckets@.contains_key(key),
                        *bucket == buckets@[key],
                        leads_to(buckets@, verts@),
                        forall|j: int| 0 <= j < k ==> verts@[bucket@[j] as int]@ != vert@,
                    decreases bucket.len() - k,
                {
                    proof {
                        assert(buckets@[key]@[k as int] < verts.len());
                    }
                    let t = bucket[k];
                    if verts[t].same(vert) {
                        return Some(t);
                    }
                    k += 1;
                }
                proof {
                    if s.contains(vert@) {
                        let t = choose|t: int| 0 <= t < s.len() && s[t] == vert@;
                        assert(verts@[t]@ == vert@);
                        assert(t < verts.len() <= usize::MAX);
                        assert(bucket@.contains(t as usize));
                        let j = choose|j: int| 0 <= j < bucket@.len() && bucket@[j] == t as usize;
                        assert(verts@[bucket@[j] as int]@ != vert@);
                    }
                }
                None
            },
        }
    }

    /// Put a crossing at the end of the list, and its position into the
    /// bucket of its key.
    fn record(buckets: &mut HashMap<u64, Vec<usize>>, verts: &mut Vec<FaceVert>, vert: FaceVert)
        requires
            leads_to(old(buckets)@, old(verts)@),
        ensures
            leads_to(final(buckets)@, final(verts)@),
            final(verts)@ == old(verts)@.push(vert),
    {
        broadcast use group_hash_axioms;

        let key = vert.key();
        let at = verts.len();
        let mut bucket = match buckets.remove(&key) {
            Some(bucket) => bucket,
            None => Vec::new(),
        };
        let ghost listed = bucket@;
        bucket.push(at);
        buckets.insert(key, bucket);
        verts.push(vert);
        proof {
            assert(old(buckets)@.contains_key(key) ==> listed == old(buckets)@[key]@);
            assert(!old(buckets)@.contains_key(key) ==> listed.len() == 0);
            assert forall|t: int| 0 <= t < verts@.len() implies buckets@.contains_key(
                spec_crossing_key((#[trigger] verts@[t])@),
            ) && buckets@[spec_crossing_key(verts@[t]@)]@.contains(t as usize) by {
                let h = spec_crossing_key(verts@[t]@);
                if t == at {
                    assert(buckets@[key]@[listed.len() as int] == at);
                } else {
                    assert(verts@[t] == old(verts)@[t]);
                    if h == key {
                        let j = choose|j: int| 0 <= j < listed.len() && listed[j] == t as usize;
                        assert(buckets@[key]@[j] == t as usize);
                    } else {
                        assert(buckets@[h] == old(buckets)@[h]);
                    }
                }
            }
            assert forall|h: u64, k: int|
                buckets@.contains_key(h) && 0 <= k < buckets@[h]@.len() implies (
            #[trigger] buckets@[h]@[k]) < verts@.len() by {
                if h == key {
                    if k < listed.len() {
                        assert(buckets@[h]@[k] == listed[k]);
                        assert(old(buckets)@[key]@[k] < old(verts)@.len());
                    }
                } else {
                    assert(buckets@[h] == old(buckets)@[h]);
                    assert(old(buckets)@[h]@[k] < old(verts)@.len());
                }
            }
        }
    }

    /// The buffers of the given triangles: every crossing is listed once,
    /// where it first occurs.
    pub fn collect_buffers(faces: &Vec<Face>) -> (r: Self)
        ensures
            r.is_mesh_of(faces_view(faces@)),
    {
        let mut verts: Vec<FaceVert> = Vec::new();
        let mut inds: Vec<usize> = Vec::new();
        let mut ind_cache: HashMap<u64, Vec<usize>> = HashMap::new();
        let ghost all = corners(faces_view(faces@));
        let mut f: usize = 0;
        proof {
            assert(all.take(0) =~= Seq::empty());
            assert(verts_view(verts@) =~= Seq::empty());
        }
        while f < faces.len()
            invariant
                f <= faces.len(),
                all == corners(faces_view(faces@)),
                all.len() == 3 * faces.len(),
                leads_to(ind_cache@, verts@),
                verts_view(verts@) == distinct(all.take(3 * f)),
                inds@.len() == 3 * f,
                forall|k: int|
                    0 <= k < inds@.len() ==> 0 <= #[trigger] inds@[k] < verts@.len()
                        && verts@[inds@[k] as int]@ == all[k],
            decreases faces.len() - f,
        {
            let mut c: usize = 0;
            while c < 3
                invariant
                    c <= 3,
                    f < faces.len(),
                    all == corners(faces_view(faces@)),
                    all.len() == 3 * faces.len(),
                    leads_to(ind_cache@, verts@),
                    verts_view(verts@) == distinct(all.take(3 * f + c)),
                    inds@.len() == 3 * f + c,
                    forall|k: int|
                        0 <= k < inds@.len() ==> 0 <= #[trigger] inds@[k] < verts@.len()
                            && verts@[inds@[k] as int]@ == all[k],
                decreases 3 - c,
            {
                let vert = faces[f].0[c];
                let ghost m = 3 * f + c;
                proof {
                    assert(all[m] == faces_view(faces@)[m / 3][m % 3]);
                    assert(m / 3 == f && m % 3 == c);
                    assert(all[m] == vert@);
                    assert(all.take(m + 1).drop_last() =~= all.take(m));
                    assert(all.take(m + 1).last() == vert@);
                }
                let ghost before = verts@;
                let ind = match Self::position(&ind_cache, &verts, &vert) {
                    Some(k) => {
                        proof {
                            assert(verts_view(verts@)[k as int] == vert@);
                        }
                        k
                    },
                    None => {
                        Self::record(&mut ind_cache, &mut verts, vert);
                        proof {
                            assert(verts_view(verts@) =~= verts_view(before).push(vert@));
                        }
                        verts.len() - 1
                    },
                };
                inds.push(ind);
                c += 1;
            }
            f += 1;
        }
        proof {
            assert(all.take(3 * f) =~= all);
        }
        MeshBuffers(verts, inds)
    }
}

} // verus!
