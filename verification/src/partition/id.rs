//! Identifiers of the segments of a binary partition of the unit interval.
//!
//! An identifier is a 63-bit fixed-point number: the value `v` stands for the
//! point `v / 2^63`. With `t` trailing zero bits it also names the segment
//! of half-width `2^t` centred on that point, so that the whole interval is
//! `2^62`, its two halves are `2^61` and `2^62 + 2^61`, and so on.

use vstd::arithmetic::power2::{
    lemma2_to64, lemma2_to64_rest, lemma_pow2_strictly_increases, lemma_pow2_unfold, pow2,
};
use vstd::bits::{lemma_u64_shl_is_mul, lemma_u64_shr_is_div};
use vstd::prelude::*;
use vstd::std_specs::bits::{axiom_u64_trailing_zeros, u64_trailing_zeros};

verus! {

/// The identifier of the upper end of the unit interval.
pub const MAX_ID: u64 = 0x8000_0000_0000_0000;

/// The identifier of the whole unit interval.
pub const ROOT_ID: u64 = 0x4000_0000_0000_0000;

/// The bits of an identifier that select a path below the root.
pub const TREE_BITS: u64 = 0x7fff_ffff_ffff_ffff;

/// The lowest set bit of a non-zero word.
pub open spec fn low_bit(v: u64) -> u64 {
    v & !((v - 1) as u64)
}

/// The lowest set bit of a non-zero word is two to the number of its
/// trailing zeros.
pub proof fn lemma_low_bit(v: u64)
    requires
        v != 0,
    ensures
        u64_trailing_zeros(v) < 64,
        low_bit(v) == 1u64 << u64_trailing_zeros(v),
        low_bit(v) == pow2(u64_trailing_zeros(v) as nat),
{
    axiom_u64_trailing_zeros(v);
    let t: u64 = u64_trailing_zeros(v) as u64;
    let top: u64 = (64 - t) as u64;
    assert(low_bit(v) == 1u64 << t) by (bit_vector)
        requires
            v != 0,
            t < 64,
            top == 64 - t,
            (v >> t) & 1 == 1,
            v << top == 0,
    ;
    assert(1u64 << t == pow2(t as nat)) by {
        lemma2_to64();
        lemma2_to64_rest();
        lemma_u64_shl_is_mul(1, t);
    }
    let t32: u32 = u64_trailing_zeros(v);
    assert(1u64 << t == 1u64 << t32) by (bit_vector)
        requires
            t == t32,
    ;
}

/// A non-zero word whose lowest set bit is `2^k` has `k` trailing zeros.
pub proof fn lemma_zeros_of_low_bit(v: u64, k: nat)
    requires
        v != 0,
        low_bit(v) == pow2(k),
    ensures
        u64_trailing_zeros(v) == k,
{
    lemma_low_bit(v);
    let t = u64_trailing_zeros(v) as nat;
    if t < k {
        lemma_pow2_strictly_increases(t, k);
    }
    if k < t {
        lemma_pow2_strictly_increases(k, t);
    }
}

/// A point of the unit interval, and the segment of a binary partition that
/// has this point as its centre.
#[derive(Clone, Copy, PartialEq, Eq, PartialOrd, Ord, Hash, Debug, Structural)]
pub struct PartitionID(pub u64);

impl PartitionID {
    /// The number of trailing zero bits of the identifier.
    pub open spec fn zeros(self) -> nat {
        u64_trailing_zeros(self.0) as nat
    }

    /// Half the width of the segment, in units of `2^-63`.
    pub open spec fn half_width(self) -> nat {
        pow2(self.zeros())
    }

    /// Whether the identifier names a segment of the unit interval, that is
    /// lies strictly between the two ends of the interval.
    pub open spec fn is_segment(self) -> bool {
        0 < self.0 < MAX_ID
    }

    /// The number of halvings that lead from the whole interval to this
    /// segment.
    pub open spec fn depth(self) -> int {
        62 - self.zeros()
    }

    /// Whether the segment can be halved once more.
    pub open spec fn has_children(self) -> bool {
        self.is_segment() && self.zeros() >= 1
    }

    /// The upper bound of the segment: the centre plus the half-width.
    pub open spec fn spec_high_parent(&self) -> Self {
        PartitionID((self.0 + self.half_width()) as u64)
    }

    /// The lower bound of the segment: the centre minus the half-width.
    pub open spec fn spec_low_parent(&self) -> Self {
        PartitionID((self.0 - self.half_width()) as u64)
    }

    /// The upper half of the segment: its centre lies half the half-width
    /// above the centre of the segment.
    pub open spec fn spec_high_child(&self) -> Self {
        PartitionID((self.0 + self.half_width() / 2) as u64)
    }

    /// The lower half of the segment: its centre lies half the half-width
    /// below the centre of the segment.
    pub open spec fn spec_low_child(&self) -> Self {
        PartitionID((self.0 - self.half_width() / 2) as u64)
    }

    /// 1 where the bit of the upper half of the interval is set, else 0.
    pub open spec fn spec_tree_index(&self) -> usize {
        if (self.0 / ROOT_ID) % 2 == 1 {
            1
        } else {
            0
        }
    }

    /// The identifier doubled, without what goes beyond the interval.
    pub open spec fn spec_id_at_child(&self) -> Self {
        PartitionID(((2 * self.0) % (MAX_ID as int)) as u64)
    }

    /// Whether this is the identifier of the whole interval.
    pub open spec fn spec_is_root(&self) -> bool {
        self.0 == ROOT_ID
    }

    /// The numerator and the denominator of the position in lowest terms.
    pub open spec fn spec_norm_pos(&self) -> (u64, u64) {
        if self.0 == 0 {
            (0, 1)
        } else {
            ((self.0 as nat / self.half_width()) as u64, (MAX_ID as nat / self.half_width()) as u64)
        }
    }

    /// A segment is at least as wide as its own half-width allows: it lies
    /// within the unit interval, and has at most 62 trailing zeros.
    pub proof fn lemma_segment(self)
        requires
            self.is_segment(),
        ensures
            self.zeros() <= 62,
            0 <= self.depth() <= 62,
            self.half_width() == low_bit(self.0),
            1 <= self.half_width() <= self.0,
            self.0 + self.half_width() <= MAX_ID,
            self.depth() == 0 <==> self.spec_is_root(),
    {
        lemma_low_bit(self.0);
        let v = self.0;
        let l = low_bit(v);
        assert(1 <= l <= v && v + l <= 0x8000_0000_0000_0000 && l <= 0x4000_0000_0000_0000 && (l
            == 0x4000_0000_0000_0000 <==> v == 0x4000_0000_0000_0000)) by (bit_vector)
            requires
                0 < v < 0x8000_0000_0000_0000,
                l == v & !((v - 1) as u64),
        ;
        lemma2_to64_rest();
        if self.zeros() > 62 {
            lemma_pow2_strictly_increases(62, self.zeros());
        }
        if self.zeros() < 62 {
            lemma_pow2_strictly_increases(self.zeros(), 62);
        }
    }

    /// The upper bound of the segment.
    #[verifier::when_used_as_spec(spec_high_parent)]
    pub fn high_parent(&self) -> (r: Self)
        requires
            self.is_segment(),
        ensures
            r == self.spec_high_parent(),
            r.0 == self.0 + self.half_width(),
            r.0 <= MAX_ID,
    {
        proof {
            self.lemma_segment();
            lemma_low_bit(self.0);
        }
        PartitionID(self.0 + (1u64 << self.0.trailing_zeros()))
    }

    /// The lower bound of the segment.
    #[verifier::when_used_as_spec(spec_low_parent)]
    pub fn low_parent(&self) -> (r: Self)
        requires
            self.is_segment(),
        ensures
            r == self.spec_low_parent(),
            r.0 == self.0 - self.half_width(),
            r.0 < MAX_ID,
    {
        proof {
            self.lemma_segment();
            lemma_low_bit(self.0);
        }
        PartitionID(self.0 - (1u64 << self.0.trailing_zeros()))
    }

    /// The two halves of a segment are segments one level deeper, and each
    /// has the segment's centre as one of its bounds.
    pub proof fn lemma_children(self)
        requires
            self.has_children(),
        ensures
            self.half_width() % 2 == 0,
            self.half_width() / 2 >= 1,
            self.spec_low_child().0 == self.0 - self.half_width() / 2,
            self.spec_high_child().0 == self.0 + self.half_width() / 2,
            self.spec_low_child().is_segment(),
            self.spec_high_child().is_segment(),
            self.spec_low_child().zeros() == self.zeros() - 1,
            self.spec_high_child().zeros() == self.zeros() - 1,
            self.spec_low_child().depth() == self.depth() + 1,
            self.spec_high_child().depth() == self.depth() + 1,
    {
        self.lemma_segment();
        let v = self.0;
        let l = low_bit(v);
        let t = self.zeros();
        lemma_pow2_unfold(t);
        let h: u64 = (l / 2) as u64;
        assert(h == pow2((t - 1) as nat));
        let lo: u64 = (v - h) as u64;
        let hi: u64 = (v + h) as u64;
        assert(0 < lo < 0x8000_0000_0000_0000 && 0 < hi < 0x8000_0000_0000_0000 && lo == v - h
            && hi == v + h && lo & !((lo - 1) as u64) == h && hi & !((hi - 1) as u64) == h)
            by (bit_vector)
            requires
                0 < v < 0x8000_0000_0000_0000,
                l == v & !((v - 1) as u64),
                l >= 2,
                h == l / 2,
                lo == (v - h) as u64,
                hi == (v + h) as u64,
        ;
        lemma_zeros_of_low_bit(lo, (t - 1) as nat);
        lemma_zeros_of_low_bit(hi, (t - 1) as nat);
    }

    /// The upper half of the segment.
    #[verifier::when_used_as_spec(spec_high_child)]
    pub fn high_child(&self) -> (r: Self)
        requires
            self.has_children(),
        ensures
            r == self.spec_high_child(),
            r.0 == self.0 + self.half_width() / 2,
            r.is_segment(),
            r.depth() == self.depth() + 1,
    {
        proof {
            self.lemma_children();
            self.lemma_shift_below();
        }
        PartitionID(self.0 + (1u64 << (self.0.trailing_zeros() - 1)))
    }

    /// The lower half of the segment.
    #[verifier::when_used_as_spec(spec_low_child)]
    pub fn low_child(&self) -> (r: Self)
        requires
            self.has_children(),
        ensures
            r == self.spec_low_child(),
            r.0 == self.0 - self.half_width() / 2,
            r.is_segment(),
            r.depth() == self.depth() + 1,
    {
        proof {
            self.lemma_children();
            self.lemma_shift_below();
        }
        PartitionID(self.0 - (1u64 << (self.0.trailing_zeros() - 1)))
    }

    /// One shifted by one less than the trailing zeros is half the
    /// half-width.
    proof fn lemma_shift_below(self)
        requires
            self.has_children(),
        ensures
            1 <= u64_trailing_zeros(self.0) <= 62,
            (1u64 << ((u64_trailing_zeros(self.0) - 1) as u32)) == self.half_width() / 2,
    {
        self.lemma_segment();
        let t = self.zeros();
        lemma_pow2_unfold(t);
        let k: u64 = (t - 1) as u64;
        assert(1u64 << k == pow2(k as nat)) by {
            lemma2_to64();
            lemma2_to64_rest();
            lemma_u64_shl_is_mul(1, k);
        }
        let k32: u32 = (u64_trailing_zeros(self.0) - 1) as u32;
        assert(1u64 << k == 1u64 << k32) by (bit_vector)
            requires
                k == k32,
        ;
    }

    /// The position of the point, as the numerator and the denominator of a
    /// fraction in lowest terms: `(0, 1)` for the lower end of the interval.
    #[verifier::when_used_as_spec(spec_norm_pos)]
    pub fn norm_pos(&self) -> (r: (u64, u64))
        ensures
            r == self.spec_norm_pos(),
            self.0 != 0 ==> r.0 * self.half_width() == self.0 && r.1 * self.half_width() == MAX_ID,
            r.1 >= 1,
    {
        if self.0 == 0 {
            return (0, 1);
        }
        let t = self.0.trailing_zeros();
        proof {
            self.lemma_exact_division();
        }
        (self.0 >> t, MAX_ID >> t)
    }

    /// The half-width of a non-zero identifier divides it, and divides the
    /// identifier of the upper end.
    pub proof fn lemma_exact_division(self)
        requires
            self.0 != 0,
        ensures
            self.zeros() <= 63,
            self.half_width() >= 1,
            self.0 >> u64_trailing_zeros(self.0) == self.0 as nat / self.half_width(),
            MAX_ID >> u64_trailing_zeros(self.0) == MAX_ID as nat / self.half_width(),
            (self.0 as nat / self.half_width()) * self.half_width() == self.0,
            (MAX_ID as nat / self.half_width()) * self.half_width() == MAX_ID,
            MAX_ID as nat / self.half_width() >= 1,
    {
        lemma_low_bit(self.0);
        let v = self.0;
        let l = low_bit(v);
        let t: u64 = u64_trailing_zeros(v) as u64;
        let t32: u32 = u64_trailing_zeros(v);
        let m: u64 = 0x8000_0000_0000_0000;
        let p = self.half_width();
        vstd::arithmetic::power2::lemma_pow2_pos(self.zeros());
        assert(v >> t == v >> t32 && m >> t == m >> t32) by (bit_vector)
            requires
                t == t32,
        ;
        assert((v >> t) << t == v && (m >> t) << t == m) by (bit_vector)
            requires
                v != 0,
                t < 64,
                l == v & !((v - 1) as u64),
                l == 1u64 << t,
                m == 0x8000_0000_0000_0000,
        ;
        lemma_u64_shr_is_div(v, t);
        lemma_u64_shr_is_div(m, t);
        let qv: u64 = v >> t;
        let qm: u64 = m >> t;
        assert(qv * p <= v && qm * p <= m) by (nonlinear_arith)
            requires
                qv == v as nat / p,
                qm == m as nat / p,
                p >= 1,
        ;
        lemma_u64_shl_is_mul(qv, t);
        lemma_u64_shl_is_mul(qm, t);
        assert(qm >= 1) by (nonlinear_arith)
            requires
                qm * p == m,
                m > 0,
        ;
    }

    /// The index, in the children of the root of a tree, of the child that
    /// holds this identifier: 1 for the upper half of the interval.
    #[verifier::when_used_as_spec(spec_tree_index)]
    pub fn tree_index(&self) -> (r: usize)
        ensures
            r == self.spec_tree_index(),
            r <= 1,
            self.is_segment() ==> (r == 1 <==> self.0 >= ROOT_ID),
    {
        let v = self.0;
        assert((v & 0x4000_0000_0000_0000 == 0) <==> (v / 0x4000_0000_0000_0000) % 2 != 1)
            by (bit_vector);
        if self.0 & ROOT_ID == 0 {
            0
        } else {
            1
        }
    }

    /// The same point, seen from the half of the interval that holds it.
    #[verifier::when_used_as_spec(spec_id_at_child)]
    pub fn id_at_child(&self) -> (r: Self)
        ensures
            r == self.spec_id_at_child(),
            r.0 < MAX_ID,
    {
        let v = self.0;
        assert((v << 1) & 0x7fff_ffff_ffff_ffff == (2 * v) % 0x8000_0000_0000_0000 && (v << 1)
            & 0x7fff_ffff_ffff_ffff < 0x8000_0000_0000_0000) by (bit_vector);
        PartitionID((self.0 << 1) & TREE_BITS)
    }

    /// Whether this is the identifier of the whole interval.
    #[verifier::when_used_as_spec(spec_is_root)]
    pub fn is_root(&self) -> (r: bool)
        ensures
            r == self.spec_is_root(),
    {
        self.0 == ROOT_ID
    }

    /// Below the root, a segment seen from its half of the interval is a
    /// segment one level nearer to the root.
    pub proof fn lemma_id_at_child(self)
        requires
            self.is_segment(),
            !self.spec_is_root(),
        ensures
            self.spec_id_at_child().is_segment(),
            self.spec_id_at_child().zeros() == self.zeros() + 1,
            self.spec_id_at_child().depth() == self.depth() - 1,
            self.spec_id_at_child().0 == 2 * self.0 - self.spec_tree_index() * MAX_ID,
    {
        self.lemma_segment();
        let v = self.0;
        let l = low_bit(v);
        let w: u64 = ((2 * v) % 0x8000_0000_0000_0000) as u64;
        let i: u64 = self.spec_tree_index() as u64;
        assert(0 < w < 0x8000_0000_0000_0000 && w & !((w - 1) as u64) == 2 * l && (i == 1 ==> w
            == 2 * v - 0x8000_0000_0000_0000) && (i == 0 ==> w == 2 * v)) by (bit_vector)
            requires
                0 < v < 0x8000_0000_0000_0000,
                v != 0x4000_0000_0000_0000,
                l == v & !((v - 1) as u64),
                w == ((2 * v) % 0x8000_0000_0000_0000) as u64,
                i == (if (v / 0x4000_0000_0000_0000) % 2 == 1 { 1u64 } else { 0u64 }),
        ;
        lemma_pow2_unfold(self.zeros() + 1);
        lemma_zeros_of_low_bit(w, self.zeros() + 1);
    }

    /// Taking a half and then the bound of that half on the side of the
    /// centre gives the segment back; the other bound of the half is the
    /// segment's own bound on that side.
    pub proof fn lemma_parent_of_child(self)
        requires
            self.has_children(),
        ensures
            self.spec_low_child().spec_high_parent() == self,
            self.spec_high_child().spec_low_parent() == self,
            self.spec_low_child().spec_low_parent() == self.spec_low_parent(),
            self.spec_high_child().spec_high_parent() == self.spec_high_parent(),
    {
        self.lemma_children();
        self.lemma_segment();
        lemma_pow2_unfold(self.zeros());
    }

    /// Seen from the half of the interval that holds it, the half of a
    /// segment below the root is the half of what the segment is seen as,
    /// and lies in the same half of the interval as the segment; the halves
    /// of the root are the two halves of the interval, each seen as the root.
    pub proof fn lemma_child_at_child(self)
        requires
            self.has_children(),
        ensures
            self.spec_is_root() ==> {
                &&& self.spec_low_child().spec_tree_index() == 0
                &&& self.spec_high_child().spec_tree_index() == 1
                &&& self.spec_low_child().spec_id_at_child() == self
                &&& self.spec_high_child().spec_id_at_child() == self
            },
            !self.spec_is_root() ==> {
                &&& self.spec_id_at_child().has_children()
                &&& self.spec_low_child().spec_tree_index() == self.spec_tree_index()
                &&& self.spec_high_child().spec_tree_index() == self.spec_tree_index()
                &&& self.spec_low_child().spec_id_at_child()
                    == self.spec_id_at_child().spec_low_child()
                &&& self.spec_high_child().spec_id_at_child()
                    == self.spec_id_at_child().spec_high_child()
            },
    {
        self.lemma_children();
        self.lemma_segment();
        let lo = self.spec_low_child();
        let hi = self.spec_high_child();
        lo.lemma_segment();
        hi.lemma_segment();
        lemma_pow2_unfold(self.zeros());
        if self.spec_is_root() {
            lemma2_to64_rest();
            assert(self.zeros() == 62);
            assert(self.half_width() == 0x4000_0000_0000_0000);
            assert(lo.0 == 0x2000_0000_0000_0000);
            assert(hi.0 == 0x6000_0000_0000_0000);
        } else {
            self.lemma_id_at_child();
            lo.lemma_id_at_child();
            hi.lemma_id_at_child();
            let a = self.spec_id_at_child();
            a.lemma_children();
            lemma_pow2_unfold(a.zeros());
            let v = self.0;
            let h: u64 = (self.half_width() / 2) as u64;
            let l = low_bit(v);
            assert(((v - h) as u64 / 0x4000_0000_0000_0000) % 2 == (v / 0x4000_0000_0000_0000) % 2
                && ((v + h) as u64 / 0x4000_0000_0000_0000) % 2 == (v / 0x4000_0000_0000_0000)
                % 2) by (bit_vector)
                requires
                    0 < v < 0x8000_0000_0000_0000,
                    v != 0x4000_0000_0000_0000,
                    l == v & !((v - 1) as u64),
                    l >= 2,
                    h == l / 2,
            ;
        }
    }
}

/// The identifier after `steps` steps, each to the half of the interval
/// that holds it.
pub open spec fn descend(id: PartitionID, steps: nat) -> PartitionID
    decreases steps,
{
    if steps == 0 {
        id
    } else {
        descend(id.spec_id_at_child(), (steps - 1) as nat)
    }
}

/// Stepping to the half of the interval that holds it, a segment reaches
/// the root after as many steps as it is deep, so after 62 steps at most,
/// and not before.
pub proof fn lemma_descend_reaches_root(id: PartitionID, steps: nat)
    requires
        id.is_segment(),
        steps <= id.depth(),
    ensures
        id.depth() <= 62,
        descend(id, steps).is_segment(),
        descend(id, steps).depth() == id.depth() - steps,
        descend(id, steps).spec_is_root() <==> steps == id.depth(),
    decreases steps,
{
    id.lemma_segment();
    if steps > 0 {
        id.lemma_id_at_child();
        lemma_descend_reaches_root(id.spec_id_at_child(), (steps - 1) as nat);
    }
}

/// The lower end of the interval lies at 0, the upper end at 1, and the
/// centre of the whole interval at one half.
pub proof fn lemma_norm_pos_of_ends()
    ensures
        PartitionID(0).spec_norm_pos() == (0u64, 1u64),
        PartitionID(MAX_ID).spec_norm_pos() == (1u64, 1u64),
        PartitionID(ROOT_ID).spec_norm_pos() == (1u64, 2u64),
        PartitionID(ROOT_ID).spec_low_parent() == PartitionID(0),
        PartitionID(ROOT_ID).spec_high_parent() == PartitionID(MAX_ID),
{
    lemma2_to64_rest();
    let top = PartitionID(MAX_ID);
    let root = PartitionID(ROOT_ID);
    lemma_low_bit(MAX_ID);
    lemma_low_bit(ROOT_ID);
    assert(low_bit(0x8000_0000_0000_0000) == 0x8000_0000_0000_0000) by (bit_vector);
    assert(low_bit(0x4000_0000_0000_0000) == 0x4000_0000_0000_0000) by (bit_vector);
    assert(top.half_width() == 0x8000_0000_0000_0000);
    assert(root.half_width() == 0x4000_0000_0000_0000);
}

impl Default for PartitionID {
    /// The whole unit interval.
    fn default() -> (r: Self)
        ensures
            r.0 == ROOT_ID,
            r.spec_is_root(),
    {
        PartitionID(ROOT_ID)
    }
}

} // verus!
