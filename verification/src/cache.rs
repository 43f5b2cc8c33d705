//! A cache of what was computed at the corners of the cells of the box.
//! What was once stored under a coordinate stays.

use crate::partition::coord::{coord_rank, lemma_rank_injective, PartitionCoord};
use crate::partition::id::PartitionID;
use vstd::prelude::*;

verus! {

/// Whether the entries hold the key.
pub open spec fn has_key<V>(entries: Seq<(PartitionCoord<3>, V)>, key: Seq<PartitionID>) -> bool {
    exists|i: int| 0 <= i < entries.len() && (#[trigger] entries[i]).0@ == key
}

/// The value that the entries hold under the key.
pub open spec fn value_at<V>(entries: Seq<(PartitionCoord<3>, V)>, key: Seq<PartitionID>) -> V {
    entries[choose|i: int| 0 <= i < entries.len() && (#[trigger] entries[i]).0@ == key].1
}

/// Whether the keys stand in lexicographic order, each once.
pub open spec fn keys_in_order<V>(entries: Seq<(PartitionCoord<3>, V)>) -> bool {
    forall|i: int, j: int|
        0 <= i < j < entries.len() ==> coord_rank((#[trigger] entries[i]).0@) < coord_rank(
            (#[trigger] entries[j]).0@,
        )
}

/// Where the keys are in order, the value under the key of an entry is the
/// value of that entry.
pub proof fn lemma_value_at<V>(entries: Seq<(PartitionCoord<3>, V)>, i: int)
    requires
        keys_in_order(entries),
        0 <= i < entries.len(),
    ensures
        has_key(entries, entries[i].0@),
        value_at(entries, entries[i].0@) == entries[i].1,
{
    let key = entries[i].0@;
    let j = choose|j: int| 0 <= j < entries.len() && (#[trigger] entries[j]).0@ == key;
    if j < i {
        assert(coord_rank(entries[j].0@) < coord_rank(entries[i].0@));
    }
    if i < j {
        assert(coord_rank(entries[i].0@) < coord_rank(entries[j].0@));
    }
}

/// A table from the coordinates of the box to values, kept in the order of
/// the coordinates.
pub struct CoordMap<V> {
    entries: Vec<(PartitionCoord<3>, V)>,
}

impl<V> View for CoordMap<V> {
    type V = Map<Seq<PartitionID>, V>;

    closed spec fn view(&self) -> Map<Seq<PartitionID>, V> {
        Map::new(
            |key: Seq<PartitionID>| has_key(self.entries@, key),
            |key: Seq<PartitionID>| value_at(self.entries@, key),
        )
    }
}

impl<V: Copy> CoordMap<V> {
    /// Whether the table is well formed.
    pub closed spec fn wf(&self) -> bool {
        keys_in_order(self.entries@)
    }

    /// A table without entries.
    pub fn new() -> (r: Self)
        ensures
            r.wf(),
            r@ == Map::<Seq<PartitionID>, V>::empty(),
    {
        let out = CoordMap { entries: Vec::new() };
        proof {
            assert(out@ =~= Map::<Seq<PartitionID>, V>::empty());
        }
        out
    }

    /// The number of entries.
    pub fn len(&self) -> (r: usize)
        requires
            self.wf(),
        ensures
            r == self@.dom().len(),
            self@.dom().finite(),
    {
        proof {
            self.lemma_domain(self.entries@.len() as int);
            assert(self.prefix_keys(self.entries@.len() as int) =~= self@.dom());
        }
        self.entries.len()
    }

    /// The keys of the first `n` entries.
    pub closed spec fn prefix_keys(&self, n: int) -> Set<Seq<PartitionID>> {
        Set::new(|key: Seq<PartitionID>| exists|i: int| 0 <= i < n && (#[trigger] self.entries@[i]).0@ == key)
    }

    /// The first `n` entries have `n` keys.
    proof fn lemma_domain(&self, n: int)
        requires
            self.wf(),
            0 <= n <= self.entries@.len(),
        ensures
            self.prefix_keys(n).finite(),
            self.prefix_keys(n).len() == n,
        decreases n,
    {
        if n == 0 {
            assert(self.prefix_keys(0) =~= Set::<Seq<PartitionID>>::empty());
        } else {
            self.lemma_domain(n - 1);
            let key = self.entries@[n - 1].0@;
            let before = self.prefix_keys(n - 1);
            if before.contains(key) {
                let i = choose|i: int| 0 <= i < n - 1 && (#[trigger] self.entries@[i]).0@ == key;
                assert(coord_rank(self.entries@[i].0@) < coord_rank(self.entries@[n - 1].0@));
            }
            assert(self.prefix_keys(n) =~= before.insert(key));
        }
    }

    /// The first position whose key does not come before the given one.
    fn lower_bound(&self, at: &PartitionCoord<3>) -> (r: usize)
        requires
            self.wf(),
        ensures
            r <= self.entries@.len(),
            forall|j: int|
                0 <= j < r ==> coord_rank((#[trigger] self.entries@[j]).0@) < coord_rank(at@),
            forall|j: int|
                r <= j < self.entries@.len() ==> coord_rank((#[trigger] self.entries@[j]).0@)
                    >= coord_rank(at@),
    {
        let mut low: usize = 0;
        let mut high: usize = self.entries.len();
        while low < high
            invariant
                low <= high <= self.entries@.len(),
                self.wf(),
                forall|j: int|
                    0 <= j < low ==> coord_rank((#[trigger] self.entries@[j]).0@) < coord_rank(
                        at@,
                    ),
                forall|j: int|
                    high <= j < self.entries@.len() ==> coord_rank(
                        (#[trigger] self.entries@[j]).0@,
                    ) >= coord_rank(at@),
            decreases high - low,
        {
            let mid = low + (high - low) / 2;
            if self.entries[mid].0.precedes(at) {
                proof {
                    assert forall|j: int| 0 <= j < mid + 1 implies coord_rank(
                        (#[trigger] self.entries@[j]).0@,
                    ) < coord_rank(at@) by {
                        if j < mid {
                            assert(coord_rank(self.entries@[j].0@) < coord_rank(
                                self.entries@[mid as int].0@,
                            ));
                        }
                    }
                }
                low = mid + 1;
            } else {
                proof {
                    assert forall|j: int| mid <= j < self.entries@.len() implies coord_rank(
                        (#[trigger] self.entries@[j]).0@,
                    ) >= coord_rank(at@) by {
                        if j > mid {
                            assert(coord_rank(self.entries@[mid as int].0@) < coord_rank(
                                self.entries@[j].0@,
                            ));
                        }
                    }
                }
                high = mid;
            }
        }
        low
    }

    /// The value stored under a coordinate, if there is one.
    pub fn get(&self, at: &PartitionCoord<3>) -> (r: Option<V>)
        requires
            self.wf(),
        ensures
            r == (if self@.contains_key(at@) {
                Some(self@[at@])
            } else {
                None
            }),
    {
        let i = self.lower_bound(at);
        if i < self.entries.len() && !at.precedes(&self.entries[i].0) {
            proof {
                lemma_rank_injective(self.entries@[i as int].0@, at@);
                lemma_value_at(self.entries@, i as int);
            }
            Some(self.entries[i].1)
        } else {
            proof {
                if has_key(self.entries@, at@) {
                    let j = choose|j: int|
                        0 <= j < self.entries@.len() && (#[trigger] self.entries@[j]).0@ == at@;
                    if j > i {
                        assert(coord_rank(self.entries@[i as int].0@) < coord_rank(
                            self.entries@[j].0@,
                        ));
                    }
                }
            }
            None
        }
    }

    /// Store a value under a coordinate, unless one is stored there
    /// already; the value then stored under the coordinate is returned.
    pub fn get_or_insert(&mut self, at: &PartitionCoord<3>, val: V) -> (r: V)
        requires
            old(self).wf(),
        ensures
            final(self).wf(),
            old(self)@.contains_key(at@) ==> r == old(self)@[at@] && final(self)@ == old(self)@,
            !old(self)@.contains_key(at@) ==> r == val && final(self)@ == old(self)@.insert(
                at@,
                val,
            ),
    {
        let i = self.lower_bound(at);
        if i < self.entries.len() && !at.precedes(&self.entries[i].0) {
            proof {
                lemma_rank_injective(self.entries@[i as int].0@, at@);
                lemma_value_at(self.entries@, i as int);
            }
            self.entries[i].1
        } else {
            let ghost before = self.entries@;
            proof {
                if has_key(before, at@) {
                    let j = choose|j: int| 0 <= j < before.len() && (#[trigger] before[j]).0@ == at@;
                    if j > i {
                        assert(coord_rank(before[i as int].0@) < coord_rank(before[j].0@));
                    }
                }
            }
            self.entries.insert(i, (*at, val));
            proof {
                let after = self.entries@;
                assert forall|a: int, b: int| 0 <= a < b < after.len() implies coord_rank(
                    (#[trigger] after[a]).0@,
                ) < coord_rank((#[trigger] after[b]).0@) by {
                    let a0 = if a < i { a } else { a - 1 };
                    let b0 = if b < i { b } else { b - 1 };
                    if a != i && b != i {
                        assert(after[a] == before[a0]);
                        assert(after[b] == before[b0]);
                    } else if a == i {
                        assert(after[b] == before[b0]);
                        assert(coord_rank(before[i as int].0@) <= coord_rank(before[b0].0@));
                    } else {
                        assert(after[a] == before[a0]);
                    }
                }
                assert forall|key: Seq<PartitionID>| #[trigger]
                    has_key(after, key) <==> has_key(before, key) || key == at@ by {
                    if has_key(after, key) {
                        let t = choose|t: int| 0 <= t < after.len() && (#[trigger] after[t]).0@ == key;
                        if t != i {
                            let t0 = if t < i { t } else { t - 1 };
                            assert(before[t0].0@ == key);
                        }
                    }
                    if has_key(before, key) {
                        let t = choose|t: int|
                            0 <= t < before.len() && (#[trigger] before[t]).0@ == key;
                        let t1 = if t < i { t } else { t + 1 };
                        assert(after[t1].0@ == key);
                    }
                    if key == at@ {
                        assert(after[i as int].0@ == key);
                    }
                }
                assert forall|key: Seq<PartitionID>| has_key(after, key) implies value_at(
                    after,
                    key,
                ) == old(self)@.insert(at@, val)[key] by {
                    let t = choose|t: int| 0 <= t < after.len() && (#[trigger] after[t]).0@ == key;
                    lemma_value_at(after, t);
                    if t != i {
                        let t0 = if t < i { t } else { t - 1 };
                        assert(after[t] == before[t0]);
                        lemma_value_at(before, t0);
                        if key == at@ {
                            lemma_rank_injective(after[t].0@, after[i as int].0@);
                        }
                    }
                }
                assert(self@ =~= old(self)@.insert(at@, val));
            }
            val
        }
    }

    /// The value stored under a coordinate; where none is stored yet, the
    /// value that `compute` gives is stored there first.
    pub fn get_or_insert_with<F: FnOnce() -> V>(&mut self, at: &PartitionCoord<3>, compute: F) -> (r:
        V)
        requires
            old(self).wf(),
            call_requires(compute, ()),
        ensures
            final(self).wf(),
            old(self)@.contains_key(at@) ==> r == old(self)@[at@] && final(self)@ == old(self)@,
            !old(self)@.contains_key(at@) ==> call_ensures(compute, (), r) && final(self)@ == old(
                self,
            )@.insert(at@, r),
    {
        match self.get(at) {
            Some(val) => val,
            None => {
                let val = compute();
                self.get_or_insert(at, val)
            },
        }
    }
}

impl<V: Copy> Clone for CoordMap<V> {
    /// A table with the same entries, that shares nothing with this one.
    fn clone(&self) -> (r: Self)
        ensures
            r@ == self@,
            r.wf() == self.wf(),
    {
        let mut entries: Vec<(PartitionCoord<3>, V)> = Vec::new();
        let mut i: usize = 0;
        while i < self.entries.len()
            invariant
                i <= self.entries@.len(),
                entries@ == self.entries@.take(i as int),
            decreases self.entries.len() - i,
        {
            entries.push((self.entries[i].0, self.entries[i].1));
            proof {
                assert(entries@ =~= self.entries@.take(i + 1));
            }
            i += 1;
        }
        proof {
            assert(entries@ =~= self.entries@);
        }
        CoordMap { entries }
    }
}

impl<V: Copy, G: Copy> Clone for EvaluationCache<V, G> {
    /// A cache that holds the same, and shares nothing with this one.
    fn clone(&self) -> (r: Self)
        ensures
            r.func_vals@ == self.func_vals@,
            r.grad_vals@ == self.grad_vals@,
            r.wf() == self.wf(),
    {
        EvaluationCache { func_vals: self.func_vals.clone(), grad_vals: self.grad_vals.clone() }
    }
}

/// The values and the gradients of a field at the corners of the cells of
/// the box, as far as they were asked for.
pub struct EvaluationCache<V, G> {
    pub func_vals: CoordMap<V>,
    pub grad_vals: CoordMap<G>,
}

impl<V: Copy, G: Copy> EvaluationCache<V, G> {
    /// Whether the cache is well formed.
    pub open spec fn wf(&self) -> bool {
        self.func_vals.wf() && self.grad_vals.wf()
    }

    /// A cache that holds nothing yet.
    pub fn new() -> (r: Self)
        ensures
            r.wf(),
            r.func_vals@ == Map::<Seq<PartitionID>, V>::empty(),
            r.grad_vals@ == Map::<Seq<PartitionID>, G>::empty(),
    {
        EvaluationCache { func_vals: CoordMap::new(), grad_vals: CoordMap::new() }
    }

    /// The value of the field at a corner: the one in the cache, or else
    /// the one that `func` gives, which then is in the cache.
    pub fn eval<F: FnOnce() -> V>(&mut self, at: &PartitionCoord<3>, func: F) -> (r: V)
        requires
            old(self).wf(),
            call_requires(func, ()),
        ensures
            final(self).wf(),
            final(self).grad_vals == old(self).grad_vals,
            old(self).func_vals@.contains_key(at@) ==> r == old(self).func_vals@[at@]
                && final(self).func_vals@ == old(self).func_vals@,
            !old(self).func_vals@.contains_key(at@) ==> call_ensures(func, (), r)
                && final(self).func_vals@ == old(self).func_vals@.insert(at@, r),
    {
        self.func_vals.get_or_insert_with(at, func)
    }

    /// The gradient of the field at a corner: the one in the cache, or else
    /// the one that `grad` gives, which then is in the cache.
    pub fn eval_grad<F: FnOnce() -> G>(&mut self, at: &PartitionCoord<3>, grad: F) -> (r: G)
        requires
            old(self).wf(),
            call_requires(grad, ()),
        ensures
            final(self).wf(),
            final(self).func_vals == old(self).func_vals,
            old(self).grad_vals@.contains_key(at@) ==> r == old(self).grad_vals@[at@]
                && final(self).grad_vals@ == old(self).grad_vals@,
            !old(self).grad_vals@.contains_key(at@) ==> call_ensures(grad, (), r)
                && final(self).grad_vals@ == old(self).grad_vals@.insert(at@, r),
    {
        self.grad_vals.get_or_insert_with(at, grad)
    }
}

} // verus!
