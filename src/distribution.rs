//! A distribution that draws values with probability proportional to their weights.

use vstd::prelude::*;
use vstd::laws_cmp::obeys_cmp;
use vstd::set_lib::{set_int_range, lemma_int_range};
use vstd::std_specs::btree::key_obeys_cmp_spec;
use vstd::std_specs::iter::IteratorSpec;
use vstd::std_specs::btree::increasing_seq;
use vstd::std_specs::cmp::OrdSpec;
use std::cmp::Ordering;
use std::collections::BTreeMap;
use std::collections::BTreeSet;
use crate::floor::{keys_increasing, floor_position};
use crate::sampling::uniform_below;

verus! {

broadcast use vstd::std_specs::btree::group_btree_axioms;

/// Why an operation on a distribution was refused.
#[derive(Debug, PartialEq, Eq, Structural, Clone, Copy)]
pub enum DistributionError {
    /// A value was added with a weight that is zero or negative.
    InvalidWeight,
    /// A value was requested from a distribution that holds none.
    EmptyDistribution,
}

/// Sum of a sequence of integers, taken from the front.
pub open spec fn sum(s: Seq<int>) -> int
    decreases s.len(),
{
    if s.len() == 0 {
        0
    } else {
        sum(s.drop_last()) + s.last()
    }
}

/// Filtering keeps a sequence free of duplicates.
proof fn lemma_filter_no_duplicates<A>(s: Seq<A>, pred: spec_fn(A) -> bool)
    requires
        s.no_duplicates(),
    ensures
        s.filter(pred).no_duplicates(),
    decreases s.len(),
{
    reveal(Seq::filter);
    if s.len() > 0 {
        let init = s.drop_last();
        assert(init.no_duplicates());
        lemma_filter_no_duplicates(init, pred);
        if pred(s.last()) {
            assert(!init.contains(s.last()));
            if init.filter(pred).contains(s.last()) {
                init.lemma_filter_contains_rev(pred, s.last());
            }
        }
    }
}

/// Holds of the pairs whose value is outside `removals`.
pub open spec fn not_removed<T>(removals: Set<T>) -> spec_fn((T, u64)) -> bool {
    |p: (T, u64)| !removals.contains(p.0)
}

/// The values of `s` come in strictly ascending order.
pub open spec fn values_ascending<T: Ord>(s: Seq<(T, u64)>) -> bool {
    forall|i: int, j: int| 0 <= i < j < s.len() ==> (#[trigger] s[i].0).cmp_spec(&(#[trigger] s[j]).0) == Ordering::Less
}

/// Filtering keeps a sequence in ascending order.
proof fn lemma_filter_ascending<T: Ord>(s: Seq<(T, u64)>, pred: spec_fn((T, u64)) -> bool)
    requires
        values_ascending(s),
    ensures
        values_ascending(s.filter(pred)),
    decreases s.len(),
{
    reveal(Seq::filter);
    if s.len() > 0 {
        let init = s.drop_last();
        assert(values_ascending(init));
        lemma_filter_ascending(init, pred);
        if pred(s.last()) {
            let f = init.filter(pred);
            assert forall|i: int, j: int| 0 <= i < j < f.len() + 1 implies (#[trigger] f.push(s.last())[i]).0.cmp_spec(&(#[trigger] f.push(s.last())[j]).0) == Ordering::Less by {
                if j == f.len() {
                    init.lemma_filter_contains_rev(pred, f[i]);
                    let k = choose|k: int| 0 <= k < init.len() && init[k] == f[i];
                    assert(s[k] == f[i]);
                    assert(s[s.len() - 1] == s.last());
                } else {
                    assert(f.push(s.last())[i] == f[i]);
                    assert(f.push(s.last())[j] == f[j]);
                }
            }
        }
    }
}

/// Values with positive weights, laid out as consecutive half-open intervals of `[0, total)`.
///
/// Entry `i` of the index holds the cumulative weight of all earlier insertions (its
/// threshold) and the value inserted at that step; it owns the interval that starts at
/// its threshold and ends where the next one starts, or at the total for the last entry.
pub struct Distribution<T> {
    index: Vec<(u128, T)>,
    total_weight: u128,
    originals: BTreeMap<T, u64>,
}

impl<T> Distribution<T> {
    /// The cumulative index: threshold and value of each insertion, in insertion order.
    pub closed spec fn entries(&self) -> Seq<(u128, T)> {
        self.index@
    }

    /// The sum of all weights inserted so far.
    pub closed spec fn total(&self) -> int {
        self.total_weight as int
    }

    /// The weight most recently recorded for each distinct value.
    pub closed spec fn original_weights(&self) -> Map<T, u64> {
        self.originals@
    }

    /// Where the interval of entry `i` ends.
    pub open spec fn upper(&self, i: int) -> int {
        if i + 1 < self.entries().len() {
            self.entries()[i + 1].0 as int
        } else {
            self.total()
        }
    }

    /// The weight of each insertion, in insertion order: the lengths of the intervals.
    pub open spec fn weights(&self) -> Seq<int> {
        Seq::new(self.entries().len(), |i: int| self.upper(i) - self.entries()[i].0)
    }

    /// The entry whose interval holds `r`.
    pub open spec fn owns(&self, i: int, r: int) -> bool {
        0 <= i < self.entries().len() && self.entries()[i].0 <= r < self.upper(i)
    }

    /// Thresholds start at 0, increase strictly and stay below the total; the total is 0 when
    /// nothing was added and at most the number of insertions times `u64::MAX`; and every
    /// recorded weight is positive and fits an `i64`.
    pub closed spec fn wf(&self) -> bool {
        &&& keys_increasing(self.index@)
        &&& self.index@.len() == 0 ==> self.total_weight == 0
        &&& self.index@.len() > 0 ==> {
            &&& self.index@[0].0 == 0
            &&& self.index@.last().0 < self.total_weight
        }
        &&& self.total_weight <= self.index@.len() * (u64::MAX as int)
        &&& key_obeys_cmp_spec::<T>() ==> {
            &&& self.originals@.dom().len() <= self.index@.len()
            &&& forall|k: T| #[trigger] self.originals@.contains_key(k)
                ==> 0 < self.originals@[k] <= i64::MAX
        }
    }

    /// The sum of all weights added so far.
    pub fn total_weight(&self) -> (t: u128)
        ensures
            t == self.total(),
    {
        self.total_weight
    }

    /// An empty distribution.
    pub fn new() -> (d: Self)
        ensures
            d.wf(),
            d.entries().len() == 0,
            d.total() == 0,
            d.original_weights() == Map::<T, u64>::empty(),
    {
        Distribution { index: Vec::new(), total_weight: 0, originals: BTreeMap::new() }
    }
}

impl<T> Distribution<T> {
    proof fn lemma_prefix_sums(&self, i: int)
        requires
            self.wf(),
            0 <= i <= self.entries().len(),
        ensures
            sum(self.weights().take(i)) == if i < self.entries().len() {
                self.entries()[i].0 as int
            } else {
                self.total()
            },
        decreases i,
    {
        if i > 0 {
            self.lemma_prefix_sums(i - 1);
            assert(self.weights().take(i).drop_last() =~= self.weights().take(i - 1));
        }
    }

    /// The total weight is the sum of the weights of all insertions, in insertion order.
    pub proof fn lemma_total_is_sum_of_weights(&self)
        requires
            self.wf(),
        ensures
            self.total() == sum(self.weights()),
    {
        self.lemma_prefix_sums(self.entries().len() as int);
        assert(self.weights().take(self.entries().len() as int) =~= self.weights());
    }

    /// Every point of `[0, total)` lies in the interval of exactly one entry, and entry `i`
    /// owns exactly the `weights()[i]` points from its threshold on. A uniform draw from
    /// `[0, total)` therefore lands on entry `i` with probability `weights()[i] / total`.
    pub proof fn lemma_intervals_partition(&self, i: int, r: int)
        requires
            self.wf(),
            0 <= i < self.entries().len(),
        ensures
            self.weights()[i] > 0,
            Set::new(|x: int| self.owns(i, x)) == set_int_range(
                self.entries()[i].0 as int,
                self.entries()[i].0 + self.weights()[i],
            ),
            Set::new(|x: int| self.owns(i, x)).len() == self.weights()[i],
            0 <= r < self.total() ==> exists|j: int| self.owns(j, r),
            forall|j: int| #[trigger] self.owns(j, r) && self.owns(i, r) ==> j == i,
    {
        let lo = self.entries()[i].0 as int;
        let hi = lo + self.weights()[i];
        assert(Set::new(|x: int| self.owns(i, x)) =~= set_int_range(lo, hi));
        lemma_int_range(lo, hi);
        if 0 <= r < self.total() {
            self.lemma_owner_from(r, 0);
        }
        assert forall|j: int| #[trigger] self.owns(j, r) && self.owns(i, r) implies j == i by {
            if j < i {
                assert(self.entries()[j + 1].0 <= self.entries()[i].0);
            } else if i < j {
                assert(self.entries()[i + 1].0 <= self.entries()[j].0);
            }
        }
    }

    proof fn lemma_owner_from(&self, r: int, k: int)
        requires
            self.wf(),
            0 <= r < self.total(),
            0 <= k < self.entries().len(),
            self.entries()[k].0 <= r,
        ensures
            exists|j: int| self.owns(j, r),
        decreases self.entries().len() - k,
    {
        if k + 1 < self.entries().len() && self.entries()[k + 1].0 <= r {
            self.lemma_owner_from(r, k + 1);
        } else {
            assert(self.owns(k, r));
        }
    }
}

impl<T: Clone + Ord> Distribution<T> {
    /// The value of the entry whose interval holds `r`.
    pub fn pick_at(&self, r: u128) -> (v: T)
        requires
            self.wf(),
            r < self.total(),
        ensures
            exists|i: int| self.owns(i, r as int) && cloned(self.entries()[i].1, v),
    {
        match floor_position(&self.index, r) {
            Some(p) => {
                let v = self.index[p].1.clone();
                assert(self.owns(p as int, r as int));
                v
            },
            None => {
                // The first threshold is 0, so some entry is at most `r` and this arm never runs.
                assert(self.entries()[0].0 <= r);
                assert(false);
                self.index[0].1.clone()
            },
        }
    }

    /// A value drawn at random: a point is drawn uniformly from `[0, total)` and the entry
    /// whose interval holds it gives the value. Fails when nothing has been added.
    pub fn random_pick(&self) -> (v: Result<T, DistributionError>)
        requires
            self.wf(),
        ensures
            self.total() == 0 ==> v == Err::<T, DistributionError>(
                DistributionError::EmptyDistribution,
            ),
            self.total() > 0 ==> v is Ok,
            v matches Ok(x) ==> exists|r: int, i: int|
                0 <= r < self.total() && self.owns(i, r) && cloned(self.entries()[i].1, x),
    {
        if self.total_weight == 0 {
            return Err(DistributionError::EmptyDistribution);
        }
        let r = uniform_below(self.total_weight);
        let v = self.pick_at(r);
        assert(0 <= r < self.total());
        Ok(v)
    }

    /// Adds `value` with the given weight. Its interval starts at the current total, which
    /// grows by `weight`; the weight is recorded as the latest one for `value`.
    pub fn add(&mut self, value: &T, weight: i64) -> (r: Result<(), DistributionError>)
        requires
            old(self).wf(),
        ensures
            final(self).wf(),
            weight <= 0 ==> r == Err::<(), DistributionError>(DistributionError::InvalidWeight)
                && *final(self) == *old(self),
            weight > 0 ==> {
                &&& r is Ok
                &&& final(self).entries().len() == old(self).entries().len() + 1
                &&& final(self).entries().drop_last() == old(self).entries()
                &&& final(self).entries().last().0 == old(self).total()
                &&& cloned(*value, final(self).entries().last().1)
                &&& final(self).total() == old(self).total() + weight
                &&& final(self).weights() == old(self).weights().push(weight as int)
                &&& obeys_cmp::<T>() ==> exists|k: T|
                    cloned(*value, k) && final(self).original_weights()
                        == old(self).original_weights().insert(k, weight as u64)
            },
    {
        if weight <= 0 {
            return Err(DistributionError::InvalidWeight);
        }
        let w: u64 = weight as u64;
        let n: usize = self.index.len();
        assert(self.total_weight + w <= u128::MAX) by (nonlinear_arith)
            requires
                self.total_weight <= n * (u64::MAX as int),
                n <= usize::MAX,
                w <= u64::MAX,
                usize::MAX <= u64::MAX,
        ;
        let ghost before = *self;
        let copy = value.clone();
        assert(cloned(*value, copy));
        self.index.push((self.total_weight, copy));
        self.total_weight = self.total_weight + w as u128;
        let key = value.clone();
        assert(cloned(*value, key));
        self.originals.insert(key, w);
        assert(self.index@.drop_last() =~= before.index@);
        assert(self.total_weight <= self.index@.len() * (u64::MAX as int)) by (nonlinear_arith)
            requires
                before.total_weight <= n * (u64::MAX as int),
                self.total_weight == before.total_weight + w,
                w <= u64::MAX,
                self.index@.len() == n + 1,
        ;
        assert(self.weights() =~= before.weights().push(weight as int));
        Ok(())
    }

    /// A new distribution holding each value of the original-weights table that is not in
    /// `removals`, added once with its recorded weight, in ascending order of the values. The
    /// receiver is left as it was.
    pub fn without(&self, removals: BTreeSet<T>) -> (result: Self)
        requires
            self.wf(),
            obeys_cmp::<T>(),
        ensures
            result.wf(),
            exists|kept: Seq<(T, u64)>|
                {
                    &&& kept.no_duplicates()
                    &&& values_ascending(kept)
                    &&& forall|p: (T, u64)| #[trigger]
                        kept.contains(p) <==> {
                            &&& self.original_weights().contains_key(p.0)
                            &&& self.original_weights()[p.0] == p.1
                            &&& !removals@.contains(p.0)
                        }
                    &&& result.rebuilt_from(kept)
                    &&& result.total() == sum(kept.map_values(|p: (T, u64)| p.1 as int))
                },
    {
        let ghost pred = not_removed(removals@);
        let ghost m = self.originals@;
        let mut result: Self = Distribution::new();
        let ghost mut kept: Seq<(T, u64)> = Seq::empty();
        let iter = self.originals.iter();
        let ghost all = IteratorSpec::remaining(&iter);
        for (value, weight) in it: iter
            invariant
                self.wf(),
                obeys_cmp::<T>(),
                key_obeys_cmp_spec::<T>(),
                m == self.originals@,
                pred == not_removed(removals@),
                it.seq() == all,
                all.no_duplicates(),
                increasing_seq(all.map_values(|kv: (&T, &u64)| *kv.0)),
                forall|k: T| #[trigger] m.contains_key(k) ==> all.contains((&k, &m[k])),
                result.wf(),
                it.seq().len() == m.dom().len(),
                forall|i: int|
                    0 <= i < it.seq().len() ==> m.contains_key(*(#[trigger] it.seq()[i]).0)
                        && m[*it.seq()[i].0] == *it.seq()[i].1,
                kept == it.seq().take(it.index()).unref().filter(pred),
                kept.len() <= it.index(),
                result.rebuilt_from(kept),
        {
            assert(value == it.seq()[it.index()].0 && weight == it.seq()[it.index()].1);
            let ghost n = it.index();
            let ghost seen = it.seq().take(n).unref();
            let ghost cur = it.seq()[n];
            assert(it.seq().take(n + 1).unref() =~= seen.push((*cur.0, *cur.1)));
            proof {
                seen.lemma_filter_push((*cur.0, *cur.1), pred);
            }
            if !removals.contains(value) {
                assert(m.contains_key(*value));
                assert(0 < *weight <= i64::MAX);
                let ghost prev = result;
                let _ = result.add(value, *weight as i64);
                proof {
                    Self::lemma_rebuild_step(prev, result, kept, *value, *weight);
                    kept = kept.push((*value, *weight));
                }
            }
        }
        proof {
            let pairs = all.unref();
            assert(all.take(all.len() as int) =~= all);
            assert(values_ascending(pairs)) by {
                let ks = all.map_values(|kv: (&T, &u64)| *kv.0);
                assert(increasing_seq(ks));
                assert forall|i: int, j: int| 0 <= i < j < pairs.len() implies (#[trigger] pairs[i]).0.cmp_spec(&(#[trigger] pairs[j]).0) == Ordering::Less by {
                    assert(ks[i] == pairs[i].0 && ks[j] == pairs[j].0);
                }
            }
            lemma_filter_ascending(pairs, pred);
            result.lemma_total_is_sum_of_weights();
            assert forall|j: int| 0 <= j < kept.len() implies result.weights()[j] == kept[j].1 by {
                assert(cloned(kept[j].0, result.entries()[j].1));
            }
            assert(result.weights() =~= kept.map_values(|p: (T, u64)| p.1 as int));
            assert(pairs.no_duplicates());
            lemma_filter_no_duplicates(pairs, pred);
            assert forall|p: (T, u64)| #[trigger] kept.contains(p) <==> {
                &&& m.contains_key(p.0)
                &&& m[p.0] == p.1
                &&& !removals@.contains(p.0)
            } by {
                if kept.contains(p) {
                    let j = choose|j: int| 0 <= j < kept.len() && kept[j] == p;
                    pairs.lemma_filter_pred(pred, j);
                    pairs.lemma_filter_contains_rev(pred, p);
                    let i = choose|i: int| 0 <= i < pairs.len() && pairs[i] == p;
                    assert(m.contains_key(*all[i].0));
                }
                if m.contains_key(p.0) && m[p.0] == p.1 && !removals@.contains(p.0) {
                    assert(all.contains((&p.0, &m[p.0])));
                    let i = choose|i: int| 0 <= i < all.len() && all[i] == (&p.0, &m[p.0]);
                    assert(pairs[i] == p);
                    pairs.lemma_filter_contains(pred, i);
                }
            }
        }
        result
    }
}

impl<T: Clone> Distribution<T> {
    /// This distribution was built by adding the pairs of `kept`, in order, each value as a
    /// clone: entry `j` holds a clone of `kept[j].0` with weight `kept[j].1`, and each key of
    /// the original-weights table is a clone of a value of `kept` recorded with its weight.
    pub open spec fn rebuilt_from(&self, kept: Seq<(T, u64)>) -> bool {
        &&& self.entries().len() == kept.len()
        &&& forall|j: int|
            0 <= j < kept.len() ==> {
                &&& cloned(kept[j].0, #[trigger] self.entries()[j].1)
                &&& self.weights()[j] == kept[j].1
            }
        &&& forall|k: T| #[trigger] self.original_weights().contains_key(k) ==> exists|j: int|
            0 <= j < kept.len() && cloned(kept[j].0, k) && self.original_weights()[k] == kept[j].1
    }

    proof fn lemma_rebuild_step(prev: Self, next: Self, kept: Seq<(T, u64)>, v: T, w: u64)
        requires
            prev.rebuilt_from(kept),
            next.entries().len() == prev.entries().len() + 1,
            next.entries().drop_last() == prev.entries(),
            cloned(v, next.entries().last().1),
            next.weights() == prev.weights().push(w as int),
            exists|k: T| cloned(v, k) && next.original_weights() == prev.original_weights().insert(k, w),
        ensures
            next.rebuilt_from(kept.push((v, w))),
    {
        let nk = kept.push((v, w));
        let last = kept.len() as int;
        let k1 = choose|k: T| cloned(v, k) && next.original_weights() == prev.original_weights().insert(k, w);
        assert forall|j: int| 0 <= j < nk.len() implies {
            &&& cloned(nk[j].0, #[trigger] next.entries()[j].1)
            &&& next.weights()[j] == nk[j].1
        } by {
            if j < last {
                assert(next.entries()[j] == next.entries().drop_last()[j]);
                assert(next.weights()[j] == prev.weights()[j]);
            }
        }
        assert forall|k: T| #[trigger] next.original_weights().contains_key(k) implies exists|j: int|
            0 <= j < nk.len() && cloned(nk[j].0, k) && next.original_weights()[k] == nk[j].1 by {
            if k == k1 {
                assert(cloned(nk[last].0, k));
            } else {
                let j = choose|j: int| 0 <= j < kept.len() && cloned(kept[j].0, k)
                    && prev.original_weights()[k] == kept[j].1;
                assert(nk[j] == kept[j]);
            }
        }
    }
}

} // verus!
