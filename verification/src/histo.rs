//! The histogram collector: a radix-tree counter store, the ascending list
//! of populated bucket ids, and the running total of observations.
//!
//! Observations are recorded against 16-bit bucket ids. A percentile query
//! takes its argument in hundredths of a percent and scans the populated
//! buckets in ascending id order, accumulating counts until the requested
//! rank is reached; on a histogram with no observations it returns the
//! no-data sentinel `None`.

use vstd::prelude::*;

use crate::radix::Radix;

verus! {

/// The mathematical content of a histogram: the count recorded for every
/// bucket id, and the total number of observations.
#[verifier::ext_equal]
pub ghost struct HistoModel {
    pub counts: Map<u16, nat>,
    pub total: nat,
}

impl HistoModel {
    /// The model of a freshly created histogram: nothing observed anywhere.
    pub open spec fn empty() -> HistoModel {
        HistoModel { counts: Map::total(|id: u16| 0nat), total: 0nat }
    }

    /// The model after one more observation lands in `bucket`.
    pub open spec fn record(self, bucket: u16) -> HistoModel {
        HistoModel {
            counts: self.counts.insert(bucket, (self.counts[bucket] + 1) as nat),
            total: (self.total + 1) as nat,
        }
    }

    /// The model after a whole sequence of observations, oldest first.
    pub open spec fn record_all(self, buckets: Seq<u16>) -> HistoModel
        decreases buckets.len(),
    {
        if buckets.len() == 0 {
            self
        } else {
            self.record(buckets[0]).record_all(buckets.skip(1))
        }
    }
}

/// Monotonicity of the observation count: recording a sequence of
/// observations grows the total by exactly the length of the sequence,
/// whatever buckets they land in.
pub proof fn lemma_count_monotonic(m: HistoModel, buckets: Seq<u16>)
    ensures
        m.record_all(buckets).total == m.total + buckets.len(),
    decreases buckets.len(),
{
    if buckets.len() != 0 {
        lemma_count_monotonic(m.record(buckets[0]), buckets.skip(1));
    }
}

/// A bucket in which no observation of a sequence lands keeps its count; in
/// particular a bucket that was never observed still counts zero.
pub proof fn lemma_unobserved_bucket_unchanged(m: HistoModel, buckets: Seq<u16>, id: u16)
    requires
        !buckets.contains(id),
    ensures
        m.record_all(buckets).counts[id] == m.counts[id],
    decreases buckets.len(),
{
    if buckets.len() != 0 {
        assert(buckets[0] != id);
        assert(!buckets.skip(1).contains(id)) by {
            if buckets.skip(1).contains(id) {
                let j = choose|j: int|
                    0 <= j < buckets.skip(1).len() && buckets.skip(1)[j] == id;
                assert(buckets[j + 1] == id);
            }
        }
        lemma_unobserved_bucket_unchanged(m.record(buckets[0]), buckets.skip(1), id);
    }
}

/// Strictly ascending: each id appears at most once, in numeric order.
pub open spec fn sorted_strict(s: Seq<u16>) -> bool {
    forall|i: int, j: int| 0 <= i < j < s.len() ==> s[i] < s[j]
}

/// The sum of the store's counters over a sequence of bucket ids.
pub open spec fn sum_counts(store: Radix, ids: Seq<u16>) -> nat
    decreases ids.len(),
{
    if ids.len() == 0 {
        0nat
    } else {
        (store.count_spec(ids[0]) + sum_counts(store, ids.skip(1))) as nat
    }
}

/// Two stores that agree on every id of a sequence give it the same sum.
proof fn lemma_sum_congruent(s1: Radix, s2: Radix, ids: Seq<u16>)
    requires
        forall|k: u16| #[trigger] ids.contains(k) ==> s2.count_spec(k) == s1.count_spec(k),
    ensures
        sum_counts(s2, ids) == sum_counts(s1, ids),
    decreases ids.len(),
{
    if ids.len() != 0 {
        assert(ids.contains(ids[0]));
        assert forall|k: u16| #[trigger] ids.skip(1).contains(k) implies s2.count_spec(k)
            == s1.count_spec(k) by {
            let j = choose|j: int| 0 <= j < ids.skip(1).len() && ids.skip(1)[j] == k;
            assert(ids[j + 1] == k);
            assert(ids.contains(k));
        }
        lemma_sum_congruent(s1, s2, ids.skip(1));
    }
}

/// The count of any member of a sequence is at most the sequence's sum.
proof fn lemma_member_le_sum(store: Radix, ids: Seq<u16>, x: u16)
    requires
        ids.contains(x),
    ensures
        store.count_spec(x) <= sum_counts(store, ids),
    decreases ids.len(),
{
    let j = choose|j: int| 0 <= j < ids.len() && ids[j] == x;
    if j != 0 {
        assert(ids.skip(1)[j - 1] == x);
        assert(ids.skip(1).contains(x));
        lemma_member_le_sum(store, ids.skip(1), x);
    }
}

/// Raising one member's count by one raises the sum by one, provided the
/// member appears only once, which strict sortedness guarantees.
proof fn lemma_sum_bump(s1: Radix, s2: Radix, ids: Seq<u16>, bucket: u16)
    requires
        sorted_strict(ids),
        ids.contains(bucket),
        s2.count_spec(bucket) == s1.count_spec(bucket) + 1,
        forall|k: u16| k != bucket ==> s2.count_spec(k) == s1.count_spec(k),
    ensures
        sum_counts(s2, ids) == sum_counts(s1, ids) + 1,
    decreases ids.len(),
{
    if ids[0] == bucket {
        assert forall|k: u16| #[trigger] ids.skip(1).contains(k) implies s2.count_spec(k)
            == s1.count_spec(k) by {
            let j = choose|j: int| 0 <= j < ids.skip(1).len() && ids.skip(1)[j] == k;
            assert(ids[j + 1] == k);
            assert(ids[0] < ids[j + 1]);
        }
        lemma_sum_congruent(s1, s2, ids.skip(1));
    } else {
        let j = choose|j: int| 0 <= j < ids.len() && ids[j] == bucket;
        assert(ids.skip(1)[j - 1] == bucket);
        assert(ids.skip(1).contains(bucket));
        assert forall|i1: int, j1: int| 0 <= i1 < j1 < ids.skip(1).len() implies ids.skip(1)[i1]
            < ids.skip(1)[j1] by {
            assert(ids[i1 + 1] < ids[j1 + 1]);
        }
        lemma_sum_bump(s1, s2, ids.skip(1), bucket);
    }
}

/// Appending one id adds its count to the sum.
proof fn lemma_sum_push(store: Radix, ids: Seq<u16>, x: u16)
    ensures
        sum_counts(store, ids.push(x)) == sum_counts(store, ids) + store.count_spec(x),
    decreases ids.len(),
{
    if ids.len() == 0 {
        assert(ids.push(x)[0] == x);
        assert(ids.push(x).skip(1) =~= Seq::<u16>::empty());
        assert(sum_counts(store, ids.push(x)) == store.count_spec(x) + sum_counts(
            store,
            Seq::<u16>::empty(),
        ));
        assert(sum_counts(store, Seq::<u16>::empty()) == 0);
        assert(sum_counts(store, ids) == 0);
    } else {
        assert(ids.push(x)[0] == ids[0]);
        assert(ids.push(x).skip(1) =~= ids.skip(1).push(x));
        lemma_sum_push(store, ids.skip(1), x);
        assert(sum_counts(store, ids.push(x)) == store.count_spec(ids[0]) + sum_counts(
            store,
            ids.skip(1).push(x),
        ));
        assert(sum_counts(store, ids) == store.count_spec(ids[0]) + sum_counts(
            store,
            ids.skip(1),
        ));
    }
}

/// The sum splits at any point of the sequence.
proof fn lemma_sum_split(store: Radix, ids: Seq<u16>, i: int)
    requires
        0 <= i <= ids.len(),
    ensures
        sum_counts(store, ids) == sum_counts(store, ids.take(i)) + sum_counts(store, ids.skip(i)),
    decreases i,
{
    if i == 0 {
        assert(ids.take(0) =~= Seq::<u16>::empty());
        assert(ids.skip(0) =~= ids);
    } else {
        lemma_sum_split(store, ids, i - 1);
        assert(ids.take(i) =~= ids.take(i - 1).push(ids[i - 1]));
        lemma_sum_push(store, ids.take(i - 1), ids[i - 1]);
        assert(ids.skip(i - 1)[0] == ids[i - 1]);
        assert(ids.skip(i - 1).skip(1) =~= ids.skip(i));
    }
}

/// The sums of two concatenated sequences add.
proof fn lemma_sum_append(store: Radix, a: Seq<u16>, b: Seq<u16>)
    ensures
        sum_counts(store, a + b) == sum_counts(store, a) + sum_counts(store, b),
    decreases a.len(),
{
    if a.len() == 0 {
        assert(a + b =~= b);
    } else {
        assert((a + b)[0] == a[0]);
        assert((a + b).skip(1) =~= a.skip(1) + b);
        lemma_sum_append(store, a.skip(1), b);
    }
}

/// Inserting one id adds its count to the sum.
proof fn lemma_sum_insert(store: Radix, ids: Seq<u16>, i: int, x: u16)
    requires
        0 <= i <= ids.len(),
    ensures
        sum_counts(store, ids.insert(i, x)) == sum_counts(store, ids) + store.count_spec(x),
{
    lemma_sum_append(store, ids.subrange(0, i).push(x), ids.subrange(i, ids.len() as int));
    lemma_sum_push(store, ids.subrange(0, i), x);
    lemma_sum_split(store, ids, i);
    assert(ids.subrange(0, i) =~= ids.take(i));
    assert(ids.subrange(i, ids.len() as int) =~= ids.skip(i));
}

/// The percentile scan, over a map of bucket counts: walk the given bucket
/// ids in order, accumulating counts, and select the first id whose
/// cumulative count, scaled by 10000, reaches `need`.
pub open spec fn rank_scan(counts: Map<u16, nat>, ids: Seq<u16>, acc: nat, need: nat) -> Option<
    u16,
>
    decreases ids.len(),
{
    if ids.len() == 0 {
        Option::None
    } else if (acc + counts[ids[0]]) * 10000 >= need {
        Option::Some(ids[0])
    } else {
        rank_scan(counts, ids.skip(1), (acc + counts[ids[0]]) as nat, need)
    }
}

/// The same scan, read against the counter store itself.
spec fn scan_spec(store: Radix, ids: Seq<u16>, acc: nat, need: nat) -> Option<u16>
    decreases ids.len(),
{
    if ids.len() == 0 {
        Option::None
    } else if (acc + store.count_spec(ids[0])) * 10000 >= need {
        Option::Some(ids[0])
    } else {
        scan_spec(store, ids.skip(1), (acc + store.count_spec(ids[0])) as nat, need)
    }
}

/// The two scans agree wherever the map carries the store's counts.
proof fn lemma_scan_agree(counts: Map<u16, nat>, store: Radix, ids: Seq<u16>, acc: nat, need: nat)
    requires
        forall|k: u16| counts[k] == store.count_spec(k),
    ensures
        rank_scan(counts, ids, acc, need) == scan_spec(store, ids, acc, need),
    decreases ids.len(),
{
    if ids.len() != 0 {
        lemma_scan_agree(
            counts,
            store,
            ids.skip(1),
            (acc + store.count_spec(ids[0])) as nat,
            need,
        );
    }
}

/// When the whole sequence carries enough count to reach the target, the
/// scan selects some bucket.
proof fn lemma_scan_finds(store: Radix, ids: Seq<u16>, acc: nat, need: nat)
    requires
        ids.len() > 0,
        (acc + sum_counts(store, ids)) * 10000 >= need,
    ensures
        scan_spec(store, ids, acc, need) is Some,
    decreases ids.len(),
{
    let cum = (acc + store.count_spec(ids[0])) as nat;
    assert(sum_counts(store, ids) == store.count_spec(ids[0]) + sum_counts(store, ids.skip(1)));
    if cum * 10000 >= need {
    } else {
        if ids.len() == 1 {
            assert(ids.skip(1) =~= Seq::<u16>::empty());
            assert(sum_counts(store, ids.skip(1)) == 0);
            assert(false);
        }
        lemma_scan_finds(store, ids.skip(1), cum, need);
    }
}

/// A histogram collector with zero-configuration logarithmic buckets.
///
/// It owns a sparse radix-tree counter store, the ascending list of bucket
/// ids holding at least one observation, and the running observation total.
pub struct Histo {
    store: Radix,
    vals: Vec<u16>,
    total: usize,
}

impl Histo {
    /// The count recorded for a bucket id.
    pub closed spec fn count_of(self, id: u16) -> nat {
        self.store.count_spec(id)
    }

    /// The number of observations recorded so far.
    pub closed spec fn total_spec(self) -> nat {
        self.total as nat
    }

    /// The populated bucket ids, in ascending order.
    pub closed spec fn populated(self) -> Seq<u16> {
        self.vals@
    }

    /// The histogram's mathematical content.
    pub closed spec fn model(self) -> HistoModel {
        HistoModel {
            counts: Map::total(|id: u16| self.count_of(id)),
            total: self.total as nat,
        }
    }

    /// Internal consistency: the store is well formed, the list of populated
    /// ids is strictly ascending and holds exactly the ids with a nonzero
    /// count, and the total equals the sum of all bucket counts.
    pub closed spec fn wf(self) -> bool {
        &&& self.store.wf()
        &&& sorted_strict(self.vals@)
        &&& (forall|id: u16| #[trigger] self.vals@.contains(id) ==> self.count_of(id) > 0)
        &&& (forall|id: u16| #[trigger] self.count_of(id) > 0 ==> self.vals@.contains(id))
        &&& self.total as nat == sum_counts(self.store, self.vals@)
    }

    /// The bucket a percentile query selects: the scan over the populated
    /// buckets against the target rank `total * p`, with `p` in hundredths
    /// of a percent.
    pub open spec fn percentile_spec(self, p: int) -> Option<u16> {
        rank_scan(self.model().counts, self.populated(), 0nat, (self.total_spec() * p) as nat)
    }

    /// Adds a bucket id to the populated list, keeping the list sorted, if
    /// the id is not there yet. Neither the store nor the total changes.
    fn ensure(&mut self, bucket: u16)
        requires
            sorted_strict(old(self).vals@),
        ensures
            final(self).store == old(self).store,
            final(self).total == old(self).total,
            sorted_strict(final(self).vals@),
            forall|x: u16|
                #[trigger] final(self).vals@.contains(x) <==> (old(self).vals@.contains(x) || x
                    == bucket),
            sum_counts(old(self).store, final(self).vals@) == sum_counts(
                old(self).store,
                old(self).vals@,
            ) + (if old(self).vals@.contains(bucket) {
                0nat
            } else {
                old(self).store.count_spec(bucket)
            }),
    {
        let mut i: usize = 0;
        while i < self.vals.len() && self.vals[i] < bucket
            invariant
                i <= self.vals@.len(),
                forall|j: int| 0 <= j < i ==> self.vals@[j] < bucket,
            decreases self.vals@.len() - i,
        {
            i = i + 1;
        }
        if i < self.vals.len() {
            let v = self.vals[i];
            if v == bucket {
                proof {
                    assert(self.vals@.contains(bucket));
                }
                return ;
            }
        }
        proof {
            assert forall|j: int| 0 <= j < self.vals@.len() implies self.vals@[j] != bucket by {
                if j >= i {
                    if j > i {
                        assert(self.vals@[i as int] < self.vals@[j]);
                    }
                }
            }
            assert(!self.vals@.contains(bucket));
        }
        let ghost oldvals = self.vals@;
        self.vals.insert(i, bucket);
        proof {
            oldvals.insert_ensures(i as int, bucket);
            assert forall|i1: int, j1: int| 0 <= i1 < j1 < self.vals@.len() implies self.vals@[i1]
                < self.vals@[j1] by {
                if j1 < i {
                    assert(oldvals[i1] < oldvals[j1]);
                } else if i1 > i {
                    assert(oldvals[i1 - 1] < oldvals[j1 - 1]);
                } else if i1 < i && j1 == i {
                    assert(oldvals[i1] < bucket);
                } else if i1 == i && j1 > i {
                    assert(oldvals[j1 - 1] != bucket);
                    assert(j1 - 1 >= i);
                    if j1 - 1 > i {
                        assert(oldvals[i as int] < oldvals[j1 - 1]);
                    }
                    assert(oldvals[j1 - 1] > bucket);
                } else {
                    assert(i1 < i && j1 > i);
                    assert(oldvals[i1] < bucket);
                    assert(oldvals[j1 - 1] != bucket);
                    if j1 - 1 > i {
                        assert(oldvals[i as int] < oldvals[j1 - 1]);
                    }
                    assert(oldvals[j1 - 1] > bucket);
                }
            }
            assert forall|x: u16| #[trigger] self.vals@.contains(x) implies (oldvals.contains(x)
                || x == bucket) by {
                let j = choose|j: int| 0 <= j < self.vals@.len() && self.vals@[j] == x;
                if j < i {
                    assert(oldvals[j] == x);
                } else if j == i {
                } else {
                    assert(oldvals[j - 1] == x);
                }
            }
            assert forall|x: u16| oldvals.contains(x) || x == bucket implies #[trigger] self.vals@.contains(
                x,
            ) by {
                if x == bucket {
                    assert(self.vals@[i as int] == x);
                } else {
                    let j = choose|j: int| 0 <= j < oldvals.len() && oldvals[j] == x;
                    if j < i {
                        assert(self.vals@[j] == x);
                    } else {
                        assert(self.vals@[j + 1] == x);
                    }
                }
            }
            lemma_sum_insert(self.store, oldvals, i as int, bucket);
        }
    }

    /// Records one observation that landed in `bucket` and returns the
    /// number of observations recorded for that bucket so far, this one
    /// included. Every other bucket keeps its count.
    pub fn measure(&mut self, bucket: u16) -> (r: usize)
        requires
            old(self).wf(),
            old(self).total_spec() < usize::MAX,
        ensures
            final(self).wf(),
            final(self).model() == old(self).model().record(bucket),
            final(self).total_spec() == old(self).total_spec() + 1,
            r == final(self).count_of(bucket),
            final(self).count_of(bucket) == old(self).count_of(bucket) + 1,
            forall|k: u16| k != bucket ==> final(self).count_of(k) == old(self).count_of(k),
    {
        proof {
            if old(self).count_of(bucket) > 0 {
                assert(old(self).vals@.contains(bucket));
                lemma_member_le_sum(old(self).store, old(self).vals@, bucket);
            }
        }
        self.ensure(bucket);
        let ghost prev = *self;
        let r = self.store.incr(bucket);
        proof {
            assert(self.vals@.contains(bucket));
            lemma_sum_bump(prev.store, self.store, self.vals@, bucket);
        }
        self.total = self.total + 1;
        proof {
            assert forall|id: u16| #[trigger] self.count_of(id) > 0 implies self.vals@.contains(
                id,
            ) by {
                if id != bucket {
                    assert(old(self).count_of(id) > 0);
                    assert(old(self).vals@.contains(id));
                }
            }
            assert(self.wf());
            assert(self.model().counts =~= old(self).model().counts.insert(
                bucket,
                (old(self).model().counts[bucket] + 1) as nat,
            ));
            assert(self.model() =~= old(self).model().record(bucket));
        }
        r
    }

    /// An approximate percentile. `p` is given in hundredths of a percent,
    /// from 0 for p0 to 10000 for p100. Returns the first populated bucket,
    /// in ascending id order, whose cumulative share of the observations
    /// reaches the target rank `total * p`, or `None` when nothing has been
    /// observed yet.
    pub fn percentile(&self, p: u32) -> (r: Option<u16>)
        requires
            self.wf(),
            p <= 10000,
        ensures
            r == self.percentile_spec(p as int),
            (r is Some) <==> self.total_spec() > 0,
            r is Some ==> self.count_of(r->Some_0) > 0,
    {
        let total = self.total;
        let ghost needn = (self.total_spec() * p as int) as nat;
        proof {
            assert((total as u128) * (p as u128) <= u128::MAX) by (nonlinear_arith)
                requires
                    total as u128 <= 0xffff_ffff_ffff_ffffu128,
                    p as u128 <= 10000,
            ;
        }
        let need: u128 = (total as u128) * (p as u128);
        let mut i: usize = 0;
        let mut acc: usize = 0;
        proof {
            assert(self.vals@.skip(0) =~= self.vals@);
            assert(self.vals@.take(0) =~= Seq::<u16>::empty());
            assert(sum_counts(self.store, Seq::<u16>::empty()) == 0);
        }
        while i < self.vals.len()
            invariant
                self.wf(),
                p <= 10000,
                total == self.total,
                need == needn,
                needn == (self.total_spec() * p as int) as nat,
                i <= self.vals@.len(),
                acc as nat == sum_counts(self.store, self.vals@.take(i as int)),
                acc <= self.total,
                scan_spec(self.store, self.vals@, 0nat, needn) == scan_spec(
                    self.store,
                    self.vals@.skip(i as int),
                    acc as nat,
                    needn,
                ),
            decreases self.vals@.len() - i,
        {
            let id = self.vals[i];
            let c = self.store.get(id);
            proof {
                lemma_sum_split(self.store, self.vals@, i as int + 1);
                assert(self.vals@.take(i as int + 1) =~= self.vals@.take(i as int).push(id));
                lemma_sum_push(self.store, self.vals@.take(i as int), id);
                assert(acc + c <= self.total);
                assert(self.vals@.skip(i as int)[0] == id);
            }
            let acc2 = acc + c;
            if (acc2 as u128) * 10000 >= need {
                proof {
                    assert(self.vals@.contains(id));
                    lemma_member_le_sum(self.store, self.vals@, id);
                    lemma_scan_agree(self.model().counts, self.store, self.vals@, 0nat, needn);
                }
                return Option::Some(id);
            }
            proof {
                assert(self.vals@.skip(i as int).skip(1) =~= self.vals@.skip(i as int + 1));
            }
            i = i + 1;
            acc = acc2;
        }
        proof {
            assert(self.vals@.skip(i as int).len() == 0);
            if self.total > 0 {
                assert(self.vals@.len() > 0);
                let tn = self.total_spec() as int;
                assert(tn * (p as int) >= 0 && tn * 10000 >= tn * (p as int)) by (nonlinear_arith)
                    requires
                        0 <= p as int <= 10000,
                        tn >= 0,
                ;
                assert(needn <= tn * 10000);
                assert((0 + sum_counts(self.store, self.vals@)) * 10000 >= needn);
                lemma_scan_finds(self.store, self.vals@, 0nat, needn);
                assert(false);
            }
            lemma_scan_agree(self.model().counts, self.store, self.vals@, 0nat, needn);
        }
        Option::None
    }

    /// The exact number of observations recorded so far.
    pub fn count(&self) -> (r: usize)
        ensures
            r == self.total_spec(),
    {
        self.total
    }
}

impl Default for Histo {
    /// An empty, ready-to-use histogram: no observations, no populated
    /// bucket, and every percentile query answers `None`.
    fn default() -> (r: Histo)
        ensures
            r.wf(),
            r.model() == HistoModel::empty(),
            r.total_spec() == 0,
            forall|id: u16| r.count_of(id) == 0,
            r.populated().len() == 0,
    {
        let r = Histo { store: Radix::default(), vals: Vec::new(), total: 0 };
        proof {
            assert(r.model().counts =~= HistoModel::empty().counts);
            assert(r.model() =~= HistoModel::empty());
        }
        r
    }
}

/// A freshly created histogram answers every percentile query with the
/// no-data sentinel: with no observations there is no populated bucket.
pub proof fn lemma_empty_percentile(h: Histo, p: int)
    requires
        h.wf(),
        h.total_spec() == 0,
        0 <= p <= 10000,
    ensures
        h.percentile_spec(p) is None,
{
    if h.populated().len() > 0 {
        assert(h.populated().contains(h.populated()[0]));
    }
}

/// What the populated list holds: it is strictly ascending and contains
/// exactly the bucket ids whose count is not zero.
pub proof fn lemma_populated_characterized(h: Histo)
    requires
        h.wf(),
    ensures
        sorted_strict(h.populated()),
        forall|id: u16| #[trigger] h.populated().contains(id) <==> h.model().counts[id] > 0,
{
}

} // verus!
