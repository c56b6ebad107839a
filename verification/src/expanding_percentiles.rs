//! Expanding percentile tracker: every value is kept as a count in a fixed
//! bucket (0.001 ratio resolution up to a ratio of 43), and percentiles are
//! read by rank search over the Fenwick tree of bucket counts.

use vstd::prelude::*;
use crate::fenwick::{
    FenwickTree, as_nats, is_rank_bucket, lemma_range_sum_add, lemma_range_sum_update,
    lemma_range_sum_zeros, range_sum, seq_add, zeros,
};

verus! {

/// Number of buckets: ratios `0.000 ..= 43.000` in steps of `0.001`.
pub const TREE_SIZE: usize = 43001;

/// Number of percentiles read in one call.
pub const QUANTILE_COUNT: usize = 8;

/// How many times each bucket occurs in `buckets`, over `n` buckets.
pub open spec fn histogram(buckets: Seq<usize>, n: nat) -> Seq<nat>
    decreases buckets.len(),
{
    if buckets.len() == 0 {
        zeros(n)
    } else {
        let rest = histogram(buckets.drop_last(), n);
        let b = buckets.last() as int;
        if b < n {
            rest.update(b, rest[b] + 1)
        } else {
            rest
        }
    }
}

/// The bucket counts after adding the values of `buckets` one at a time.
pub open spec fn add_each(counts: Seq<nat>, buckets: Seq<usize>) -> Seq<nat>
    decreases buckets.len(),
{
    if buckets.len() == 0 {
        counts
    } else {
        let rest = add_each(counts, buckets.drop_last());
        let b = buckets.last() as int;
        if 0 <= b < counts.len() {
            rest.update(b, rest[b] + 1)
        } else {
            rest
        }
    }
}

/// The rank (1-based) clamped into `1 ..= count`.
pub open spec fn clamp_rank(rank: int, count: int) -> int {
    if rank < 1 {
        1
    } else if rank > count {
        count
    } else {
        rank
    }
}

/// Percentile tracker over an ever-growing set of values.
#[derive(Clone)]
pub struct ExpandingPercentiles {
    tree: FenwickTree,
    count: u32,
    added: Ghost<Seq<usize>>,
}

impl View for ExpandingPercentiles {
    type V = Seq<nat>;

    closed spec fn view(&self) -> Seq<nat> {
        self.tree@
    }
}

impl ExpandingPercentiles {
    /// The count agrees with the buckets, of which there are `TREE_SIZE`,
    /// and both are those of the values added since the tracker was made or
    /// last reset.
    pub closed spec fn well_formed(&self) -> bool {
        &&& self.tree.well_formed()
        &&& self.tree@.len() == TREE_SIZE
        &&& self.count == self.tree.spec_total()
        &&& self.count == self.added@.len()
        &&& self.tree@ == histogram(self.added@, TREE_SIZE as nat)
        &&& forall|i: int| 0 <= i < self.added@.len() ==> #[trigger] self.added@[i] < TREE_SIZE
    }

    /// The buckets of the values added since the tracker was made or last
    /// reset, in the order they were added.
    pub closed spec fn spec_added(&self) -> Seq<usize> {
        self.added@
    }

    /// Number of values tracked.
    pub closed spec fn spec_count(&self) -> nat {
        self.count as nat
    }

    /// The tracked count is the number of values in all buckets.
    pub proof fn lemma_count_is_total(&self)
        requires
            self.well_formed(),
        ensures
            self.spec_count() == range_sum(self@, 0, TREE_SIZE as int),
            self@.len() == TREE_SIZE,
    {
    }

    /// An empty tracker.
    pub fn new() -> (tracker: Self)
        ensures
            tracker.well_formed(),
            tracker@ == zeros(TREE_SIZE as nat),
            tracker.spec_count() == 0,
            tracker.spec_added() == Seq::<usize>::empty(),
    {
        let tree = FenwickTree::new(TREE_SIZE);
        proof {
            crate::fenwick::lemma_range_sum_zeros(TREE_SIZE as nat, 0, TREE_SIZE as int);
        }
        ExpandingPercentiles { tree, count: 0, added: Ghost(Seq::empty()) }
    }

    /// Number of values tracked: over any sequence of adds and bulk adds
    /// since the tracker was made or last reset, the number of values they
    /// added.
    pub fn count(&self) -> (count: u32)
        ensures
            count == self.spec_count(),
            self.well_formed() ==> count == self.spec_added().len(),
    {
        self.count
    }

    /// Forgets every value.
    pub fn reset(&mut self)
        requires
            old(self).well_formed(),
        ensures
            final(self).well_formed(),
            final(self)@ == zeros(TREE_SIZE as nat),
            final(self).spec_count() == 0,
            final(self).spec_added() == Seq::<usize>::empty(),
    {
        self.tree.reset();
        proof {
            crate::fenwick::lemma_range_sum_zeros(TREE_SIZE as nat, 0, TREE_SIZE as int);
        }
        self.count = 0;
        self.added = Ghost(Seq::empty());
    }

    /// Adds one value, already placed in its bucket.
    pub fn add(&mut self, bucket: usize)
        requires
            old(self).well_formed(),
            bucket < TREE_SIZE,
            old(self).spec_count() < u32::MAX,
        ensures
            final(self).well_formed(),
            final(self)@ == old(self)@.update(bucket as int, old(self)@[bucket as int] + 1),
            final(self).spec_count() == old(self).spec_count() + 1,
            final(self).spec_added() == old(self).spec_added().push(bucket),
    {
        self.tree.add(bucket, 1);
        proof {
            lemma_range_sum_update(
                old(self)@,
                bucket as int,
                (old(self)@[bucket as int] + 1) as nat,
                0,
                TREE_SIZE as int,
            );
        }
        self.count = self.count + 1;
        let ghost added = self.added@.push(bucket);
        proof {
            assert(added.drop_last() =~= self.added@);
        }
        self.added = Ghost(added);
    }

    /// Adds many values, already placed in their buckets, in O(values + buckets).
    pub fn add_bulk(&mut self, buckets: &[usize])
        requires
            old(self).well_formed(),
            forall|i: int| 0 <= i < buckets@.len() ==> #[trigger] buckets@[i] < TREE_SIZE,
            old(self).spec_count() + buckets@.len() <= u32::MAX,
        ensures
            final(self).well_formed(),
            final(self)@ == seq_add(old(self)@, histogram(buckets@, TREE_SIZE as nat)),
            final(self).spec_count() == old(self).spec_count() + buckets@.len(),
            final(self).spec_added() == old(self).spec_added() + buckets@,
    {
        let mut raw: Vec<u32> = Vec::new();
        let mut b: usize = 0;
        while b < TREE_SIZE
            invariant
                b <= TREE_SIZE,
                raw@.len() == b,
                forall|t: int| 0 <= t < b ==> #[trigger] raw@[t] == 0,
            decreases TREE_SIZE - b,
        {
            raw.push(0);
            b = b + 1;
        }
        proof {
            assert(as_nats(raw@) =~= zeros(TREE_SIZE as nat));
            crate::fenwick::lemma_range_sum_zeros(TREE_SIZE as nat, 0, TREE_SIZE as int);
        }
        let mut i: usize = 0;
        while i < buckets.len()
            invariant
                i <= buckets@.len(),
                raw@.len() == TREE_SIZE,
                forall|t: int| 0 <= t < buckets@.len() ==> #[trigger] buckets@[t] < TREE_SIZE,
                buckets@.len() <= u32::MAX,
                as_nats(raw@) == histogram(buckets@.subrange(0, i as int), TREE_SIZE as nat),
                range_sum(as_nats(raw@), 0, TREE_SIZE as int) == i,
            decreases buckets@.len() - i,
        {
            let bucket = buckets[i];
            let ghost before = as_nats(raw@);
            proof {
                crate::fenwick::lemma_range_sum_within(
                    before,
                    0,
                    bucket as int,
                    bucket + 1,
                    TREE_SIZE as int,
                );
                assert(range_sum(before, bucket as int, bucket as int) == 0);
                assert(range_sum(before, bucket as int, bucket + 1) == before[bucket as int]);
            }
            let v = raw[bucket];
            raw.set(bucket, v + 1);
            proof {
                let prefix = buckets@.subrange(0, i + 1);
                assert(prefix.drop_last() =~= buckets@.subrange(0, i as int));
                assert(prefix.last() == bucket);
                assert(as_nats(raw@) =~= before.update(bucket as int, before[bucket as int] + 1));
                lemma_range_sum_update(
                    before,
                    bucket as int,
                    (before[bucket as int] + 1) as nat,
                    0,
                    TREE_SIZE as int,
                );
            }
            i = i + 1;
        }
        proof {
            assert(buckets@.subrange(0, buckets@.len() as int) =~= buckets@);
        }
        self.tree.add_counts(&raw);
        proof {
            lemma_range_sum_add(old(self)@, as_nats(raw@), 0, TREE_SIZE as int);
        }
        self.count = self.count + buckets.len() as u32;
        let ghost added = self.added@ + buckets@;
        proof {
            lemma_bulk_matches_incremental(old(self)@, buckets@);
            lemma_histogram_concat(old(self).added@, buckets@, TREE_SIZE as nat);
            assert forall|i: int| 0 <= i < added.len() implies #[trigger] added[i] < TREE_SIZE by {
                if i >= old(self).added@.len() {
                    assert(added[i] == buckets@[i - old(self).added@.len()]);
                }
            }
        }
        self.added = Ghost(added);
    }

    /// For each 1-based rank, the bucket holding the value of that rank once
    /// the rank is clamped into `1 ..= count`; bucket 0 for every rank when
    /// nothing is tracked.
    pub fn quantile_buckets(&self, ranks: &[u32; 8]) -> (buckets: [usize; 8])
        requires
            self.well_formed(),
        ensures
            forall|i: int|
                0 <= i < QUANTILE_COUNT ==> if self.spec_count() == 0 {
                    #[trigger] buckets@[i] == 0
                } else {
                    is_rank_bucket(
                        self@,
                        clamp_rank(ranks@[i] as int, self.spec_count() as int) - 1,
                        buckets@[i] as int,
                    )
                },
    {
        let mut buckets = [0usize; 8];
        if self.count == 0 {
            return buckets;
        }
        let mut i: usize = 0;
        while i < QUANTILE_COUNT
            invariant
                self.well_formed(),
                self.spec_count() > 0,
                i <= QUANTILE_COUNT,
                forall|t: int|
                    0 <= t < i ==> is_rank_bucket(
                        self@,
                        clamp_rank(ranks@[t] as int, self.spec_count() as int) - 1,
                        #[trigger] buckets@[t] as int,
                    ),
            decreases QUANTILE_COUNT - i,
        {
            let rank = ranks[i];
            let clamped = if rank < 1 {
                1
            } else if rank > self.count {
                self.count
            } else {
                rank
            };
            let bucket = self.tree.kth(clamped - 1);
            buckets[i] = bucket;
            i = i + 1;
        }
        buckets
    }
}

impl Default for ExpandingPercentiles {
    fn default() -> (tracker: Self)
        ensures
            tracker.well_formed(),
            tracker@ == zeros(TREE_SIZE as nat),
            tracker.spec_count() == 0,
    {
        Self::new()
    }
}

/// Adding a batch at once leaves the same counts as adding its values one at a time.
pub proof fn lemma_bulk_matches_incremental(counts: Seq<nat>, buckets: Seq<usize>)
    requires
        counts.len() == TREE_SIZE,
        forall|i: int| 0 <= i < buckets.len() ==> #[trigger] buckets[i] < TREE_SIZE,
    ensures
        seq_add(counts, histogram(buckets, TREE_SIZE as nat)) == add_each(counts, buckets),
    decreases buckets.len(),
{
    if buckets.len() == 0 {
        assert(seq_add(counts, zeros(TREE_SIZE as nat)) =~= counts);
    } else {
        let rest = buckets.drop_last();
        assert forall|i: int| 0 <= i < rest.len() implies #[trigger] rest[i] < TREE_SIZE by {
            assert(rest[i] == buckets[i]);
        }
        lemma_bulk_matches_incremental(counts, rest);
        lemma_histogram_len(rest, TREE_SIZE as nat);
        let b = buckets.last() as int;
        assert(buckets[buckets.len() - 1] < TREE_SIZE);
        let h = histogram(rest, TREE_SIZE as nat);
        assert(seq_add(counts, h.update(b, h[b] + 1)) =~= seq_add(counts, h).update(
            b,
            seq_add(counts, h)[b] + 1,
        ));
    }
}

/// Counting two runs of values one after the other is counting the first run,
/// then adding the values of the second one at a time.
pub proof fn lemma_histogram_concat(first: Seq<usize>, second: Seq<usize>, n: nat)
    ensures
        histogram(first + second, n) == add_each(histogram(first, n), second),
    decreases second.len(),
{
    lemma_histogram_len(first, n);
    if second.len() == 0 {
        assert(first + second =~= first);
    } else {
        let rest = second.drop_last();
        lemma_histogram_concat(first, rest, n);
        assert((first + second).drop_last() =~= first + rest);
        assert((first + second).last() == second.last());
    }
}

/// A clamped rank lies in `1 ..= count` and is the rank itself when that
/// already lies there.
pub proof fn lemma_clamp_rank(rank: int, count: int)
    requires
        count >= 1,
    ensures
        1 <= clamp_rank(rank, count) <= count,
        1 <= rank <= count ==> clamp_rank(rank, count) == rank,
        rank < 1 ==> clamp_rank(rank, count) == 1,
        rank > count ==> clamp_rank(rank, count) == count,
{
}

/// Each value in range lands in exactly one bucket: the buckets together
/// hold as many values as were counted.
pub proof fn lemma_histogram_total(buckets: Seq<usize>, n: nat)
    requires
        forall|i: int| 0 <= i < buckets.len() ==> #[trigger] buckets[i] < n,
    ensures
        range_sum(histogram(buckets, n), 0, n as int) == buckets.len(),
    decreases buckets.len(),
{
    if buckets.len() == 0 {
        lemma_range_sum_zeros(n, 0, n as int);
    } else {
        let rest = buckets.drop_last();
        assert forall|i: int| 0 <= i < rest.len() implies #[trigger] rest[i] < n by {
            assert(rest[i] == buckets[i]);
        }
        lemma_histogram_total(rest, n);
        lemma_histogram_len(rest, n);
        let h = histogram(rest, n);
        let b = buckets.last() as int;
        assert(buckets[buckets.len() - 1] < n);
        lemma_range_sum_update(h, b, h[b] + 1, 0, n as int);
    }
}

/// A histogram over `n` buckets has `n` entries.
pub proof fn lemma_histogram_len(buckets: Seq<usize>, n: nat)
    ensures
        histogram(buckets, n).len() == n,
    decreases buckets.len(),
{
    if buckets.len() > 0 {
        lemma_histogram_len(buckets.drop_last(), n);
    }
}

} // verus!
