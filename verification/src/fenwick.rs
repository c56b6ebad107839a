//! A Fenwick tree (binary indexed tree) of bucket counts: O(log n) point
//! updates, prefix counts and rank search, and an O(n) bulk merge.

use vstd::prelude::*;
use crate::lowbit::{
    MAX_INDEX, is_pow2, lsb, lemma_lsb_factor, lemma_lsb_gap, lemma_lsb_next, lemma_lsb_prev,
    lemma_lsb_of_odd_multiple, lemma_pow2_positive, lsb_from,
};

verus! {

/// Sum of `s[a..b)`.
pub open spec fn range_sum(s: Seq<nat>, a: int, b: int) -> nat
    decreases b - a,
{
    if b <= a {
        0
    } else {
        range_sum(s, a, b - 1) + s[b - 1]
    }
}

/// The counts of a `u32` sequence as natural numbers.
pub open spec fn as_nats(s: Seq<u32>) -> Seq<nat> {
    Seq::new(s.len(), |i: int| s[i] as nat)
}

/// Element-wise sum of two sequences of the same length.
pub open spec fn seq_add(a: Seq<nat>, b: Seq<nat>) -> Seq<nat> {
    Seq::new(a.len(), |i: int| a[i] + b[i])
}

/// `n` zero counts.
pub open spec fn zeros(n: nat) -> Seq<nat> {
    Seq::new(n, |i: int| 0nat)
}

/// `b` is the bucket that holds the item of 0-based rank `k` when items are
/// sorted by bucket: fewer than `k + 1` items lie below it, and at least
/// `k + 1` items lie in it or below.
pub open spec fn is_rank_bucket(counts: Seq<nat>, k: int, b: int) -> bool {
    &&& 0 <= b < counts.len()
    &&& range_sum(counts, 0, b) <= k
    &&& k < range_sum(counts, 0, b + 1)
}

/// An empty range sums to zero and a range of one entry to that entry.
pub proof fn lemma_range_sum_single(s: Seq<nat>, a: int)
    requires
        0 <= a < s.len(),
    ensures
        range_sum(s, a, a) == 0,
        range_sum(s, a, a + 1) == s[a],
{
    assert(range_sum(s, a, a) == 0);
}

pub proof fn lemma_range_sum_split(s: Seq<nat>, a: int, b: int, c: int)
    requires
        a <= b <= c,
    ensures
        range_sum(s, a, c) == range_sum(s, a, b) + range_sum(s, b, c),
    decreases c - b,
{
    if c > b {
        lemma_range_sum_split(s, a, b, c - 1);
    }
}

pub proof fn lemma_range_sum_within(s: Seq<nat>, a: int, c: int, d: int, b: int)
    requires
        a <= c <= d <= b,
    ensures
        range_sum(s, c, d) <= range_sum(s, a, b),
{
    lemma_range_sum_split(s, a, c, b);
    lemma_range_sum_split(s, c, d, b);
}

pub proof fn lemma_range_sum_update(s: Seq<nat>, p: int, v: nat, a: int, b: int)
    requires
        0 <= p < s.len(),
        0 <= a,
        b <= s.len(),
    ensures
        range_sum(s.update(p, v), a, b) as int == range_sum(s, a, b) as int + (if a <= p < b {
            v - s[p]
        } else {
            0
        }),
    decreases b - a,
{
    if b > a {
        lemma_range_sum_update(s, p, v, a, b - 1);
    }
}

pub proof fn lemma_range_sum_add(x: Seq<nat>, y: Seq<nat>, a: int, b: int)
    requires
        x.len() == y.len(),
        0 <= a,
        b <= x.len(),
    ensures
        range_sum(seq_add(x, y), a, b) == range_sum(x, a, b) + range_sum(y, a, b),
    decreases b - a,
{
    if b > a {
        lemma_range_sum_add(x, y, a, b - 1);
    }
}

pub proof fn lemma_range_sum_zeros(n: nat, a: int, b: int)
    requires
        0 <= a,
        b <= n,
    ensures
        range_sum(zeros(n), a, b) == 0,
    decreases b - a,
{
    if b > a {
        lemma_range_sum_zeros(n, a, b - 1);
    }
}

/// Prefix counts never decrease.
pub proof fn lemma_prefix_monotone(s: Seq<nat>, a: int, b: int)
    requires
        0 <= a <= b,
    ensures
        range_sum(s, 0, a) <= range_sum(s, 0, b),
{
    lemma_range_sum_split(s, 0, a, b);
}

/// A rank has at most one bucket.
pub proof fn lemma_rank_bucket_unique(counts: Seq<nat>, k: int, b1: int, b2: int)
    requires
        is_rank_bucket(counts, k, b1),
        is_rank_bucket(counts, k, b2),
    ensures
        b1 == b2,
{
    if b1 < b2 {
        lemma_prefix_monotone(counts, b1 + 1, b2);
    } else if b2 < b1 {
        lemma_prefix_monotone(counts, b2 + 1, b1);
    }
}

/// A higher rank never lies in a lower bucket: percentiles read at sorted
/// ranks come out sorted.
pub proof fn lemma_rank_bucket_monotone(counts: Seq<nat>, k1: int, k2: int, b1: int, b2: int)
    requires
        k1 <= k2,
        is_rank_bucket(counts, k1, b1),
        is_rank_bucket(counts, k2, b2),
    ensures
        b1 <= b2,
{
    if b1 > b2 {
        lemma_prefix_monotone(counts, b2 + 1, b1);
    }
}

/// Counts per bucket, stored as Fenwick partial sums: entry `j` (1-based)
/// holds the counts of buckets `j - lsb(j) .. j`.
#[derive(Clone)]
pub struct FenwickTree {
    tree: Vec<u32>,
    counts: Ghost<Seq<nat>>,
}

impl View for FenwickTree {
    type V = Seq<nat>;

    closed spec fn view(&self) -> Seq<nat> {
        self.counts@
    }
}

impl FenwickTree {
    /// The tree's entries agree with its counts, and every partial sum fits a `u32`.
    pub closed spec fn well_formed(&self) -> bool {
        &&& self.tree@.len() == self.counts@.len() + 1
        &&& self.counts@.len() <= MAX_INDEX
        &&& range_sum(self.counts@, 0, self.counts@.len() as int) <= u32::MAX
        &&& forall|j: int|
            1 <= j <= self.counts@.len() ==> #[trigger] self.tree@[j] as nat == range_sum(
                self.counts@,
                j - lsb(j),
                j,
            )
    }

    /// Number of items in all buckets.
    pub open spec fn spec_total(&self) -> nat {
        range_sum(self@, 0, self@.len() as int)
    }

    fn zeroed(n: usize) -> (tree: Vec<u32>)
        requires
            n <= MAX_INDEX,
        ensures
            tree@.len() == n + 1,
            forall|j: int| 0 <= j <= n ==> #[trigger] tree@[j] == 0,
    {
        let mut tree: Vec<u32> = Vec::new();
        let mut i: usize = 0;
        while i <= n
            invariant
                i <= n + 1,
                n < usize::MAX,
                tree@.len() == i,
                forall|j: int| 0 <= j < i ==> #[trigger] tree@[j] == 0,
            decreases n + 1 - i,
        {
            tree.push(0);
            i = i + 1;
        }
        tree
    }

    proof fn lemma_zero_well_formed(tree: Seq<u32>, n: nat)
        requires
            n <= MAX_INDEX,
            tree.len() == n + 1,
            forall|j: int| 0 <= j <= n ==> #[trigger] tree[j] == 0,
        ensures
            forall|j: int|
                1 <= j <= n ==> #[trigger] tree[j] as nat == range_sum(zeros(n), j - lsb(j), j),
            range_sum(zeros(n), 0, n as int) == 0,
    {
        assert forall|j: int| 1 <= j <= n implies #[trigger] tree[j] as nat == range_sum(
            zeros(n),
            j - lsb(j),
            j,
        ) by {
            lemma_lsb_factor(j);
            lemma_range_sum_zeros(n, j - lsb(j), j);
        }
        lemma_range_sum_zeros(n, 0, n as int);
    }

    /// An empty tree over `size` buckets.
    pub fn new(size: usize) -> (tree: Self)
        requires
            size <= MAX_INDEX,
        ensures
            tree.well_formed(),
            tree@ == zeros(size as nat),
            tree.spec_total() == 0,
    {
        let tree = Self::zeroed(size);
        proof {
            Self::lemma_zero_well_formed(tree@, size as nat);
        }
        FenwickTree { tree, counts: Ghost(zeros(size as nat)) }
    }

    /// Number of buckets.
    pub fn size(&self) -> (n: usize)
        requires
            self.well_formed(),
        ensures
            n == self@.len(),
    {
        self.tree.len() - 1
    }

    /// Empties every bucket.
    pub fn reset(&mut self)
        requires
            old(self).well_formed(),
        ensures
            final(self).well_formed(),
            final(self)@ == zeros(old(self)@.len()),
            final(self).spec_total() == 0,
    {
        let n = self.tree.len() - 1;
        let tree = Self::zeroed(n);
        proof {
            Self::lemma_zero_well_formed(tree@, n as nat);
        }
        self.tree = tree;
        self.counts = Ghost(zeros(n as nat));
    }

    /// Adds `delta` items to bucket `index`.
    pub fn add(&mut self, index: usize, delta: u32)
        requires
            old(self).well_formed(),
            index < old(self)@.len(),
            old(self).spec_total() + delta <= u32::MAX,
        ensures
            final(self).well_formed(),
            final(self)@ == old(self)@.update(index as int, (old(self)@[index as int] + delta) as nat),
            final(self).spec_total() == old(self).spec_total() + delta,
    {
        let n = self.tree.len() - 1;
        let ghost c = self.counts@;
        let ghost c2 = c.update(index as int, (c[index as int] + delta) as nat);
        let p = index + 1;
        let mut i = p;
        proof {
            lemma_lsb_factor(p as int);
        }
        let mut l = lsb_from(p, 1);
        while i <= n
            invariant
                n == self.tree@.len() - 1,
                n == c.len(),
                n <= MAX_INDEX,
                self.counts@ == c,
                range_sum(c, 0, n as int) + delta <= u32::MAX,
                1 <= p <= i <= 2 * n,
                p == index + 1,
                index < n,
                i <= n ==> l == lsb(i as int),
                i <= n ==> i - l < p,
                forall|j: int|
                    1 <= j <= n ==> #[trigger] self.tree@[j] as int == range_sum(c, j - lsb(j), j)
                        + (if j < i && j - lsb(j) < p <= j {
                        delta as int
                    } else {
                        0
                    }),
            decreases 2 * n + 1 - i,
        {
            proof {
                lemma_lsb_factor(i as int);
                lemma_range_sum_within(c, 0, i - l, i as int, n as int);
                lemma_lsb_next(i as int);
            }
            let v = self.tree[i];
            self.tree.set(i, v + delta);
            let ghost i_old = i as int;
            proof {
                assert forall|j: int| 1 <= j <= n implies #[trigger] self.tree@[j] as int
                    == range_sum(c, j - lsb(j), j) + (if j < i_old + l && j - lsb(j) < p <= j {
                    delta as int
                } else {
                    0
                }) by {
                    if i_old < j < i_old + l {
                        lemma_lsb_gap(i_old, j - i_old);
                        lemma_lsb_factor(j - i_old);
                    }
                }
            }
            i = i + l;
            if i <= n {
                l = lsb_from(i, 2 * l);
            }
        }
        proof {
            assert forall|j: int| 1 <= j <= n implies #[trigger] self.tree@[j] as nat == range_sum(
                c2,
                j - lsb(j),
                j,
            ) by {
                lemma_lsb_factor(j);
                lemma_range_sum_update(c, index as int, (c[index as int] + delta) as nat, j - lsb(j), j);
            }
            lemma_range_sum_update(c, index as int, (c[index as int] + delta) as nat, 0, n as int);
        }
        self.counts = Ghost(c2);
    }

    /// Number of items in buckets `0 .. end`.
    pub fn prefix_count(&self, end: usize) -> (count: u32)
        requires
            self.well_formed(),
            end <= self@.len(),
        ensures
            count == range_sum(self@, 0, end as int),
    {
        let ghost c = self.counts@;
        let ghost n = c.len() as int;
        let mut count: u32 = 0;
        let mut i = end;
        let mut l: usize = 0;
        if i > 0 {
            proof {
                lemma_lsb_factor(i as int);
            }
            l = lsb_from(i, 1);
        }
        while i > 0
            invariant
                self.well_formed(),
                c == self@,
                n == c.len(),
                i <= end <= n,
                i > 0 ==> l == lsb(i as int),
                count + range_sum(c, 0, i as int) == range_sum(c, 0, end as int),
            decreases i,
        {
            proof {
                lemma_lsb_factor(i as int);
                lemma_range_sum_split(c, 0, i - l, i as int);
                lemma_range_sum_within(c, 0, 0, end as int, n);
                assert(self.tree@[i as int] as nat == range_sum(c, i - l, i as int));
            }
            count = count + self.tree[i];
            if i > l {
                proof {
                    lemma_lsb_prev(i as int);
                }
                let next = i - l;
                l = lsb_from(next, 2 * l);
                i = next;
            } else {
                i = 0;
            }
        }
        count
    }

    /// Number of items in all buckets.
    pub fn total(&self) -> (count: u32)
        requires
            self.well_formed(),
        ensures
            count == self.spec_total(),
    {
        self.prefix_count(self.tree.len() - 1)
    }

    /// The bucket holding the item of 0-based rank `k` (items sorted by bucket).
    pub fn kth(&self, k: u32) -> (bucket: usize)
        requires
            self.well_formed(),
            k < self.spec_total(),
        ensures
            is_rank_bucket(self@, k as int, bucket as int),
    {
        let ghost c = self.counts@;
        let n = self.tree.len() - 1;
        let mut span: usize = 1;
        while span < n
            invariant
                1 <= n <= MAX_INDEX,
                is_pow2(span as int),
                1 <= span < 2 * n,
            decreases 2 * n - span,
        {
            proof {
                assert(((2 * span) as int) % 2 == 0);
                assert(((2 * span) as int) / 2 == span);
            }
            span = 2 * span;
        }
        let mut pos: usize = 0;
        let mut rem: u32 = k;
        let ghost mut q: int = 0;
        while span > 1
            invariant
                self.well_formed(),
                c == self@,
                n == c.len(),
                1 <= n <= MAX_INDEX,
                is_pow2(span as int),
                1 <= span < 2 * n,
                q >= 0,
                pos == span * q,
                pos <= n,
                range_sum(c, 0, pos as int) <= k,
                rem == k - range_sum(c, 0, pos as int),
                k < range_sum(c, 0, if n < pos + span { n as int } else { pos + span }),
            decreases span,
        {
            let step = span / 2;
            proof {
                lemma_pow2_positive(step as int);
                assert(pos + step == step * (2 * q + 1)) by (nonlinear_arith)
                    requires
                        pos == span * q,
                        span == 2 * step,
                ;
                assert(pos == step * (2 * q)) by (nonlinear_arith)
                    requires
                        pos == span * q,
                        span == 2 * step,
                ;
                lemma_lsb_of_odd_multiple(step as int, 2 * q + 1);
            }
            let cand = pos + step;
            if cand <= n && self.tree[cand] <= rem {
                proof {
                    assert(self.tree@[cand as int] as nat == range_sum(c, pos as int, cand as int));
                    lemma_range_sum_split(c, 0, pos as int, cand as int);
                }
                rem = rem - self.tree[cand];
                pos = cand;
                proof {
                    q = 2 * q + 1;
                }
            } else {
                proof {
                    if cand <= n {
                        assert(self.tree@[cand as int] as nat == range_sum(
                            c,
                            pos as int,
                            cand as int,
                        ));
                        lemma_range_sum_split(c, 0, pos as int, cand as int);
                    }
                    q = 2 * q;
                }
            }
            span = step;
        }
        proof {
            assert(pos < n) by {
                if pos == n {
                    assert(false);
                }
            }
        }
        pos
    }

    /// Adds `raw[b]` items to every bucket `b` at once, in O(n).
    pub fn add_counts(&mut self, raw: &Vec<u32>)
        requires
            old(self).well_formed(),
            raw@.len() == old(self)@.len(),
            old(self).spec_total() + range_sum(as_nats(raw@), 0, raw@.len() as int) <= u32::MAX,
        ensures
            final(self).well_formed(),
            final(self)@ == seq_add(old(self)@, as_nats(raw@)),
            final(self).spec_total() == old(self).spec_total() + range_sum(
                as_nats(raw@),
                0,
                raw@.len() as int,
            ),
    {
        let n = self.tree.len() - 1;
        let ghost c = self.counts@;
        let ghost h = as_nats(raw@);
        let ghost c2 = seq_add(c, h);
        proof {
            lemma_range_sum_add(c, h, 0, n as int);
        }
        let mut prefix: Vec<u32> = Vec::new();
        prefix.push(0);
        let mut k: usize = 0;
        while k < n
            invariant
                n == raw@.len(),
                h == as_nats(raw@),
                k <= n,
                prefix@.len() == k + 1,
                range_sum(h, 0, n as int) <= u32::MAX,
                forall|t: int| 0 <= t <= k ==> #[trigger] prefix@[t] as nat == range_sum(h, 0, t),
            decreases n - k,
        {
            proof {
                lemma_range_sum_within(h, 0, 0, k + 1, n as int);
            }
            let next = prefix[k] + raw[k];
            prefix.push(next);
            k = k + 1;
        }
        let mut j: usize = 1;
        while j <= n
            invariant
                n == self.tree@.len() - 1,
                n == c.len(),
                n == h.len(),
                n <= MAX_INDEX,
                1 <= j <= n + 1,
                self.counts@ == c,
                c2 == seq_add(c, h),
                prefix@.len() == n + 1,
                range_sum(c2, 0, n as int) <= u32::MAX,
                forall|t: int| 0 <= t <= n ==> #[trigger] prefix@[t] as nat == range_sum(h, 0, t),
                forall|t: int|
                    1 <= t <= n ==> #[trigger] self.tree@[t] as nat == (if t < j {
                        range_sum(c2, t - lsb(t), t)
                    } else {
                        range_sum(c, t - lsb(t), t)
                    }),
            decreases n + 1 - j,
        {
            proof {
                lemma_lsb_factor(j as int);
            }
            let l = lsb_from(j, 1);
            proof {
                lemma_range_sum_split(h, 0, j - l, j as int);
                lemma_range_sum_add(c, h, j - l, j as int);
                lemma_range_sum_within(c2, 0, j - l, j as int, n as int);
            }
            let d = prefix[j] - prefix[j - l];
            let v = self.tree[j];
            self.tree.set(j, v + d);
            j = j + 1;
        }
        self.counts = Ghost(c2);
    }
}

} // verus!
