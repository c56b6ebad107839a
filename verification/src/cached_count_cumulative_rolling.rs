//! Per-block counts stored compactly as `u16`, with their running totals read
//! back on demand.

use vstd::prelude::*;

verus! {

/// Sum of the first `n` counts.
pub open spec fn count_total(source: Seq<u16>, n: int) -> int
    decreases n,
{
    if n <= 0 {
        0
    } else {
        count_total(source, n - 1) + source[n - 1]
    }
}

/// Per-block counts (each below 2^16) whose cumulative is derived, not stored.
pub struct CachedCountPerBlockCumulativeRolling {
    source: Vec<u16>,
}

impl View for CachedCountPerBlockCumulativeRolling {
    type V = Seq<u16>;

    closed spec fn view(&self) -> Seq<u16> {
        self.source@
    }
}

impl CachedCountPerBlockCumulativeRolling {
    /// Opens the series over counts already stored.
    pub fn new(source: Vec<u16>) -> (series: Self)
        ensures
            series@ == source@,
    {
        CachedCountPerBlockCumulativeRolling { source }
    }

    /// Number of blocks stored.
    pub fn min_stateful_len(&self) -> (len: usize)
        ensures
            len == self@.len(),
    {
        self.source.len()
    }

    /// Appends the count of one block.
    pub fn push_block(&mut self, value: u64)
        requires
            value <= u16::MAX,
        ensures
            final(self)@ == old(self)@.push(value as u16),
    {
        self.source.push(value as u16);
    }

    /// Drops every block from `len` on.
    pub fn truncate_if_needed_at(&mut self, len: usize)
        ensures
            final(self)@ == if len < old(self)@.len() {
                old(self)@.subrange(0, len as int)
            } else {
                old(self)@
            },
    {
        if len < self.source.len() {
            self.source.truncate(len);
        }
    }

    /// The count of block `index`.
    pub fn block_at(&self, index: usize) -> (value: Option<u64>)
        ensures
            index < self@.len() ==> value == Some(self@[index as int] as u64),
            index >= self@.len() ==> value is None,
    {
        if index < self.source.len() {
            Some(self.source[index] as u64)
        } else {
            None
        }
    }

    /// The running totals at blocks `from .. to`, cut to the series' length.
    pub fn cumulative_range(&self, from: usize, to: usize) -> (totals: Vec<u64>)
        requires
            count_total(self@, if to < self@.len() {
                to as int
            } else {
                self@.len() as int
            }) <= u64::MAX,
        ensures
            totals@.len() == (if from < to && from < self@.len() {
                (if to < self@.len() {
                    to
                } else {
                    self@.len() as usize
                }) - from
            } else {
                0
            }),
            forall|k: int|
                0 <= k < totals@.len() ==> #[trigger] totals@[k] == count_total(
                    self@,
                    from + k + 1,
                ),
            totals@.len() > 0 ==> totals@[0] == count_total(self@, from as int) + self@[from as int],
            forall|k: int|
                0 < k < totals@.len() ==> #[trigger] totals@[k] == totals@[k - 1] + self@[from + k],
    {
        let end = if to < self.source.len() {
            to
        } else {
            self.source.len()
        };
        let mut totals: Vec<u64> = Vec::new();
        let mut running: u64 = 0;
        let mut i: usize = 0;
        while i < end
            invariant
                end <= self@.len(),
                count_total(self@, end as int) <= u64::MAX,
                i <= end,
                running == count_total(self@, i as int),
                totals@.len() == if from < i {
                    i - from
                } else {
                    0
                },
                forall|k: int|
                    0 <= k < totals@.len() ==> #[trigger] totals@[k] == count_total(
                        self@,
                        from + k + 1,
                    ),
            decreases end - i,
        {
            proof {
                lemma_count_total_monotone(self@, i + 1, end as int);
                lemma_count_total_step(self@, i as int);
            }
            running = running + self.source[i] as u64;
            if i >= from {
                totals.push(running);
            }
            i = i + 1;
        }
        proof {
            assert forall|k: int| 0 < k < totals@.len() implies #[trigger] totals@[k] == totals@[k
                - 1] + self@[from + k] by {
                lemma_count_total_step(self@, from + k);
            }
            if totals@.len() > 0 {
                lemma_count_total_step(self@, from as int);
            }
        }
        totals
    }
}

/// The running total starts at zero and each block adds its whole stored
/// count, up to `u16::MAX`.
pub proof fn lemma_count_total_step(source: Seq<u16>, n: int)
    requires
        0 <= n < source.len(),
    ensures
        count_total(source, 0) == 0,
        count_total(source, n + 1) == count_total(source, n) + source[n],
{
}

/// Appending a block's count to the series adds exactly that count to the
/// total, and leaves the totals of earlier blocks as they were.
pub proof fn lemma_count_total_push(source: Seq<u16>, value: u16, n: int)
    requires
        0 <= n <= source.len(),
    ensures
        count_total(source.push(value), n) == count_total(source, n),
        count_total(source.push(value), source.len() + 1int) == count_total(
            source,
            source.len() as int,
        ) + value,
{
    lemma_count_total_push_prefix(source, value, n);
    lemma_count_total_push_prefix(source, value, source.len() as int);
}

proof fn lemma_count_total_push_prefix(source: Seq<u16>, value: u16, n: int)
    requires
        0 <= n <= source.len(),
    ensures
        count_total(source.push(value), n) == count_total(source, n),
    decreases n,
{
    if n > 0 {
        lemma_count_total_push_prefix(source, value, n - 1);
    }
}

/// Running totals of counts never decrease.
pub proof fn lemma_count_total_monotone(source: Seq<u16>, i: int, j: int)
    requires
        0 <= i <= j <= source.len(),
    ensures
        count_total(source, i) <= count_total(source, j),
    decreases j,
{
    if j > i {
        lemma_count_total_monotone(source, i, j - 1);
    }
}

} // verus!
