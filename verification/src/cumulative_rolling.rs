//! A per-block series kept as its running total: the cumulative vector is the
//! only stored data, and per-block values are read back as its deltas.

use vstd::prelude::*;
use crate::previous_delta::{collect_one_at, delta_at, deltas, read_into_at};

verus! {

/// Sum of the first `n` values.
pub open spec fn running_total(values: Seq<u64>, n: int) -> int
    decreases n,
{
    if n <= 0 {
        0
    } else {
        running_total(values, n - 1) + values[n - 1]
    }
}

/// `cumulative` holds the running totals of `values`, entry `i` covering `values[..=i]`.
pub open spec fn is_running_totals(cumulative: Seq<u64>, values: Seq<u64>) -> bool {
    &&& cumulative.len() == values.len()
    &&& forall|i: int| 0 <= i < values.len() ==> #[trigger] cumulative[i] == running_total(values, i + 1)
}

/// The last running total, or zero for an empty series.
pub open spec fn last_or_zero(cumulative: Seq<u64>) -> u64 {
    if cumulative.len() == 0 {
        0
    } else {
        cumulative.last()
    }
}

/// Per-block values stored as their cumulative sum, with the last total
/// remembered so that appending needs no read of the stored series.
pub struct PerBlockCumulativeRolling {
    cumulative: Vec<u64>,
    last_cumulative: Option<(usize, u64)>,
}

impl View for PerBlockCumulativeRolling {
    type V = Seq<u64>;

    closed spec fn view(&self) -> Seq<u64> {
        self.cumulative@
    }
}

impl PerBlockCumulativeRolling {
    /// A remembered total is either for a longer series (left behind by a
    /// truncation, and then ignored) or is the current last total.
    pub closed spec fn well_formed(&self) -> bool {
        match self.last_cumulative {
            Some((len, value)) => len > self.cumulative@.len() || (len == self.cumulative@.len()
                && len > 0 && value == self.cumulative@.last()),
            None => true,
        }
    }

    /// Opens a series over running totals already stored.
    pub fn new(cumulative: Vec<u64>) -> (series: Self)
        ensures
            series.well_formed(),
            series@ == cumulative@,
    {
        let len = cumulative.len();
        let last_cumulative = if len == 0 {
            None
        } else {
            Some((len, cumulative[len - 1]))
        };
        PerBlockCumulativeRolling { cumulative, last_cumulative }
    }

    /// Number of blocks stored.
    pub fn len(&self) -> (len: usize)
        ensures
            len == self@.len(),
    {
        self.cumulative.len()
    }

    /// The stored running totals.
    pub fn cumulative(&self) -> (cumulative: &Vec<u64>)
        ensures
            cumulative@ == self@,
    {
        &self.cumulative
    }

    /// Appends the block `value`: the new running total is the last one plus `value`.
    pub fn push_block(&mut self, value: u64)
        requires
            old(self).well_formed(),
            last_or_zero(old(self)@) + value <= u64::MAX,
        ensures
            final(self).well_formed(),
            final(self)@ == old(self)@.push((last_or_zero(old(self)@) + value) as u64),
    {
        let len = self.cumulative.len();
        let mut cumulative: u64 = match self.last_cumulative {
            Some((cached_len, cached)) if cached_len == len => cached,
            _ => if len == 0 {
                0
            } else {
                self.cumulative[len - 1]
            },
        };
        cumulative = cumulative + value;
        self.cumulative.push(cumulative);
        self.last_cumulative = Some((self.cumulative.len(), cumulative));
    }

    /// Drops every block from `len` on.
    pub fn truncate_if_needed_at(&mut self, len: usize)
        requires
            old(self).well_formed(),
        ensures
            final(self).well_formed(),
            final(self)@ == if len < old(self)@.len() {
                old(self)@.subrange(0, len as int)
            } else {
                old(self)@
            },
    {
        if len < self.cumulative.len() {
            self.cumulative.truncate(len);
        }
    }

    /// Recomputes the running totals of `source` from block `max_from` on
    /// (or from the end of what is stored, if that is earlier).
    pub fn compute_cumulative(&mut self, max_from: usize, source: &[u64])
        requires
            old(self).well_formed(),
            ({
                let keep = if max_from < old(self)@.len() {
                    max_from as int
                } else {
                    old(self)@.len() as int
                };
                last_or_zero(old(self)@.subrange(0, keep)) + running_total(source@, source@.len() as int)
                    - running_total(source@, keep) <= u64::MAX
            }),
        ensures
            final(self).well_formed(),
            ({
                let keep = if max_from < old(self)@.len() {
                    max_from as int
                } else {
                    old(self)@.len() as int
                };
                &&& final(self)@.len() == if keep < source@.len() {
                    source@.len() as int
                } else {
                    keep
                }
                &&& final(self)@.subrange(0, keep) == old(self)@.subrange(0, keep)
                &&& forall|h: int|
                    keep <= h < source@.len() ==> #[trigger] final(self)@[h] == last_or_zero(
                        old(self)@.subrange(0, keep),
                    ) + running_total(source@, h + 1) - running_total(source@, keep)
                &&& keep <= source@.len() && is_running_totals(
                    old(self)@.subrange(0, keep),
                    source@.subrange(0, keep),
                ) ==> is_running_totals(final(self)@, source@)
            }),
    {
        self.truncate_if_needed_at(max_from);
        let keep = self.cumulative.len();
        let ghost base = last_or_zero(self@);
        let ghost kept = self@;
        let mut h = keep;
        while h < source.len()
            invariant
                self.well_formed(),
                keep <= h,
                keep <= source@.len() ==> h <= source@.len(),
                keep > source@.len() ==> h == keep,
                h == self@.len(),
                self@.subrange(0, keep as int) == kept,
                kept.len() == keep,
                base == last_or_zero(kept),
                base + running_total(source@, source@.len() as int) - running_total(
                    source@,
                    keep as int,
                ) <= u64::MAX,
                last_or_zero(self@) == base + running_total(source@, h as int) - running_total(
                    source@,
                    keep as int,
                ),
                forall|t: int|
                    keep <= t < h ==> #[trigger] self@[t] == base + running_total(source@, t + 1)
                        - running_total(source@, keep as int),
            decreases source@.len() - h,
        {
            proof {
                lemma_running_total_monotone(source@, h + 1, source@.len() as int);
            }
            let ghost before = self@;
            self.push_block(source[h]);
            proof {
                assert(self@.subrange(0, keep as int) =~= before.subrange(0, keep as int));
            }
            h = h + 1;
        }
        proof {
            if keep > source@.len() {
                assert(h == keep);
            } else if is_running_totals(kept, source@.subrange(0, keep as int)) {
                let prefix = source@.subrange(0, keep as int);
                assert forall|t: int| 0 <= t <= keep implies running_total(prefix, t)
                    == running_total(source@, t) by {
                    lemma_running_total_prefix(prefix, source@, t);
                }
                if keep > 0 {
                    assert(kept[keep - 1] == running_total(prefix, keep as int));
                }
                assert forall|t: int| 0 <= t < source@.len() implies #[trigger] self@[t]
                    == running_total(source@, t + 1) by {
                    if t < keep {
                        assert(self@[t] == self@.subrange(0, keep as int)[t]);
                        assert(kept[t] == running_total(prefix, t + 1));
                    }
                }
            }
        }
    }

    /// The block value at `index`, read back from the running totals.
    pub fn block_at(&self, index: usize) -> (value: Option<u64>)
        ensures
            index < self@.len() ==> value == Some(delta_at(self@, index as int)),
            index >= self@.len() ==> value is None,
    {
        collect_one_at(self.cumulative.as_slice(), index)
    }

    /// The block values at `from .. to`, cut to the series' length.
    pub fn block_range(&self, from: usize, to: usize) -> (values: Vec<u64>)
        ensures
            values@ == deltas(self@, from as int, to as int),
    {
        let mut values: Vec<u64> = Vec::new();
        read_into_at(self.cumulative.as_slice(), from, to, &mut values);
        proof {
            assert(Seq::<u64>::empty() + deltas(self@, from as int, to as int) =~= deltas(
                self@,
                from as int,
                to as int,
            ));
        }
        values
    }
}

/// Appending a block to the running totals of some values gives the running
/// totals of those values followed by the block.
pub proof fn lemma_push_extends_running_totals(cumulative: Seq<u64>, values: Seq<u64>, value: u64)
    requires
        is_running_totals(cumulative, values),
        last_or_zero(cumulative) + value <= u64::MAX,
    ensures
        is_running_totals(
            cumulative.push((last_or_zero(cumulative) + value) as u64),
            values.push(value),
        ),
{
    let next = values.push(value);
    assert forall|i: int| 0 <= i <= values.len() implies running_total(values, i) == running_total(
        next,
        i,
    ) by {
        lemma_running_total_prefix(values, next, i);
    }
    assert(running_total(next, next.len() as int) == running_total(next, values.len() as int)
        + value);
    if values.len() > 0 {
        assert(cumulative[values.len() - 1] == running_total(values, values.len() as int));
    }
}

proof fn lemma_running_total_prefix(values: Seq<u64>, longer: Seq<u64>, i: int)
    requires
        0 <= i <= values.len(),
        values.len() <= longer.len(),
        forall|k: int| 0 <= k < values.len() ==> values[k] == longer[k],
    ensures
        running_total(values, i) == running_total(longer, i),
    decreases i,
{
    if i > 0 {
        lemma_running_total_prefix(values, longer, i - 1);
    }
}

/// The running total starts at zero and each value adds itself, whole.
pub proof fn lemma_running_total_step(values: Seq<u64>, n: int)
    requires
        0 <= n < values.len(),
    ensures
        running_total(values, 0) == 0,
        running_total(values, n + 1) == running_total(values, n) + values[n],
{
}

/// Running totals of unsigned values never decrease.
pub proof fn lemma_running_total_monotone(values: Seq<u64>, i: int, j: int)
    requires
        0 <= i <= j,
    ensures
        running_total(values, i) <= running_total(values, j),
    decreases j,
{
    if j > i {
        lemma_running_total_monotone(values, i, j - 1);
    }
}

/// The per-block view of a cumulative series gives back the values that were summed.
pub proof fn lemma_block_is_delta_of_cumulative(cumulative: Seq<u64>, values: Seq<u64>, i: int)
    requires
        is_running_totals(cumulative, values),
        0 <= i < values.len(),
    ensures
        delta_at(cumulative, i) == values[i],
{
    if i > 0 {
        assert(cumulative[i - 1] == running_total(values, i));
    }
    assert(cumulative[i] == running_total(values, i + 1));
    assert(running_total(values, i + 1) == running_total(values, i) + values[i]);
    if i == 0 {
        assert(running_total(values, 0) == 0);
    }
}

/// Reading a range of blocks from the running totals of some values gives
/// back that range of values.
pub proof fn lemma_block_range_is_values(
    cumulative: Seq<u64>,
    values: Seq<u64>,
    from: int,
    to: int,
)
    requires
        is_running_totals(cumulative, values),
        0 <= from <= to <= values.len(),
    ensures
        deltas(cumulative, from, to) == values.subrange(from, to),
{
    assert forall|k: int| 0 <= k < to - from implies deltas(cumulative, from, to)[k] == values[from
        + k] by {
        lemma_block_is_delta_of_cumulative(cumulative, values, from + k);
    }
    assert(deltas(cumulative, from, to) =~= values.subrange(from, to));
}

} // verus!
