//! Inputs split by the type of the output they spend: counting the types of
//! one transaction's inputs, and feeding a block's per-type counts to one
//! compact count series per spendable type.

use vstd::prelude::*;
use crate::cached_count_cumulative_rolling::CachedCountPerBlockCumulativeRolling;
use crate::cumulative_rolling::{PerBlockCumulativeRolling, last_or_zero};

verus! {

/// Number of output types.
pub const OUTPUT_TYPE_COUNT: usize = 12;

/// Number of spendable output types (every type but `OP_RETURN`).
pub const SPENDABLE_TYPE_COUNT: usize = 11;

/// The output-type number of each spendable type, in the order the series
/// are kept: p2pk65, p2pk33, p2pkh, p2ms, p2sh, p2wpkh, p2wsh, p2tr, p2a,
/// unknown, empty.
pub open spec fn spendable_output_type(k: int) -> int {
    if k <= 4 {
        k
    } else if k <= 8 {
        k + 1
    } else if k == 9 {
        11
    } else {
        10
    }
}

/// Exec form of `spendable_output_type`.
pub fn spendable_output_type_of(k: usize) -> (output_type: usize)
    requires
        k < SPENDABLE_TYPE_COUNT,
    ensures
        output_type == spendable_output_type(k as int),
        output_type < OUTPUT_TYPE_COUNT,
{
    if k <= 4 {
        k
    } else if k <= 8 {
        k + 1
    } else if k == 9 {
        11
    } else {
        10
    }
}

/// How many of `types[from .. to]` equal `t`.
pub open spec fn count_of(types: Seq<u8>, from: int, to: int, t: int) -> int
    decreases to - from,
{
    if to <= from {
        0
    } else {
        count_of(types, from, to - 1, t) + if types[to - 1] == t {
            1int
        } else {
            0int
        }
    }
}

/// Counting over an empty range gives zero, and one more input adds one to
/// the count of its own type and nothing to any other.
pub proof fn lemma_count_of_step(types: Seq<u8>, from: int, to: int, t: int)
    requires
        from <= to < types.len(),
    ensures
        count_of(types, from, from, t) == 0,
        count_of(types, from, to + 1, t) == count_of(types, from, to, t) + if types[to] == t {
            1int
        } else {
            0int
        },
{
}

/// Where every type is below `OUTPUT_TYPE_COUNT`, the counts of all types
/// add up to the number of inputs: each input is counted once.
pub proof fn lemma_count_of_all_types(types: Seq<u8>, from: int, to: int)
    requires
        0 <= from <= to <= types.len(),
        forall|i: int| from <= i < to ==> #[trigger] types[i] < OUTPUT_TYPE_COUNT,
    ensures
        count_of(types, from, to, 0) + count_of(types, from, to, 1) + count_of(types, from, to, 2)
            + count_of(types, from, to, 3) + count_of(types, from, to, 4) + count_of(
            types,
            from,
            to,
            5,
        ) + count_of(types, from, to, 6) + count_of(types, from, to, 7) + count_of(
            types,
            from,
            to,
            8,
        ) + count_of(types, from, to, 9) + count_of(types, from, to, 10) + count_of(
            types,
            from,
            to,
            11,
        ) == to - from,
    decreases to - from,
{
    if to > from {
        lemma_count_of_all_types(types, from, to - 1);
        assert(types[to - 1] < OUTPUT_TYPE_COUNT);
    }
}

/// The spendable types are twelve output types but `OP_RETURN` (type 5),
/// each taken once.
pub proof fn lemma_spendable_types_distinct(j: int, k: int)
    requires
        0 <= j < SPENDABLE_TYPE_COUNT,
        0 <= k < SPENDABLE_TYPE_COUNT,
    ensures
        0 <= spendable_output_type(k) < OUTPUT_TYPE_COUNT,
        spendable_output_type(k) != 5,
        j != k ==> spendable_output_type(j) != spendable_output_type(k),
{
}

/// The inputs of transaction `tx_pos`, counted by the type of output each
/// spends: its inputs run from its first input to the next transaction's
/// first input (or to the end of all inputs for the last transaction).
pub fn count_tx_input_types(
    first_txin_index: &[usize],
    output_types: &[u8],
    tx_pos: usize,
) -> (per_type: [u64; 12])
    requires
        tx_pos < first_txin_index@.len(),
        ({
            let from = first_txin_index@[tx_pos as int] as int;
            let to = if tx_pos + 1 < first_txin_index@.len() {
                first_txin_index@[tx_pos + 1] as int
            } else {
                output_types@.len() as int
            };
            &&& from <= to <= output_types@.len()
            &&& forall|i: int| from <= i < to ==> #[trigger] output_types@[i] < OUTPUT_TYPE_COUNT
        }),
    ensures
        forall|t: int|
            0 <= t < OUTPUT_TYPE_COUNT ==> #[trigger] per_type@[t] == count_of(
                output_types@,
                first_txin_index@[tx_pos as int] as int,
                if tx_pos + 1 < first_txin_index@.len() {
                    first_txin_index@[tx_pos + 1] as int
                } else {
                    output_types@.len() as int
                },
                t,
            ),
{
    let from = first_txin_index[tx_pos];
    let to = if tx_pos + 1 < first_txin_index.len() {
        first_txin_index[tx_pos + 1]
    } else {
        output_types.len()
    };
    let mut per_type = [0u64; 12];
    let mut i = from;
    while i < to
        invariant
            from <= i <= to <= output_types@.len(),
            forall|k: int| from <= k < to ==> #[trigger] output_types@[k] < OUTPUT_TYPE_COUNT,
            forall|t: int|
                0 <= t < OUTPUT_TYPE_COUNT ==> #[trigger] per_type@[t] == count_of(
                    output_types@,
                    from as int,
                    i as int,
                    t,
                ),
            forall|t: int| 0 <= t < OUTPUT_TYPE_COUNT ==> #[trigger] per_type@[t] <= i - from,
        decreases to - i,
    {
        let t = output_types[i] as usize;
        let current = per_type[t];
        per_type[t] = current + 1;
        i = i + 1;
    }
    per_type
}

/// One compact count series per spendable output type.
pub struct WithInputTypes {
    by_type: Vec<CachedCountPerBlockCumulativeRolling>,
}

impl View for WithInputTypes {
    type V = Seq<Seq<u16>>;

    closed spec fn view(&self) -> Seq<Seq<u16>> {
        Seq::new(self.by_type@.len(), |k: int| self.by_type@[k]@)
    }
}

impl WithInputTypes {
    /// One series for every spendable type.
    pub closed spec fn well_formed(&self) -> bool {
        self.by_type@.len() == SPENDABLE_TYPE_COUNT
    }

    /// A series for every spendable type, each starting empty.
    pub fn new() -> (series: Self)
        ensures
            series.well_formed(),
            series@.len() == SPENDABLE_TYPE_COUNT,
            forall|k: int| 0 <= k < SPENDABLE_TYPE_COUNT ==> (#[trigger] series@[k]).len() == 0,
    {
        let mut by_type: Vec<CachedCountPerBlockCumulativeRolling> = Vec::new();
        let mut k: usize = 0;
        while k < SPENDABLE_TYPE_COUNT
            invariant
                k <= SPENDABLE_TYPE_COUNT,
                by_type@.len() == k,
                forall|t: int| 0 <= t < k ==> (#[trigger] by_type@[t])@.len() == 0,
            decreases SPENDABLE_TYPE_COUNT - k,
        {
            by_type.push(CachedCountPerBlockCumulativeRolling::new(Vec::new()));
            k = k + 1;
        }
        WithInputTypes { by_type }
    }

    /// Appends one block: the series of spendable type `k` gets the count of
    /// output type `spendable_output_type(k)`.
    pub fn push_block(&mut self, per_type: &[u64; 12])
        requires
            old(self).well_formed(),
            forall|t: int| 0 <= t < OUTPUT_TYPE_COUNT ==> #[trigger] per_type@[t] <= u16::MAX,
        ensures
            final(self).well_formed(),
            forall|k: int|
                0 <= k < SPENDABLE_TYPE_COUNT ==> #[trigger] final(self)@[k] == old(self)@[k].push(
                    per_type@[spendable_output_type(k)] as u16,
                ),
    {
        let ghost before = self@;
        let mut k: usize = 0;
        while k < SPENDABLE_TYPE_COUNT
            invariant
                self.well_formed(),
                before.len() == SPENDABLE_TYPE_COUNT,
                k <= SPENDABLE_TYPE_COUNT,
                forall|t: int| 0 <= t < OUTPUT_TYPE_COUNT ==> #[trigger] per_type@[t] <= u16::MAX,
                forall|j: int|
                    0 <= j < k ==> #[trigger] self@[j] == before[j].push(
                        per_type@[spendable_output_type(j)] as u16,
                    ),
                forall|j: int| k <= j < SPENDABLE_TYPE_COUNT ==> #[trigger] self@[j] == before[j],
            decreases SPENDABLE_TYPE_COUNT - k,
        {
            let t = spendable_output_type_of(k);
            let value = per_type[t];
            let ghost prev = self.by_type@;
            proof {
                assert(self@[k as int] == before[k as int]);
                assert(prev[k as int]@ == before[k as int]);
            }
            let series = &mut self.by_type[k];
            series.push_block(value);
            proof {
                assert(self.by_type@.len() == prev.len());
                assert(self.by_type@[k as int]@ == prev[k as int]@.push(value as u16));
                assert forall|j: int| 0 <= j < SPENDABLE_TYPE_COUNT && j != k implies
                    self.by_type@[j] == prev[j] by {}
                assert(self@[k as int] == before[k as int].push(value as u16));
                assert forall|j: int| 0 <= j < SPENDABLE_TYPE_COUNT && j != k implies
                    #[trigger] self@[j] == Seq::new(prev.len(), |i: int| prev[i]@)[j] by {}
            }
            k = k + 1;
        }
    }

    /// Blocks stored by every series.
    pub fn min_stateful_len(&self) -> (len: usize)
        requires
            self.well_formed(),
        ensures
            forall|k: int| 0 <= k < SPENDABLE_TYPE_COUNT ==> len <= (#[trigger] self@[k]).len(),
            exists|k: int| 0 <= k < SPENDABLE_TYPE_COUNT && len == (#[trigger] self@[k]).len(),
    {
        let mut least = self.by_type[0].min_stateful_len();
        let mut k: usize = 1;
        assert(least == self@[0].len());
        while k < SPENDABLE_TYPE_COUNT
            invariant
                self.well_formed(),
                1 <= k <= SPENDABLE_TYPE_COUNT,
                forall|j: int| 0 <= j < k ==> least <= (#[trigger] self@[j]).len(),
                exists|j: int| 0 <= j < k && least == (#[trigger] self@[j]).len(),
            decreases SPENDABLE_TYPE_COUNT - k,
        {
            let len = self.by_type[k].min_stateful_len();
            assert(len == self@[k as int].len());
            if len < least {
                least = len;
            }
            k = k + 1;
        }
        least
    }

    /// Drops every block from `len` on, in every series.
    pub fn truncate_if_needed_at(&mut self, len: usize)
        requires
            old(self).well_formed(),
        ensures
            final(self).well_formed(),
            forall|k: int|
                0 <= k < SPENDABLE_TYPE_COUNT ==> #[trigger] final(self)@[k] == if len < old(
                    self,
                )@[k].len() {
                    old(self)@[k].subrange(0, len as int)
                } else {
                    old(self)@[k]
                },
    {
        let ghost before = self@;
        let mut k: usize = 0;
        while k < SPENDABLE_TYPE_COUNT
            invariant
                self.well_formed(),
                before.len() == SPENDABLE_TYPE_COUNT,
                k <= SPENDABLE_TYPE_COUNT,
                forall|j: int|
                    0 <= j < k ==> #[trigger] self@[j] == if len < before[j].len() {
                        before[j].subrange(0, len as int)
                    } else {
                        before[j]
                    },
                forall|j: int| k <= j < SPENDABLE_TYPE_COUNT ==> #[trigger] self@[j] == before[j],
            decreases SPENDABLE_TYPE_COUNT - k,
        {
            let ghost prev = self.by_type@;
            proof {
                assert(self@[k as int] == before[k as int]);
                assert(prev[k as int]@ == before[k as int]);
            }
            let series = &mut self.by_type[k];
            series.truncate_if_needed_at(len);
            proof {
                assert(self.by_type@.len() == prev.len());
                assert(self@[k as int] == self.by_type@[k as int]@);
                assert forall|j: int| 0 <= j < SPENDABLE_TYPE_COUNT && j != k implies
                    self.by_type@[j] == prev[j] by {}
                assert forall|j: int| 0 <= j < SPENDABLE_TYPE_COUNT && j != k implies
                    #[trigger] self@[j] == Seq::new(prev.len(), |i: int| prev[i]@)[j] by {}
            }
            k = k + 1;
        }
    }

    /// The series of spendable type `k`.
    pub fn series(&self, k: usize) -> (series: &CachedCountPerBlockCumulativeRolling)
        requires
            self.well_formed(),
            k < SPENDABLE_TYPE_COUNT,
        ensures
            series@ == self@[k as int],
    {
        &self.by_type[k]
    }
}

/// One running-total series per spendable output type (the transaction
/// counts by type of output spent).
pub struct CumulativeWithInputTypes {
    by_type: Vec<PerBlockCumulativeRolling>,
}

impl View for CumulativeWithInputTypes {
    type V = Seq<Seq<u64>>;

    closed spec fn view(&self) -> Seq<Seq<u64>> {
        Seq::new(self.by_type@.len(), |k: int| self.by_type@[k]@)
    }
}

impl CumulativeWithInputTypes {
    /// One well-formed series for every spendable type.
    pub closed spec fn well_formed(&self) -> bool {
        &&& self.by_type@.len() == SPENDABLE_TYPE_COUNT
        &&& forall|k: int| 0 <= k < SPENDABLE_TYPE_COUNT ==> (#[trigger] self.by_type@[k]).well_formed()
    }

    /// A series for every spendable type, each starting empty.
    pub fn new() -> (series: Self)
        ensures
            series.well_formed(),
            series@.len() == SPENDABLE_TYPE_COUNT,
            forall|k: int| 0 <= k < SPENDABLE_TYPE_COUNT ==> (#[trigger] series@[k]).len() == 0,
    {
        let mut by_type: Vec<PerBlockCumulativeRolling> = Vec::new();
        let mut k: usize = 0;
        while k < SPENDABLE_TYPE_COUNT
            invariant
                k <= SPENDABLE_TYPE_COUNT,
                by_type@.len() == k,
                forall|t: int| 0 <= t < k ==> (#[trigger] by_type@[t])@.len() == 0,
                forall|t: int| 0 <= t < k ==> (#[trigger] by_type@[t]).well_formed(),
            decreases SPENDABLE_TYPE_COUNT - k,
        {
            by_type.push(PerBlockCumulativeRolling::new(Vec::new()));
            k = k + 1;
        }
        CumulativeWithInputTypes { by_type }
    }

    /// Appends one block: the series of spendable type `k` adds the count of
    /// output type `spendable_output_type(k)` to its running total.
    pub fn push_block(&mut self, per_type: &[u64; 12])
        requires
            old(self).well_formed(),
            forall|k: int|
                0 <= k < SPENDABLE_TYPE_COUNT ==> last_or_zero(#[trigger] old(self)@[k])
                    + per_type@[spendable_output_type(k)] <= u64::MAX,
        ensures
            final(self).well_formed(),
            forall|k: int|
                0 <= k < SPENDABLE_TYPE_COUNT ==> #[trigger] final(self)@[k] == old(self)@[k].push(
                    (last_or_zero(old(self)@[k]) + per_type@[spendable_output_type(k)]) as u64,
                ),
    {
        let ghost before = self@;
        let mut k: usize = 0;
        while k < SPENDABLE_TYPE_COUNT
            invariant
                self.well_formed(),
                before.len() == SPENDABLE_TYPE_COUNT,
                k <= SPENDABLE_TYPE_COUNT,
                forall|j: int|
                    0 <= j < SPENDABLE_TYPE_COUNT ==> last_or_zero(#[trigger] before[j])
                        + per_type@[spendable_output_type(j)] <= u64::MAX,
                forall|j: int|
                    0 <= j < k ==> #[trigger] self@[j] == before[j].push(
                        (last_or_zero(before[j]) + per_type@[spendable_output_type(j)]) as u64,
                    ),
                forall|j: int| k <= j < SPENDABLE_TYPE_COUNT ==> #[trigger] self@[j] == before[j],
            decreases SPENDABLE_TYPE_COUNT - k,
        {
            let t = spendable_output_type_of(k);
            let value = per_type[t];
            let ghost prev = self.by_type@;
            proof {
                assert(self@[k as int] == before[k as int]);
                assert(prev[k as int]@ == before[k as int]);
                assert(prev[k as int].well_formed());
                assert(last_or_zero(before[k as int]) + per_type@[spendable_output_type(k as int)]
                    <= u64::MAX);
            }
            let series = &mut self.by_type[k];
            series.push_block(value);
            proof {
                assert(self.by_type@.len() == prev.len());
                assert(self.by_type@[k as int]@ == prev[k as int]@.push(
                    (last_or_zero(prev[k as int]@) + value) as u64,
                ));
                assert forall|j: int| 0 <= j < SPENDABLE_TYPE_COUNT && j != k implies
                    self.by_type@[j] == prev[j] by {}
                assert forall|j: int| 0 <= j < SPENDABLE_TYPE_COUNT implies
                    (#[trigger] self.by_type@[j]).well_formed() by {
                    if j != k {
                        assert(prev[j].well_formed());
                    }
                }
                assert forall|j: int| 0 <= j < SPENDABLE_TYPE_COUNT && j != k implies
                    #[trigger] self@[j] == Seq::new(prev.len(), |i: int| prev[i]@)[j] by {}
            }
            k = k + 1;
        }
    }

    /// Blocks stored by every series.
    pub fn min_stateful_len(&self) -> (len: usize)
        requires
            self.well_formed(),
        ensures
            forall|k: int| 0 <= k < SPENDABLE_TYPE_COUNT ==> len <= (#[trigger] self@[k]).len(),
            exists|k: int| 0 <= k < SPENDABLE_TYPE_COUNT && len == (#[trigger] self@[k]).len(),
    {
        let mut least = self.by_type[0].len();
        let mut k: usize = 1;
        assert(least == self@[0].len());
        while k < SPENDABLE_TYPE_COUNT
            invariant
                self.well_formed(),
                1 <= k <= SPENDABLE_TYPE_COUNT,
                forall|j: int| 0 <= j < k ==> least <= (#[trigger] self@[j]).len(),
                exists|j: int| 0 <= j < k && least == (#[trigger] self@[j]).len(),
            decreases SPENDABLE_TYPE_COUNT - k,
        {
            let len = self.by_type[k].len();
            assert(len == self@[k as int].len());
            if len < least {
                least = len;
            }
            k = k + 1;
        }
        least
    }

    /// Drops every block from `len` on, in every series.
    pub fn truncate_if_needed_at(&mut self, len: usize)
        requires
            old(self).well_formed(),
        ensures
            final(self).well_formed(),
            forall|k: int|
                0 <= k < SPENDABLE_TYPE_COUNT ==> #[trigger] final(self)@[k] == if len < old(
                    self,
                )@[k].len() {
                    old(self)@[k].subrange(0, len as int)
                } else {
                    old(self)@[k]
                },
    {
        let ghost before = self@;
        let mut k: usize = 0;
        while k < SPENDABLE_TYPE_COUNT
            invariant
                self.well_formed(),
                before.len() == SPENDABLE_TYPE_COUNT,
                k <= SPENDABLE_TYPE_COUNT,
                forall|j: int|
                    0 <= j < k ==> #[trigger] self@[j] == if len < before[j].len() {
                        before[j].subrange(0, len as int)
                    } else {
                        before[j]
                    },
                forall|j: int| k <= j < SPENDABLE_TYPE_COUNT ==> #[trigger] self@[j] == before[j],
            decreases SPENDABLE_TYPE_COUNT - k,
        {
            let ghost prev = self.by_type@;
            proof {
                assert(self@[k as int] == before[k as int]);
                assert(prev[k as int]@ == before[k as int]);
                assert(prev[k as int].well_formed());
            }
            let series = &mut self.by_type[k];
            series.truncate_if_needed_at(len);
            proof {
                assert(self.by_type@.len() == prev.len());
                assert(self@[k as int] == self.by_type@[k as int]@);
                assert forall|j: int| 0 <= j < SPENDABLE_TYPE_COUNT && j != k implies
                    self.by_type@[j] == prev[j] by {}
                assert forall|j: int| 0 <= j < SPENDABLE_TYPE_COUNT implies
                    (#[trigger] self.by_type@[j]).well_formed() by {
                    if j != k {
                        assert(prev[j].well_formed());
                    }
                }
                assert forall|j: int| 0 <= j < SPENDABLE_TYPE_COUNT && j != k implies
                    #[trigger] self@[j] == Seq::new(prev.len(), |i: int| prev[i]@)[j] by {}
            }
            k = k + 1;
        }
    }

    /// The series of spendable type `k`.
    pub fn series(&self, k: usize) -> (series: &PerBlockCumulativeRolling)
        requires
            self.well_formed(),
            k < SPENDABLE_TYPE_COUNT,
        ensures
            series@ == self@[k as int],
            series.well_formed(),
    {
        &self.by_type[k]
    }
}

} // verus!
