//! Cointime: the time each block adds to the coins held, measured between
//! consecutive block timestamps that never go backwards.

use vstd::prelude::*;

verus! {

/// Seconds between block `height - 1` and block `height` of a timeline,
/// zero for the first block and where the timeline would go backwards.
pub open spec fn interval_at(timestamps: Seq<u32>, height: int) -> u32 {
    if height == 0 {
        0
    } else if timestamps[height] >= timestamps[height - 1] {
        (timestamps[height] - timestamps[height - 1]) as u32
    } else {
        0
    }
}

/// Where block `chunk_start + offset` sits in a batch read from
/// `chunk_start - 1` on (from `0` for the first chunk).
pub open spec fn batch_index(chunk_start: int, offset: int) -> int {
    offset + if chunk_start > 0 {
        1int
    } else {
        0int
    }
}

/// Seconds since the previous block, for block `chunk_start + offset`, read
/// from a batch of timestamps that starts one block before the chunk (or at
/// block zero for the first chunk).
pub fn monotonic_interval_seconds(timestamp_batch: &[u32], chunk_start: usize, offset: usize) -> (seconds: u32)
    requires
        chunk_start + offset <= usize::MAX,
        chunk_start + offset != 0 ==> batch_index(chunk_start as int, offset as int)
            < timestamp_batch@.len(),
    ensures
        seconds == if chunk_start + offset == 0 {
            0
        } else {
            interval_at(timestamp_batch@, batch_index(chunk_start as int, offset as int))
        },
        chunk_start + offset != 0 ==> ({
            let i = offset + if chunk_start > 0 {
                1int
            } else {
                0int
            };
            &&& timestamp_batch@[i - 1] <= timestamp_batch@[i] ==> seconds + timestamp_batch@[i
                - 1] == timestamp_batch@[i]
            &&& timestamp_batch@[i] < timestamp_batch@[i - 1] ==> seconds == 0
        }),
{
    if chunk_start + offset == 0 {
        return 0;
    }
    let current_index = offset + if chunk_start > 0 {
        1
    } else {
        0
    };
    timestamp_batch[current_index].saturating_sub(timestamp_batch[current_index - 1])
}

/// The intervals of the `count` blocks of a chunk starting at `chunk_start`.
pub fn chunk_intervals(timestamp_batch: &[u32], chunk_start: usize, count: usize) -> (intervals: Vec<u32>)
    requires
        chunk_start + count <= usize::MAX,
        count > 0 ==> batch_index(chunk_start as int, count - 1) < timestamp_batch@.len(),
    ensures
        intervals@.len() == count,
        forall|k: int|
            0 <= k < count ==> #[trigger] intervals@[k] == if chunk_start + k == 0 {
                0
            } else {
                interval_at(timestamp_batch@, batch_index(chunk_start as int, k))
            },
{
    let mut intervals: Vec<u32> = Vec::new();
    let mut offset: usize = 0;
    while offset < count
        invariant
            chunk_start + count <= usize::MAX,
            count > 0 ==> batch_index(chunk_start as int, count - 1) < timestamp_batch@.len(),
            offset <= count,
            intervals@.len() == offset,
            forall|k: int|
                0 <= k < offset ==> #[trigger] intervals@[k] == if chunk_start + k == 0 {
                    0
                } else {
                    interval_at(timestamp_batch@, batch_index(chunk_start as int, k))
                },
        decreases count - offset,
    {
        let seconds = monotonic_interval_seconds(timestamp_batch, chunk_start, offset);
        intervals.push(seconds);
        offset = offset + 1;
    }
    intervals
}

/// The interval of a block is the whole time since the previous block where
/// the timeline goes forwards (however long), zero where it goes backwards,
/// and zero for the first block.
pub proof fn lemma_interval_is_elapsed_time(timestamps: Seq<u32>, height: int)
    requires
        0 <= height < timestamps.len(),
    ensures
        height == 0 ==> interval_at(timestamps, height) == 0,
        height > 0 && timestamps[height - 1] <= timestamps[height] ==> interval_at(
            timestamps,
            height,
        ) + timestamps[height - 1] == timestamps[height],
        height > 0 && timestamps[height] < timestamps[height - 1] ==> interval_at(
            timestamps,
            height,
        ) == 0,
{
}

/// Sum of the intervals of blocks `1 ..= n`.
pub open spec fn elapsed(timestamps: Seq<u32>, n: int) -> int
    decreases n,
{
    if n <= 0 {
        0
    } else {
        elapsed(timestamps, n - 1) + interval_at(timestamps, n)
    }
}

/// Over a timeline that never goes backwards, the intervals of blocks
/// `1 ..= n` add up to the time from block `0` to block `n`.
pub proof fn lemma_intervals_telescope(timestamps: Seq<u32>, n: int)
    requires
        0 <= n < timestamps.len(),
        forall|i: int, j: int| 0 <= i <= j < timestamps.len() ==> timestamps[i] <= timestamps[j],
    ensures
        elapsed(timestamps, n) == timestamps[n] - timestamps[0],
    decreases n,
{
    if n > 0 {
        lemma_intervals_telescope(timestamps, n - 1);
        lemma_interval_is_elapsed_time(timestamps, n);
        assert(timestamps[n - 1] <= timestamps[n]);
    }
}

/// A chunk read from the timeline (one block early, except for the first
/// chunk) gives every block of the chunk the same interval as the whole
/// timeline does: resuming in a later chunk changes nothing.
pub proof fn lemma_chunk_interval_matches_timeline(
    timestamps: Seq<u32>,
    chunk_start: int,
    chunk_end: int,
    offset: int,
)
    requires
        0 <= chunk_start,
        0 <= offset < chunk_end - chunk_start,
        chunk_end <= timestamps.len(),
    ensures
        ({
            let batch = timestamps.subrange(
                if chunk_start > 0 {
                    chunk_start - 1
                } else {
                    0
                },
                chunk_end,
            );
            &&& chunk_start + offset != 0 ==> batch_index(chunk_start, offset) < batch.len()
            &&& (if chunk_start + offset == 0 {
                0
            } else {
                interval_at(batch, batch_index(chunk_start, offset))
            }) == interval_at(timestamps, chunk_start + offset)
        }),
{
}

} // verus!
