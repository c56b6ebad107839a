//! Where an incremental computation resumes, how far its sources reach, and
//! the chunks it writes in between.

use vstd::prelude::*;

verus! {

/// Blocks computed between two writes.
pub const WRITE_INTERVAL: usize = 10_000;

/// The least length, or zero when there is none.
pub open spec fn min_or_zero(lens: Seq<usize>) -> int
    decreases lens.len(),
{
    if lens.len() == 0 {
        0
    } else if lens.len() == 1 {
        lens[0] as int
    } else {
        let rest = min_or_zero(lens.drop_last());
        if lens.last() < rest {
            lens.last() as int
        } else {
            rest
        }
    }
}

pub proof fn lemma_min_or_zero(lens: Seq<usize>)
    ensures
        lens.len() > 0 ==> exists|i: int| 0 <= i < lens.len() && lens[i] == min_or_zero(lens),
        forall|i: int| 0 <= i < lens.len() ==> min_or_zero(lens) <= #[trigger] lens[i],
    decreases lens.len(),
{
    if lens.len() > 1 {
        let rest = lens.drop_last();
        lemma_min_or_zero(rest);
        assert forall|i: int| 0 <= i < lens.len() implies min_or_zero(lens) <= #[trigger] lens[i] by {
            if i < lens.len() - 1 {
                assert(lens[i] == rest[i]);
            }
        }
        if min_or_zero(lens) != lens.last() {
            let j = choose|j: int| 0 <= j < rest.len() && rest[j] == min_or_zero(rest);
            assert(lens[j] == rest[j]);
        } else {
            assert(lens[lens.len() - 1] == min_or_zero(lens));
        }
    } else if lens.len() == 1 {
        assert(lens[0] == min_or_zero(lens));
    }
}

/// The least of `lens`, or zero when there is none.
pub fn min_len(lens: &[usize]) -> (least: usize)
    ensures
        least == min_or_zero(lens@),
{
    if lens.len() == 0 {
        return 0;
    }
    let mut least = lens[0];
    let mut i: usize = 1;
    while i < lens.len()
        invariant
            1 <= i <= lens@.len(),
            least == min_or_zero(lens@.subrange(0, i as int)),
        decreases lens@.len() - i,
    {
        proof {
            assert(lens@.subrange(0, i + 1).drop_last() =~= lens@.subrange(0, i as int));
        }
        if lens[i] < least {
            least = lens[i];
        }
        i = i + 1;
    }
    proof {
        assert(lens@.subrange(0, lens@.len() as int) =~= lens@);
    }
    least
}

/// The block to resume from: no later than any output already stored, nor
/// than the first block the sources changed at.
pub fn resume_start(stored_lens: &[usize], starting_height: usize) -> (start: usize)
    ensures
        start == if min_or_zero(stored_lens@) < starting_height {
            min_or_zero(stored_lens@)
        } else {
            starting_height as int
        },
{
    let least = min_len(stored_lens);
    if least < starting_height {
        least
    } else {
        starting_height
    }
}

/// The end of the next chunk.
pub fn chunk_end(chunk_start: usize, source_end: usize) -> (end: usize)
    requires
        chunk_start + WRITE_INTERVAL <= usize::MAX,
    ensures
        end == if chunk_start + WRITE_INTERVAL < source_end {
            chunk_start + WRITE_INTERVAL
        } else {
            source_end as int
        },
{
    let end = chunk_start + WRITE_INTERVAL;
    if end < source_end {
        end
    } else {
        source_end
    }
}

/// The chunks from `start` to `source_end`: consecutive, each non-empty and
/// at most `WRITE_INTERVAL` blocks, covering every block in between.
pub fn chunk_ranges(start: usize, source_end: usize) -> (chunks: Vec<(usize, usize)>)
    requires
        source_end + WRITE_INTERVAL <= usize::MAX,
    ensures
        start >= source_end ==> chunks@.len() == 0,
        start < source_end ==> chunks@.len() > 0 && chunks@[0].0 == start
            && chunks@.last().1 == source_end,
        forall|k: int|
            0 <= k < chunks@.len() ==> (#[trigger] chunks@[k]).0 < chunks@[k].1 <= chunks@[k].0
                + WRITE_INTERVAL,
        forall|k: int| 0 < k < chunks@.len() ==> #[trigger] chunks@[k].0 == chunks@[k - 1].1,
        forall|k: int|
            0 <= k < chunks@.len() ==> (#[trigger] chunks@[k]).1 == if chunks@[k].0 + WRITE_INTERVAL
                < source_end {
                chunks@[k].0 + WRITE_INTERVAL
            } else {
                source_end as int
            },
{
    let mut chunks: Vec<(usize, usize)> = Vec::new();
    let mut chunk_start = start;
    while chunk_start < source_end
        invariant
            source_end + WRITE_INTERVAL <= usize::MAX,
            start < source_end ==> start <= chunk_start <= source_end,
            start >= source_end ==> chunk_start == start && chunks@.len() == 0,
            chunks@.len() == 0 ==> chunk_start == start,
            chunks@.len() > 0 ==> chunks@[0].0 == start && chunks@.last().1 == chunk_start,
            forall|k: int|
                0 <= k < chunks@.len() ==> (#[trigger] chunks@[k]).0 < chunks@[k].1
                    <= chunks@[k].0 + WRITE_INTERVAL,
            forall|k: int| 0 < k < chunks@.len() ==> #[trigger] chunks@[k].0 == chunks@[k - 1].1,
            forall|k: int|
                0 <= k < chunks@.len() ==> (#[trigger] chunks@[k]).1 == if chunks@[k].0
                    + WRITE_INTERVAL < source_end {
                    chunks@[k].0 + WRITE_INTERVAL
                } else {
                    source_end as int
                },
        decreases source_end - chunk_start,
    {
        let end = chunk_end(chunk_start, source_end);
        chunks.push((chunk_start, end));
        chunk_start = end;
    }
    chunks
}

} // verus!
