//! Per-block values read back from a cumulative source: entry `i` is
//! `source[i] - source[i - 1]`, with zero before the first entry and zero
//! where the source decreases.

use vstd::prelude::*;

verus! {

/// The delta of `source` at `i`.
pub open spec fn delta_at(source: Seq<u64>, i: int) -> u64 {
    let previous: u64 = if i == 0 {
        0
    } else {
        source[i - 1]
    };
    if source[i] >= previous {
        (source[i] - previous) as u64
    } else {
        0
    }
}

/// The deltas of `source` at `from .. to`, with `to` cut to the source's length.
pub open spec fn deltas(source: Seq<u64>, from: int, to: int) -> Seq<u64> {
    let end = if to < source.len() {
        to
    } else {
        source.len() as int
    };
    if from >= end {
        Seq::empty()
    } else {
        Seq::new((end - from) as nat, |k: int| delta_at(source, from + k))
    }
}

/// The delta at `index`, or `None` past the end of the source.
pub fn collect_one_at(source: &[u64], index: usize) -> (value: Option<u64>)
    ensures
        index < source@.len() ==> value == Some(delta_at(source@, index as int)),
        index >= source@.len() ==> value is None,
        index == 0 && 0 < source@.len() ==> value == Some(source@[0]),
        0 < index < source@.len() && source@[index - 1] <= source@[index as int] ==> (value
            matches Some(v) && v + source@[index - 1] == source@[index as int]),
        0 < index < source@.len() && source@[index as int] < source@[index - 1] ==> value == Some(
            0u64,
        ),
{
    if index >= source.len() {
        return None;
    }
    let current = source[index];
    let previous = if index == 0 {
        0
    } else {
        source[index - 1]
    };
    Some(current.checked_sub(previous).unwrap_or(0))
}

/// Appends the deltas at `from .. to` to `buf`.
pub fn read_into_at(source: &[u64], from: usize, to: usize, buf: &mut Vec<u64>)
    ensures
        final(buf)@ == old(buf)@ + deltas(source@, from as int, to as int),
{
    let end = if to < source.len() {
        to
    } else {
        source.len()
    };
    if from >= end {
        proof {
            assert(old(buf)@ + deltas(source@, from as int, to as int) =~= old(buf)@);
        }
        return;
    }
    let mut previous: u64 = if from == 0 {
        0
    } else {
        source[from - 1]
    };
    let mut i = from;
    while i < end
        invariant
            from <= i <= end <= source@.len(),
            from < end,
            end as int == (if to < source@.len() {
                to as int
            } else {
                source@.len() as int
            }),
            previous == (if i == 0 {
                0
            } else {
                source@[i - 1]
            }),
            buf@ == old(buf)@ + deltas(source@, from as int, to as int).subrange(0, i - from),
        decreases end - i,
    {
        let current = source[i];
        buf.push(current.checked_sub(previous).unwrap_or(0));
        previous = current;
        i = i + 1;
        proof {
            assert(deltas(source@, from as int, to as int).subrange(0, i - from)
                =~= deltas(source@, from as int, to as int).subrange(0, i - 1 - from).push(
                delta_at(source@, i - 1),
            ));
        }
    }
    proof {
        assert(deltas(source@, from as int, to as int).subrange(0, end - from) =~= deltas(
            source@,
            from as int,
            to as int,
        ));
    }
}

/// The deltas at the given indices, in order, skipping indices past the end.
pub open spec fn deltas_at(source: Seq<u64>, indices: Seq<usize>) -> Seq<u64>
    decreases indices.len(),
{
    if indices.len() == 0 {
        Seq::empty()
    } else {
        let rest = deltas_at(source, indices.drop_last());
        let index = indices.last() as int;
        if index < source.len() {
            rest.push(delta_at(source, index))
        } else {
            rest
        }
    }
}

/// Appends the deltas at `indices` to `out`, skipping indices past the end.
pub fn read_sorted_into_at(source: &[u64], indices: &[usize], out: &mut Vec<u64>)
    ensures
        final(out)@ == old(out)@ + deltas_at(source@, indices@),
        (forall|j: int| 0 <= j < indices@.len() ==> #[trigger] indices@[j] < source@.len()) ==> {
            &&& final(out)@.len() == old(out)@.len() + indices@.len()
            &&& forall|j: int|
                0 <= j < indices@.len() ==> #[trigger] final(out)@[old(out)@.len() + j] == delta_at(
                    source@,
                    indices@[j] as int,
                )
        },
{
    let mut k: usize = 0;
    while k < indices.len()
        invariant
            k <= indices@.len(),
            out@ == old(out)@ + deltas_at(source@, indices@.subrange(0, k as int)),
        decreases indices@.len() - k,
    {
        let index = indices[k];
        proof {
            assert(indices@.subrange(0, k + 1).drop_last() =~= indices@.subrange(0, k as int));
        }
        match collect_one_at(source, index) {
            Some(value) => {
                out.push(value);
                proof {
                    assert(old(out)@ + deltas_at(source@, indices@.subrange(0, k + 1)) =~= old(
                        out,
                    )@ + deltas_at(source@, indices@.subrange(0, k as int)).push(value));
                }
            },
            None => {},
        }
        k = k + 1;
    }
    proof {
        assert(indices@.subrange(0, indices@.len() as int) =~= indices@);
        if forall|j: int| 0 <= j < indices@.len() ==> #[trigger] indices@[j] < source@.len() {
            lemma_deltas_at_in_range(source@, indices@);
        }
    }
}

/// The delta at `i` is the whole increase of the source since `i - 1` (since
/// zero for the first entry), and zero where the source decreases.
pub proof fn lemma_delta_is_increase(source: Seq<u64>, i: int)
    requires
        0 <= i < source.len(),
    ensures
        i == 0 ==> delta_at(source, i) == source[0],
        i > 0 && source[i - 1] <= source[i] ==> delta_at(source, i) + source[i - 1] == source[i],
        i > 0 && source[i] < source[i - 1] ==> delta_at(source, i) == 0,
{
}

/// Where every index lies inside the source, one delta comes out per index,
/// in the indices' order, zero deltas included.
pub proof fn lemma_deltas_at_in_range(source: Seq<u64>, indices: Seq<usize>)
    requires
        forall|j: int| 0 <= j < indices.len() ==> #[trigger] indices[j] < source.len(),
    ensures
        deltas_at(source, indices).len() == indices.len(),
        forall|j: int|
            0 <= j < indices.len() ==> #[trigger] deltas_at(source, indices)[j] == delta_at(
                source,
                indices[j] as int,
            ),
    decreases indices.len(),
{
    if indices.len() > 0 {
        let rest = indices.drop_last();
        assert forall|j: int| 0 <= j < rest.len() implies #[trigger] rest[j] < source.len() by {
            assert(rest[j] == indices[j]);
        }
        lemma_deltas_at_in_range(source, rest);
    }
}

/// Indices past the end of the source add nothing.
pub proof fn lemma_deltas_at_past_end(source: Seq<u64>, indices: Seq<usize>)
    requires
        forall|j: int| 0 <= j < indices.len() ==> #[trigger] indices[j] >= source.len(),
    ensures
        deltas_at(source, indices) == Seq::<u64>::empty(),
    decreases indices.len(),
{
    if indices.len() > 0 {
        let rest = indices.drop_last();
        assert forall|j: int| 0 <= j < rest.len() implies #[trigger] rest[j] >= source.len() by {
            assert(rest[j] == indices[j]);
        }
        lemma_deltas_at_past_end(source, rest);
    }
}

/// Reading two runs of indices one after the other gives the deltas of the
/// first run followed by those of the second.
pub proof fn lemma_deltas_at_concat(source: Seq<u64>, first: Seq<usize>, second: Seq<usize>)
    ensures
        deltas_at(source, first + second) == deltas_at(source, first) + deltas_at(source, second),
    decreases second.len(),
{
    if second.len() == 0 {
        assert(first + second =~= first);
        assert(deltas_at(source, first) + deltas_at(source, second) =~= deltas_at(source, first));
    } else {
        assert((first + second).drop_last() =~= first + second.drop_last());
        lemma_deltas_at_concat(source, first, second.drop_last());
        let index = second.last() as int;
        if index < source.len() {
            assert(deltas_at(source, first) + deltas_at(source, second) =~= (deltas_at(source, first)
                + deltas_at(source, second.drop_last())).push(delta_at(source, index)));
        }
    }
}

/// Reading the consecutive indices `from .. to` one by one gives the same
/// deltas as reading the range at once.
pub proof fn lemma_range_matches_indices(source: Seq<u64>, from: int, to: int)
    requires
        0 <= from <= to,
        to <= usize::MAX + 1,
    ensures
        deltas(source, from, to) == deltas_at(
            source,
            Seq::new((to - from) as nat, |k: int| (from + k) as usize),
        ),
    decreases to - from,
{
    let indices = Seq::new((to - from) as nat, |k: int| (from + k) as usize);
    if from == to {
        assert(deltas(source, from, to) =~= Seq::<u64>::empty());
    } else {
        lemma_range_matches_indices(source, from, to - 1);
        assert(indices.drop_last() =~= Seq::new((to - 1 - from) as nat, |k: int| (from + k) as usize));
        if to - 1 < source.len() {
            assert(deltas(source, from, to) =~= deltas(source, from, to - 1).push(
                delta_at(source, to - 1),
            ));
        } else {
            assert(deltas(source, from, to) =~= deltas(source, from, to - 1));
        }
    }
}

} // verus!
