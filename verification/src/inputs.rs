//! Transforms from per-block running totals to the input-type series.

use vstd::prelude::*;

verus! {

/// The running total, unchanged.
pub fn identity(height: u32, value: u64) -> (result: u64)
    ensures
        result == value,
{
    value
}

/// The running transaction count without the coinbases: every block up to and
/// including `height` holds exactly one coinbase transaction.
pub fn without_coinbase(height: u32, total: u64) -> (result: u64)
    requires
        height < u32::MAX,
        total >= height + 1,
    ensures
        result == total - (height + 1),
{
    total - (height as u64 + 1)
}

} // verus!
