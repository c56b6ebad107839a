# brk_computer (verified core)

The integer logic behind a set of on-chain Bitcoin metrics, written in Verus
and proved against its contracts.

- `src/` — the verified library:
  - `lowbit`, `fenwick`: a Fenwick tree of bucket counts (point add, prefix
    count, rank search, O(n) bulk merge), with the arithmetic of lowest set
    bits it rests on;
  - `expanding_percentiles`: percentile tracker over 0.001-wide ratio buckets;
  - `previous_delta`, `cumulative_rolling`, `cached_count_cumulative_rolling`:
    per-block series stored as running totals and read back as deltas;
  - `coinflow`: mobile/immobile supply partition and realized price;
  - `cointime`: block intervals from monotonic timestamps, chunk by chunk;
  - `rarity_meter`: band scores and the combined (tightest) bands;
  - `input_types`, `inputs`: inputs and transactions counted by the type of
    output spent, one compact count series or running-total series per type;
  - `chunks`: where incremental computations resume and how they chunk.
- `app/` — the floating-point formulas (hazard fits, mobilities, coin-day
  allocation, bucket conversions, block-decayed percentiles) around the library.
- `tests/` — tests of the library.
