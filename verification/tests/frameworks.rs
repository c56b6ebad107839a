use brk_computer::chunks::{WRITE_INTERVAL, chunk_end, chunk_ranges, min_len, resume_start};
use brk_computer::coinflow::{HORIZON_COUNT, Horizons, partition_cohorts, realized_price};
use brk_computer::cointime::{chunk_intervals, monotonic_interval_seconds};
use brk_computer::inputs::{identity, without_coinbase};
use brk_computer::rarity_meter::{envelope_bands, score_at, total_score};

#[test]
fn monotonic_interval_handles_initial_and_resumed_chunks() {
    let initial = [100_u32, 160, 220];
    let resumed = [160_u32, 220];

    assert_eq!(monotonic_interval_seconds(&initial, 0, 0), 0);
    assert_eq!(monotonic_interval_seconds(&initial, 0, 1), 60);
    assert_eq!(monotonic_interval_seconds(&resumed, 2, 0), 60);
}

#[test]
fn backwards_timestamps_give_a_zero_interval() {
    let batch = [500_u32, 400, 450];
    assert_eq!(monotonic_interval_seconds(&batch, 7, 0), 0);
    assert_eq!(monotonic_interval_seconds(&batch, 7, 1), 50);
    assert_eq!(chunk_intervals(&[100, 160, 220], 0, 3), [0, 60, 60]);
    assert_eq!(chunk_intervals(&[160, 220, 250], 2, 2), [60, 30]);
}

#[test]
fn supply_partitions_and_coinflow_cap_is_bounded() {
    let total_supply = 123_456_789_u64;
    let total_cap = 987_654_321_u64;
    let mobility = 0.321_f64;
    let mobile_supply = (total_supply as f64 * mobility) as u64;
    let coinflow_cap = (total_cap as f64 * mobility) as u64;

    let block = partition_cohorts(&[total_supply], &[mobile_supply], &[coinflow_cap]);
    assert_eq!(block.supply.mobile + block.supply.immobile, total_supply);
    assert!(block.cap <= total_cap);
}

#[test]
fn partition_totals_every_cohort() {
    let block = partition_cohorts(&[100, 250, 0], &[40, 250, 0], &[1_000, 2_000, 0]);
    assert_eq!(block.cohorts.len(), 3);
    assert_eq!((block.cohorts[0].mobile, block.cohorts[0].immobile), (40, 60));
    assert_eq!((block.cohorts[1].mobile, block.cohorts[1].immobile), (250, 0));
    assert_eq!(block.supply.mobile, 290);
    assert_eq!(block.supply.immobile, 60);
    assert_eq!(block.cap, 3_000);
    assert_eq!(block.price, realized_price(3_000, 290));
}

#[test]
fn realized_price_is_cents_per_bitcoin() {
    assert_eq!(realized_price(1_000, 100_000_000), 1_000);
    assert_eq!(realized_price(100, 50), 200_000_000);
    assert_eq!(realized_price(10, 3), 333_333_333);
    assert_eq!(realized_price(123, 0), 0);
    assert_eq!(realized_price(6_000_000, 200_000_000), 3_000_000);
    assert_eq!(realized_price(u64::MAX, 1 << 63), 199_999_999);
}

#[test]
fn coinbase_transactions_are_taken_out() {
    assert_eq!(without_coinbase(0, 1), 0);
    assert_eq!(without_coinbase(9, 100), 90);
    assert_eq!(identity(9, 100), 100);
}

fn bands(values: [u64; 10]) -> [Vec<u64>; 10] {
    values.map(|v| vec![v])
}

#[test]
fn score_counts_bands_crossed() {
    let row = bands([10, 20, 30, 40, 50, 100, 110, 120, 130, 140]);
    assert_eq!(score_at(5, &row, 0), -5);
    assert_eq!(score_at(25, &row, 0), -3);
    assert_eq!(score_at(50, &row, 0), 0);
    assert_eq!(score_at(75, &row, 0), 0);
    assert_eq!(score_at(100, &row, 0), 0);
    assert_eq!(score_at(125, &row, 0), 3);
    assert_eq!(score_at(1_000, &row, 0), 5);
}

#[test]
fn total_score_sums_the_models() {
    let a = bands([10, 20, 30, 40, 50, 100, 110, 120, 130, 140]);
    let b = bands([1, 2, 3, 4, 5, 6, 7, 8, 9, 10]);
    assert_eq!(total_score(125, &[a.clone(), b.clone()], 0), 3 + 5);
    assert_eq!(total_score(5, &[a, b], 0), -5 + 0);
    assert_eq!(total_score(5, &[], 0), 0);
}

#[test]
fn resumption_and_chunks() {
    assert_eq!(min_len(&[]), 0);
    assert_eq!(min_len(&[7, 3, 9]), 3);
    assert_eq!(resume_start(&[7, 3, 9], 5), 3);
    assert_eq!(resume_start(&[7, 8], 5), 5);
    assert_eq!(chunk_end(0, 25_000), WRITE_INTERVAL);
    assert_eq!(chunk_end(20_000, 25_000), 25_000);
    assert_eq!(
        chunk_ranges(3, 25_000),
        [(3, 10_003), (10_003, 20_003), (20_003, 25_000)]
    );
    assert!(chunk_ranges(9, 9).is_empty());
    assert_eq!(chunk_ranges(0, 20_000), [(0, 10_000), (10_000, 20_000)]);
}

#[test]
fn horizons_are_listed_longest_first() {
    let mut horizons = Horizons {
        _8y: 8,
        _4y: 4,
        _2y: 2,
        _1y: 1,
        _6m: 6,
        _3m: 3,
        _1m: 30,
    };
    assert_eq!(horizons.as_array().map(|v| *v), [8, 4, 2, 1, 6, 3, 30]);
    for value in horizons.as_mut_array() {
        *value += 1;
    }
    assert_eq!(horizons._1m, 31);
    assert_eq!(horizons.as_array().len(), HORIZON_COUNT);
}

#[test]
fn combined_bands_are_the_tightest() {
    let a = [10, 20, 30, 40, 50, 100, 110, 120, 130, 140];
    let b = [12, 18, 35, 40, 45, 90, 115, 125, 128, 150];
    assert_eq!(
        envelope_bands(&[a, b]),
        [12, 20, 35, 40, 50, 90, 110, 120, 128, 140]
    );
    assert_eq!(envelope_bands(&[a]), a);
}
