use brk_computer::expanding_percentiles::{ExpandingPercentiles, TREE_SIZE};
use brk_computer::fenwick::FenwickTree;

const BUCKET_WIDTH: f64 = 0.001;

fn to_bucket(value: f32) -> usize {
    (value as f64 / BUCKET_WIDTH)
        .round()
        .clamp(0.0, (TREE_SIZE - 1) as f64) as usize
}

fn add_value(ep: &mut ExpandingPercentiles, value: f32) {
    if value.is_nan() {
        return;
    }
    ep.add(to_bucket(value));
}

fn quantile(ep: &ExpandingPercentiles, q: f64) -> f64 {
    let rank = (q * ep.count() as f64).ceil() as u32;
    let buckets = ep.quantile_buckets(&[rank; 8]);
    buckets[0] as f64 * BUCKET_WIDTH
}

#[test]
fn expanding_percentiles_basic_quantiles() {
    let mut ep = ExpandingPercentiles::default();
    for i in 1..=1000 {
        add_value(&mut ep, i as f32 / 1000.0);
    }
    assert_eq!(ep.count(), 1000);

    let median = quantile(&ep, 0.5);
    assert!((median - 0.5).abs() < 0.01, "median was {median}");

    let p99 = quantile(&ep, 0.99);
    assert!((p99 - 0.99).abs() < 0.01, "p99 was {p99}");

    let p01 = quantile(&ep, 0.01);
    assert!((p01 - 0.01).abs() < 0.01, "p01 was {p01}");
}

#[test]
fn expanding_percentiles_empty() {
    let ep = ExpandingPercentiles::default();
    assert_eq!(ep.count(), 0);
    assert_eq!(quantile(&ep, 0.5), 0.0);
}

#[test]
fn single_value() {
    let mut ep = ExpandingPercentiles::default();
    add_value(&mut ep, 0.42);
    let v = quantile(&ep, 0.5);
    assert!((v - 0.42).abs() <= BUCKET_WIDTH, "got {v}");
}

#[test]
fn reset_works() {
    let mut ep = ExpandingPercentiles::default();
    for i in 0..100 {
        add_value(&mut ep, i as f32 / 100.0);
    }
    assert_eq!(ep.count(), 100);
    ep.reset();
    assert_eq!(ep.count(), 0);
    assert_eq!(quantile(&ep, 0.5), 0.0);
}

#[test]
fn nan_values_are_not_counted() {
    let mut ep = ExpandingPercentiles::new();
    add_value(&mut ep, f32::NAN);
    add_value(&mut ep, 1.0);
    assert_eq!(ep.count(), 1);
}

#[test]
fn ranks_are_clamped_into_the_count() {
    let mut ep = ExpandingPercentiles::new();
    ep.add(10);
    ep.add(20);
    ep.add(30);
    let buckets = ep.quantile_buckets(&[0, 1, 2, 3, 4, 100, u32::MAX, 2]);
    assert_eq!(buckets, [10, 10, 20, 30, 30, 30, 30, 20]);
}

#[test]
fn bulk_add_matches_incremental_adds() {
    let buckets: Vec<usize> = (0..1000).map(|i| (i * 37) % 5000).collect();
    let mut incremental = ExpandingPercentiles::new();
    incremental.add(7);
    for &bucket in &buckets {
        incremental.add(bucket);
    }
    let mut bulk = ExpandingPercentiles::new();
    bulk.add(7);
    bulk.add_bulk(&buckets);
    assert_eq!(incremental.count(), bulk.count());
    let ranks = [1, 2, 10, 100, 500, 900, 1000, 1001];
    assert_eq!(
        incremental.quantile_buckets(&ranks),
        bulk.quantile_buckets(&ranks)
    );
}

#[test]
fn largest_bucket_takes_out_of_range_ratios() {
    assert_eq!(to_bucket(100.0), TREE_SIZE - 1);
    let mut ep = ExpandingPercentiles::new();
    ep.add(TREE_SIZE - 1);
    assert_eq!(ep.quantile_buckets(&[1; 8])[0], TREE_SIZE - 1);
}

#[test]
fn fenwick_prefix_counts_and_ranks() {
    let mut tree = FenwickTree::new(10);
    tree.add(0, 2);
    tree.add(3, 1);
    tree.add(9, 4);
    assert_eq!(tree.size(), 10);
    assert_eq!(tree.total(), 7);
    assert_eq!(tree.prefix_count(0), 0);
    assert_eq!(tree.prefix_count(1), 2);
    assert_eq!(tree.prefix_count(4), 3);
    assert_eq!(tree.prefix_count(9), 3);
    assert_eq!(tree.prefix_count(10), 7);
    assert_eq!(tree.kth(0), 0);
    assert_eq!(tree.kth(1), 0);
    assert_eq!(tree.kth(2), 3);
    assert_eq!(tree.kth(3), 9);
    assert_eq!(tree.kth(6), 9);
}

#[test]
fn fenwick_bulk_counts_merge_into_existing_counts() {
    let mut merged = FenwickTree::new(13);
    merged.add(5, 3);
    let raw: Vec<u32> = (0..13).map(|i| (i % 4) as u32).collect();
    merged.add_counts(&raw);

    let mut added = FenwickTree::new(13);
    added.add(5, 3);
    for (bucket, &count) in raw.iter().enumerate() {
        added.add(bucket, count);
    }
    for end in 0..=13 {
        assert_eq!(merged.prefix_count(end), added.prefix_count(end));
    }
}

#[test]
fn fenwick_reset_empties_every_bucket() {
    let mut tree = FenwickTree::new(5);
    tree.add(2, 9);
    tree.reset();
    assert_eq!(tree.total(), 0);
    assert_eq!(tree.size(), 5);
}

#[test]
fn count_is_the_number_of_values_since_the_last_reset() {
    let mut ep = ExpandingPercentiles::default();
    assert_eq!(ep.count(), 0);
    ep.add(3);
    ep.add_bulk(&[1, 2, 3, 4]);
    ep.add(9);
    assert_eq!(ep.count(), 6);
    ep.reset();
    ep.add_bulk(&[]);
    ep.add(0);
    assert_eq!(ep.count(), 1);
}
