use brk_computer::cached_count_cumulative_rolling::CachedCountPerBlockCumulativeRolling;
use brk_computer::cumulative_rolling::PerBlockCumulativeRolling;
use brk_computer::previous_delta::{collect_one_at, read_into_at, read_sorted_into_at};

#[test]
fn block_view_is_the_delta_of_cumulative() {
    let cumulative = [1_u64, 3, 6];
    let mut block = Vec::new();
    read_into_at(&cumulative, 0, 3, &mut block);
    assert_eq!(block, [1, 2, 3]);
    let mut tail = Vec::new();
    read_into_at(&cumulative, 1, 3, &mut tail);
    assert_eq!(tail, [2, 3]);
}

#[test]
fn block_view_stops_at_the_source_end_and_floors_decreases() {
    let cumulative = [5_u64, 4, 10];
    let mut block = Vec::new();
    read_into_at(&cumulative, 1, 100, &mut block);
    assert_eq!(block, [0, 6]);
    let mut none = vec![9];
    read_into_at(&cumulative, 3, 5, &mut none);
    assert_eq!(none, [9]);
    assert_eq!(collect_one_at(&cumulative, 0), Some(5));
    assert_eq!(collect_one_at(&cumulative, 1), Some(0));
    assert_eq!(collect_one_at(&cumulative, 3), None);
    let mut sparse = Vec::new();
    read_sorted_into_at(&cumulative, &[0, 2, 7], &mut sparse);
    assert_eq!(sparse, [5, 6]);
}

#[test]
fn pushed_blocks_become_running_totals() {
    let mut series = PerBlockCumulativeRolling::new(Vec::new());
    for value in [1_u64, 2, 3] {
        series.push_block(value);
    }
    assert_eq!(series.cumulative(), &vec![1, 3, 6]);
    assert_eq!(series.block_range(0, 3), [1, 2, 3]);
    assert_eq!(series.block_at(2), Some(3));
    assert_eq!(series.block_at(3), None);
}

#[test]
fn truncation_then_push_restarts_from_the_kept_total() {
    let mut series = PerBlockCumulativeRolling::new(vec![1, 3, 6]);
    series.truncate_if_needed_at(1);
    series.push_block(10);
    assert_eq!(series.cumulative(), &vec![1, 11]);
    series.truncate_if_needed_at(0);
    series.push_block(4);
    series.push_block(5);
    assert_eq!(series.cumulative(), &vec![4, 9]);
    series.truncate_if_needed_at(50);
    assert_eq!(series.len(), 2);
}

#[test]
fn compute_cumulative_resumes_from_the_earlier_of_stored_and_changed() {
    let source = [2_u64, 2, 2, 2, 2];
    let mut series = PerBlockCumulativeRolling::new(vec![2, 4, 100]);
    series.compute_cumulative(2, &source);
    assert_eq!(series.cumulative(), &vec![2, 4, 6, 8, 10]);
    series.compute_cumulative(0, &[1, 1]);
    assert_eq!(series.cumulative(), &vec![1, 2]);
}

#[test]
fn cached_count_block_and_cumulative_after_refresh() {
    let mut count = CachedCountPerBlockCumulativeRolling::new(Vec::new());
    for value in [1_u64, 2, 3] {
        count.push_block(value);
    }
    assert_eq!(count.min_stateful_len(), 3);
    assert_eq!(
        (0..3).map(|i| count.block_at(i).unwrap()).collect::<Vec<_>>(),
        [1, 2, 3]
    );
    assert_eq!(count.cumulative_range(0, 3), [1, 3, 6]);

    count.truncate_if_needed_at(0);
    for value in [4_u64, 5, 6] {
        count.push_block(value);
    }
    assert_eq!(
        (0..3).map(|i| count.block_at(i).unwrap()).collect::<Vec<_>>(),
        [4, 5, 6]
    );
    assert_eq!(count.cumulative_range(0, 3), [4, 9, 15]);
    assert_eq!(count.cumulative_range(1, 10), [9, 15]);
    assert_eq!(count.block_at(3), None);
}
