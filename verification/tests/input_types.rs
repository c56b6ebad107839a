use brk_computer::input_types::{
    CumulativeWithInputTypes, SPENDABLE_TYPE_COUNT, WithInputTypes, count_tx_input_types, spendable_output_type_of,
};

#[test]
fn tx_inputs_are_counted_by_spent_output_type() {
    let first_txin_index = [0_usize, 0, 3, 5];
    let output_types = [2_u8, 2, 8, 0, 11, 8, 8];
    assert_eq!(count_tx_input_types(&first_txin_index, &output_types, 0), [0; 12]);
    let second = count_tx_input_types(&first_txin_index, &output_types, 1);
    assert_eq!(second[2], 2);
    assert_eq!(second[8], 1);
    assert_eq!(second.iter().sum::<u64>(), 3);
    let third = count_tx_input_types(&first_txin_index, &output_types, 2);
    assert_eq!((third[0], third[11]), (1, 1));
    let last = count_tx_input_types(&first_txin_index, &output_types, 3);
    assert_eq!(last[8], 2);
}

#[test]
fn spendable_series_skip_op_return() {
    let order: Vec<usize> = (0..SPENDABLE_TYPE_COUNT).map(spendable_output_type_of).collect();
    assert_eq!(order, [0, 1, 2, 3, 4, 6, 7, 8, 9, 11, 10]);
}

#[test]
fn block_counts_feed_each_spendable_series() {
    let mut series = WithInputTypes::new();
    let per_type: [u64; 12] = [1, 2, 3, 4, 5, 99, 6, 7, 8, 9, 10, 11];
    series.push_block(&per_type);
    series.push_block(&[0; 12]);
    assert_eq!(series.min_stateful_len(), 2);
    assert_eq!(series.series(5).block_at(0), Some(6));
    assert_eq!(series.series(9).block_at(0), Some(11));
    assert_eq!(series.series(10).block_at(0), Some(10));
    assert_eq!(series.series(0).cumulative_range(0, 2), [1, 1]);
    series.truncate_if_needed_at(1);
    assert_eq!(series.min_stateful_len(), 1);
}

#[test]
fn transaction_counts_accumulate_per_spendable_type() {
    let mut series = CumulativeWithInputTypes::new();
    let per_type: [u64; 12] = [1, 2, 3, 4, 5, 99, 6, 7, 8, 9, 10, 11];
    series.push_block(&per_type);
    series.push_block(&per_type);
    assert_eq!(series.min_stateful_len(), 2);
    assert_eq!(series.series(5).cumulative(), &vec![6, 12]);
    assert_eq!(series.series(9).block_range(0, 2), [11, 11]);
    series.truncate_if_needed_at(1);
    assert_eq!(series.series(0).cumulative(), &vec![1]);
    assert_eq!(series.min_stateful_len(), 1);
}
