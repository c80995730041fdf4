use stackup_core::sorting::sort_ascending;

#[test]
fn values_come_out_in_ascending_order() {
    assert_eq!(sort_ascending(&vec![3, -1, 2, -1, 0]), vec![-1, -1, 0, 2, 3]);
    assert_eq!(sort_ascending(&Vec::new()), Vec::<i64>::new());
    assert_eq!(sort_ascending(&vec![7]), vec![7]);
    assert_eq!(sort_ascending(&vec![i64::MAX, i64::MIN, 0]), vec![i64::MIN, 0, i64::MAX]);
}

#[test]
fn sorting_keeps_every_value() {
    let values: Vec<i64> = (0..10_000).map(|k| (k * 7919) % 10_007 - 5_000).collect();
    let sorted = sort_ascending(&values);
    assert_eq!(sorted.len(), values.len());
    assert!(sorted.windows(2).all(|pair| pair[0] <= pair[1]));
    let mut expected = values.clone();
    expected.sort();
    assert_eq!(sorted, expected);
}
