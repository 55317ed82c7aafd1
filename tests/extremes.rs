use json_stat::extremes::JsonNumbersStats;

fn feed(limit: usize, numbers: &[i64]) -> JsonNumbersStats {
    let mut stats = JsonNumbersStats::new(limit);
    for n in numbers {
        stats.add(*n);
    }
    stats
}

#[test]
fn fifteen_distinct_numbers_keep_the_ten_extremes_in_any_order() {
    let ascending: Vec<i64> = (1..=15).collect();
    let mut shuffled = vec![9, 3, 15, 1, 12, 7, 5, 14, 2, 11, 8, 13, 4, 10, 6];
    let mut descending = ascending.clone();
    descending.reverse();
    let smallest: Vec<i64> = (1..=10).collect();
    let largest: Vec<i64> = (6..=15).rev().collect();
    for order in [&ascending, &descending, &shuffled] {
        let stats = feed(10, order);
        assert_eq!(stats.count(), 15);
        assert_eq!(stats.minimums(), &smallest);
        assert_eq!(stats.maximums(), &largest);
    }
    shuffled.sort();
    assert_eq!(shuffled, ascending);
}

#[test]
fn fewer_numbers_than_the_limit_are_all_kept() {
    let stats = feed(10, &[5, -3, 5]);
    assert_eq!(stats.minimums(), &vec![-3, 5, 5]);
    assert_eq!(stats.maximums(), &vec![5, 5, -3]);
    assert_eq!(stats.count(), 3);
}

#[test]
fn repeated_numbers_count_each_time() {
    let stats = feed(2, &[4, 1, 1, 9, 9, 0]);
    assert_eq!(stats.minimums(), &vec![0, 1]);
    assert_eq!(stats.maximums(), &vec![9, 9]);
}

#[test]
fn a_limit_of_zero_keeps_nothing() {
    let stats = feed(0, &[1, 2, 3]);
    assert!(stats.minimums().is_empty() && stats.maximums().is_empty());
    assert_eq!(stats.count(), 3);
}

#[test]
fn extreme_keys_are_kept() {
    let stats = feed(1, &[0, i64::MIN, i64::MAX]);
    assert_eq!(stats.minimums(), &vec![i64::MIN]);
    assert_eq!(stats.maximums(), &vec![i64::MAX]);
}
