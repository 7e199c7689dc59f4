use analyzer::stats::Accumulator;

#[test]
fn summary_of_mixed_functions() {
    let mut acc = Accumulator::default();
    acc.add(3, false);
    acc.add(1, true);
    acc.add(2, false);
    acc.add(5, false);
    let s = acc.into_summary();
    assert_eq!(s.total, 4);
    assert_eq!(s.all.count, 4);
    assert_eq!(s.all.sum, 11);
    assert_eq!(s.all.median, 3);
    assert_eq!(s.all.max, 5);
    assert_eq!(s.all.at_most_3, 3);
    assert_eq!(s.all.at_most_6, 4);
    assert_eq!(s.safe.count, 3);
    assert_eq!(s.safe.median, 3);
    assert_eq!(s.safe.max, 5);
    assert_eq!(s.safe.sum, 10);
    assert_eq!(s.unsafe_group.count, 1);
    assert_eq!(s.unsafe_group.median, 1);
    assert_eq!(s.unsafe_group.max, 1);
    assert_eq!(s.distribution, vec![0, 1, 1, 1, 0, 1]);
}

#[test]
fn summary_of_nothing() {
    let s = Accumulator::default().into_summary();
    assert_eq!(s.total, 0);
    assert_eq!(s.all.count, 0);
    assert_eq!(s.all.median, 0);
    assert_eq!(s.all.max, 0);
    assert_eq!(s.all.sum, 0);
    assert_eq!(s.unsafe_group.count, 0);
    assert_eq!(s.distribution, vec![0]);
}

#[test]
fn counts_at_thresholds() {
    let mut acc = Accumulator::default();
    for tw in [7, 6, 4, 3, 0, 0, 7] {
        acc.add(tw, tw % 2 == 1);
    }
    let s = acc.into_summary();
    // Sorted: 0 0 3 4 6 7 7; position 3 holds 4.
    assert_eq!(s.all.median, 4);
    assert_eq!(s.all.at_most_3, 3);
    assert_eq!(s.all.at_most_6, 5);
    assert_eq!(s.all.max, 7);
    assert_eq!(s.distribution, vec![2, 0, 0, 1, 1, 0, 1, 2]);
    assert_eq!(s.unsafe_group.count, 3);
    assert_eq!(s.unsafe_group.median, 7);
    assert_eq!(s.safe.count, 4);
    assert_eq!(s.safe.median, 4);
}
