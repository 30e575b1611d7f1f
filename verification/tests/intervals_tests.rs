use minibatch_sgd::intervals::lowest_unblocked;

#[test]
fn nothing_blocked_leaves_zero() {
    assert_eq!(lowest_unblocked(vec![]), Some(0));
    assert_eq!(lowest_unblocked(vec![(1, 5)]), Some(0));
    assert_eq!(lowest_unblocked(vec![(-9, -1)]), Some(0));
}

#[test]
fn adjacent_and_overlapping_ranges_are_passed() {
    assert_eq!(lowest_unblocked(vec![(5, 8), (0, 2), (4, 7)]), Some(3));
    assert_eq!(lowest_unblocked(vec![(0, 2), (3, 5), (6, 9)]), Some(10));
    assert_eq!(lowest_unblocked(vec![(0, 5), (2, 3)]), Some(6));
    assert_eq!(lowest_unblocked(vec![(2, 3), (0, 5)]), Some(6));
    assert_eq!(lowest_unblocked(vec![(-5, 3)]), Some(4));
}

#[test]
fn order_of_the_ranges_does_not_matter() {
    assert_eq!(lowest_unblocked(vec![(5, 10), (0, 4)]), Some(11));
    assert_eq!(lowest_unblocked(vec![(0, 4), (5, 10)]), Some(11));
    assert_eq!(lowest_unblocked(vec![(11, 20), (5, 10), (0, 4)]), Some(21));
}

#[test]
fn empty_ranges_block_nothing() {
    assert_eq!(lowest_unblocked(vec![(3, 0)]), Some(0));
    assert_eq!(lowest_unblocked(vec![(0, -1), (0, 0)]), Some(1));
}

#[test]
fn everything_blocked_gives_none() {
    assert_eq!(lowest_unblocked(vec![(0, i64::MAX)]), None);
    assert_eq!(lowest_unblocked(vec![(10, i64::MAX), (i64::MIN, 9)]), None);
    assert_eq!(lowest_unblocked(vec![(0, i64::MAX - 1)]), Some(i64::MAX));
}
