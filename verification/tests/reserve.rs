use chain_primitives::reserve::reserves_more_than;

#[test]
fn shrinks_only_above_the_threshold() {
    assert!(reserves_more_than(21, 10, 10));
    assert!(!reserves_more_than(20, 10, 10));
    assert!(!reserves_more_than(0, 0, 0));
    assert!(reserves_more_than(1, 0, 0));
}

#[test]
fn large_values_do_not_wrap() {
    assert!(!reserves_more_than(5, usize::MAX, 10));
    assert!(!reserves_more_than(usize::MAX, 1, usize::MAX));
    assert!(reserves_more_than(usize::MAX, 0, usize::MAX - 1));
}
