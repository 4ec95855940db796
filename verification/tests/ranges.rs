use relayfs::bridge::ranges::merge_range;

#[test]
fn merge_counts_new_bytes() {
    let mut r = vec![(0u64, 10u64)];
    assert_eq!(merge_range(&mut r, 5, 15), 5);
    assert_eq!(r, vec![(0, 15)]);
}

#[test]
fn ranges_stay_apart_and_touching_ones_join() {
    let mut r = Vec::new();
    assert_eq!(merge_range(&mut r, 10, 20), 10);
    assert_eq!(merge_range(&mut r, 30, 40), 10);
    assert_eq!(merge_range(&mut r, 0, 5), 5);
    assert_eq!(r, vec![(0, 5), (10, 20), (30, 40)]);
    // Adjacent on both sides.
    assert_eq!(merge_range(&mut r, 20, 30), 10);
    assert_eq!(r, vec![(0, 5), (10, 40)]);
    assert_eq!(merge_range(&mut r, 12, 18), 0);
    assert_eq!(merge_range(&mut r, 0, 50), 15);
    assert_eq!(r, vec![(0, 50)]);
}

#[test]
fn an_empty_range_adds_nothing() {
    let mut r = vec![(1, 2)];
    assert_eq!(merge_range(&mut r, 5, 5), 0);
    assert_eq!(merge_range(&mut r, 9, 5), 0);
    assert_eq!(r, vec![(1, 2)]);
}

#[test]
fn the_order_of_insertion_does_not_show() {
    let mut a = Vec::new();
    merge_range(&mut a, 0, 4);
    merge_range(&mut a, 8, 12);
    merge_range(&mut a, 4, 6);
    let mut b = Vec::new();
    merge_range(&mut b, 2, 6);
    merge_range(&mut b, 8, 12);
    merge_range(&mut b, 0, 3);
    assert_eq!(a, b);
    assert_eq!(a, vec![(0, 6), (8, 12)]);
}
