use latency_bench::bench::size_grid::build_sizes;

#[test]
fn size_grid_size_grid_is_strictly_increasing() {
    let sizes = build_sizes(4 * 1024, 512 * 1024 * 1024);
    assert!(!sizes.is_empty());

    for pair in sizes.windows(2) {
        assert!(pair[0] < pair[1]);
    }
}

#[test]
fn size_grid_interleaves_midpoints() {
    assert_eq!(build_sizes(4, 16), vec![4, 6, 8, 12, 16]);
    assert_eq!(build_sizes(4, 31), vec![4, 6, 8, 12, 16]);
    assert_eq!(build_sizes(4, 32), vec![4, 6, 8, 12, 16, 24, 32]);
}

#[test]
fn size_grid_bounds() {
    let sizes = build_sizes(4 * 1024, 512 * 1024 * 1024);
    assert_eq!(sizes[0], 4096);
    assert_eq!(*sizes.last().unwrap(), 512 * 1024 * 1024);
    assert_eq!(sizes.len(), 2 * 18 - 1);
}

#[test]
fn size_grid_single_and_empty() {
    assert_eq!(build_sizes(5, 5), vec![5]);
    assert_eq!(build_sizes(5, 9), vec![5]);
    assert!(build_sizes(6, 5).is_empty());
}

#[test]
fn size_grid_from_one_repeats_one() {
    // The midpoint between 1 and 2 rounds down to 1.
    assert_eq!(build_sizes(1, 4), vec![1, 1, 2, 3, 4]);
}

#[test]
fn size_grid_near_the_top_of_u64() {
    let low = 1u64 << 61;
    assert_eq!(build_sizes(low, u64::MAX / 2), vec![low, low + low / 2, low * 2]);
}
