use latency_bench::bench::cycle_builder::build_single_cycle;
use latency_bench::bench::size_grid::build_sizes;

#[test]
fn main_single_cycle_visits_all_elements_once() {
    let size_bytes = 4 * 1024;
    let next = build_single_cycle(size_bytes, 0xC0FFEE).expect("valid cycle");
    let n = next.len();
    let mut seen = vec![false; n];
    let mut idx = 0usize;

    for _ in 0..n {
        assert!(!seen[idx]);
        seen[idx] = true;
        idx = next[idx] as usize;
        assert!(idx < n);
    }

    assert_eq!(idx, 0);
    assert!(seen.into_iter().all(|x| x));
}

#[test]
fn main_size_grid_is_strictly_increasing() {
    let sizes = build_sizes(4 * 1024, 512 * 1024 * 1024);
    assert!(!sizes.is_empty());

    for pair in sizes.windows(2) {
        assert!(pair[0] < pair[1]);
    }
}
