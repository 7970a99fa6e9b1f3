use latency_bench::bench::cycle_builder::{build_single_cycle, next_u64, shuffle_u32};

#[test]
fn cycle_builder_single_cycle_visits_all_elements_once() {
    let size_bytes = 4 * 1024;
    let next = build_single_cycle(size_bytes, 0xC0FFEE).expect("valid cycle");
    let n = next.len();
    let mut seen = vec![false; n];
    let mut idx = 0usize;

    for _ in 0..n {
        assert!(!seen[idx]);
        seen[idx] = true;
        idx = next[idx] as usize;
        assert!(idx < n);
    }

    assert_eq!(idx, 0);
    assert!(seen.into_iter().all(|x| x));
}

#[test]
fn next_u64_steps_the_generator() {
    let mut state = 0u64;
    let r = next_u64(&mut state);
    assert_eq!(r, 1442695040888963407);
    assert_eq!(state, 1442695040888963407);
    let r2 = next_u64(&mut state);
    let expected = 1442695040888963407u64
        .wrapping_mul(6364136223846793005)
        .wrapping_add(1442695040888963407);
    assert_eq!(r2, expected);
    assert_eq!(state, expected);
}

#[test]
fn shuffle_keeps_every_item() {
    let mut values: Vec<u32> = (0..100).collect();
    shuffle_u32(&mut values, 42);
    assert_ne!(values, (0..100).collect::<Vec<u32>>());
    let mut sorted = values.clone();
    sorted.sort();
    assert_eq!(sorted, (0..100).collect::<Vec<u32>>());
}

#[test]
fn shuffle_of_two_items_follows_the_generator() {
    // One step from seed 0 gives 1442695040888963407, which is odd: item 1 stays in place.
    let mut values = vec![7u32, 9u32];
    shuffle_u32(&mut values, 0);
    assert_eq!(values, vec![7, 9]);
    // One step from seed 1 gives 7806831264735756412, which is even: the two items swap.
    let mut values = vec![7u32, 9u32];
    shuffle_u32(&mut values, 1);
    assert_eq!(values, vec![9, 7]);
}

#[test]
fn shuffle_leaves_short_lists_alone() {
    let mut empty: Vec<u32> = Vec::new();
    shuffle_u32(&mut empty, 5);
    assert!(empty.is_empty());
    let mut one = vec![3u32];
    shuffle_u32(&mut one, 5);
    assert_eq!(one, vec![3]);
}

#[test]
fn shuffle_is_deterministic_per_seed() {
    let mut a: Vec<u32> = (0..50).collect();
    let mut b: Vec<u32> = (0..50).collect();
    shuffle_u32(&mut a, 0xC0FFEE);
    shuffle_u32(&mut b, 0xC0FFEE);
    assert_eq!(a, b);
}

#[test]
fn single_cycle_rejects_too_small_working_sets() {
    assert!(build_single_cycle(0, 1).is_none());
    assert!(build_single_cycle(4, 1).is_none());
    assert!(build_single_cycle(7, 1).is_none());
    assert!(build_single_cycle(8, 1).is_some());
}

#[test]
fn single_cycle_rejects_too_large_working_sets() {
    assert!(build_single_cycle((u32::MAX as u64 + 1) * 4, 1).is_none());
    assert!(build_single_cycle(u64::MAX, 1).is_none());
}

#[test]
fn single_cycle_of_two_elements() {
    let next = build_single_cycle(9, 3).expect("two elements");
    assert_eq!(next, vec![1, 0]);
}

#[test]
fn single_cycle_follows_the_shuffled_order() {
    let bytes = 4 * 37;
    let seed = 11u64;
    let next = build_single_cycle(bytes, seed).expect("valid cycle");
    let mut order: Vec<u32> = (0..37).collect();
    shuffle_u32(&mut order, seed ^ bytes);
    for i in 0..37 {
        assert_eq!(next[order[i] as usize], order[(i + 1) % 37]);
    }
}
