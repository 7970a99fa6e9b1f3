use latency_bench::bench::cycle_builder::build_single_cycle;
use latency_bench::bench::timing::{chase, run_adaptive_trial, TrialState};

#[test]
fn chase_follows_the_links() {
    let next = vec![2u32, 0, 3, 1];
    assert_eq!(chase(&next, 0, 0), 0);
    assert_eq!(chase(&next, 0, 1), 2);
    assert_eq!(chase(&next, 0, 2), 3);
    assert_eq!(chase(&next, 0, 3), 1);
    assert_eq!(chase(&next, 0, 4), 0);
    assert_eq!(chase(&next, 3, 4), 3);
    assert_eq!(chase(&next, 3, 6), 0);
}

#[test]
fn chase_around_a_single_cycle_returns_home() {
    let next = build_single_cycle(4 * 1000, 7).expect("valid cycle");
    assert_eq!(chase(&next, 0, 1000), 0);
    assert_eq!(chase(&next, 0, 3000), 0);
    assert_ne!(chase(&next, 0, 999), 0);
}

#[test]
fn adaptive_trial_runs_until_the_target() {
    let next = vec![1u32, 2, 0];
    let chunk = 4u64;
    let target = 100u64;
    let mut state = TrialState::Ready { start_idx: 0 };
    let readings = [1000u64, 1040, 1080, 1120, 1160];
    let mut steps = 0;
    for now in readings {
        state = run_adaptive_trial(&next, state, chunk, target, now);
        steps += 1;
        if let TrialState::Finished { .. } = state {
            break;
        }
    }
    assert_eq!(steps, 4);
    match state {
        TrialState::Finished { accesses, elapsed_cycles, end_idx } => {
            assert_eq!(accesses, 12);
            assert_eq!(elapsed_cycles, 120);
            assert_eq!(end_idx, 0);
        }
        _ => panic!("trial should have finished"),
    }
}

#[test]
fn adaptive_trial_first_step_records_the_start() {
    let next = vec![1u32, 2, 0];
    let state = run_adaptive_trial(&next, TrialState::Ready { start_idx: 1 }, 5, 10, 77);
    match state {
        TrialState::Running { start_cycles, idx, accesses_done } => {
            assert_eq!(start_cycles, 77);
            assert_eq!(idx, 0);
            assert_eq!(accesses_done, 5);
        }
        _ => panic!("trial should be running"),
    }
}

#[test]
fn adaptive_trial_finished_stays_finished() {
    let next = vec![0u32];
    let done = TrialState::Finished { accesses: 3, elapsed_cycles: 9, end_idx: 0 };
    match run_adaptive_trial(&next, done, 1, 1, 5) {
        TrialState::Finished { accesses, elapsed_cycles, end_idx } => {
            assert_eq!((accesses, elapsed_cycles, end_idx), (3, 9, 0));
        }
        _ => panic!("trial should stay finished"),
    }
}

#[test]
fn adaptive_trial_with_empty_chunks_only_waits() {
    let next = vec![0u32, 1];
    let mut state = TrialState::Ready { start_idx: 1 };
    state = run_adaptive_trial(&next, state, 0, 5, 10);
    state = run_adaptive_trial(&next, state, 0, 5, 12);
    state = run_adaptive_trial(&next, state, 0, 5, 15);
    match state {
        TrialState::Finished { accesses, elapsed_cycles, end_idx } => {
            assert_eq!((accesses, elapsed_cycles, end_idx), (0, 5, 1));
        }
        _ => panic!("trial should have finished"),
    }
}
