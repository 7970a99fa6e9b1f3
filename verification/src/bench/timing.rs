use vstd::prelude::*;

use crate::bench::cycle_builder::{is_single_cycle, walk};

verus! {

/// A chase of `steps` accesses through `next` from `start` reads only indices inside `next`.
pub open spec fn chase_stays_in_bounds(next: Seq<u32>, start: int, steps: nat) -> bool {
    forall|k: nat| k < steps ==> 0 <= #[trigger] walk(next, start, k) < next.len()
}

/// Hands `x` through `std::hint::black_box`, which keeps the compiler from optimizing away the
/// chase that produced it. The contract claims that `black_box` returns its argument
/// unchanged, as its documentation states ("an identity function").
#[verifier::external_body]
fn keep_observed(x: u32) -> (r: u32)
    ensures
        r == x,
{
    std::hint::black_box(x)
}

/// Follows `next` for `accesses` dependent loads starting at `idx`, and returns where the
/// chase ends.
pub fn chase(next: &[u32], idx: u32, accesses: u64) -> (r: u32)
    requires
        chase_stays_in_bounds(next@, idx as int, accesses as nat),
    ensures
        r as int == walk(next@, idx as int, accesses as nat),
{
    let mut cur = idx;
    let mut done: u64 = 0;
    while done < accesses
        invariant
            done <= accesses,
            chase_stays_in_bounds(next@, idx as int, accesses as nat),
            cur as int == walk(next@, idx as int, done as nat),
        decreases accesses - done,
    {
        assert(0 <= walk(next@, idx as int, done as nat) < next@.len());
        cur = next[cur as usize];
        done = done + 1;
    }
    keep_observed(cur)
}

/// Where an adaptive trial stands between two readings of the cycle counter.
pub enum TrialState {
    /// Not started: the chase will begin at `start_idx`.
    Ready { start_idx: u32 },
    /// Chasing: the trial started at `start_cycles`, has made `accesses_done` accesses and
    /// stands at `idx`.
    Running { start_cycles: u64, idx: u32, accesses_done: u64 },
    /// Done: `accesses` accesses took `elapsed_cycles` cycles and ended at `end_idx`.
    Finished { accesses: u64, elapsed_cycles: u64, end_idx: u32 },
}

/// What `run_adaptive_trial` may be asked to do from `state` when the counter reads `now_cycles`:
/// every chase it would make stays inside `next`, and no count leaves `u64`.
pub open spec fn trial_step_allowed(
    next: Seq<u32>,
    state: TrialState,
    chunk_accesses: u64,
    target_cycles: u64,
    now_cycles: u64,
) -> bool {
    match state {
        TrialState::Ready { start_idx } => chase_stays_in_bounds(
            next,
            start_idx as int,
            chunk_accesses as nat,
        ),
        TrialState::Running { start_cycles, idx, accesses_done } => {
            &&& now_cycles >= start_cycles
            &&& now_cycles - start_cycles < target_cycles ==> {
                &&& chase_stays_in_bounds(next, idx as int, chunk_accesses as nat)
                &&& accesses_done + chunk_accesses <= u64::MAX
            }
        },
        TrialState::Finished { .. } => true,
    }
}

/// One step of the adaptive trial, taken at the counter reading `now_cycles`. A trial that is
/// ready records the reading as its start and chases one chunk. A running trial whose elapsed
/// cycles have reached the target finishes with what it has done; otherwise it chases one more
/// chunk. A finished trial stays as it is.
pub open spec fn trial_step(
    next: Seq<u32>,
    state: TrialState,
    chunk_accesses: u64,
    target_cycles: u64,
    now_cycles: u64,
) -> TrialState {
    match state {
        TrialState::Ready { start_idx } => TrialState::Running {
            start_cycles: now_cycles,
            idx: walk(next, start_idx as int, chunk_accesses as nat) as u32,
            accesses_done: chunk_accesses,
        },
        TrialState::Running { start_cycles, idx, accesses_done } => {
            if now_cycles - start_cycles >= target_cycles {
                TrialState::Finished {
                    accesses: accesses_done,
                    elapsed_cycles: (now_cycles - start_cycles) as u64,
                    end_idx: idx,
                }
            } else {
                TrialState::Running {
                    start_cycles,
                    idx: walk(next, idx as int, chunk_accesses as nat) as u32,
                    accesses_done: (accesses_done + chunk_accesses) as u64,
                }
            }
        },
        TrialState::Finished { .. } => state,
    }
}

/// Runs the decisions of an adaptive trial, which chases `next` in chunks of `chunk_accesses`
/// until at least `target_cycles` cycles have passed. The caller reads the cycle counter before
/// each call and hands the reading in as `now_cycles`, starting from `TrialState::Ready` and
/// stopping at `TrialState::Finished`.
pub fn run_adaptive_trial(
    next: &[u32],
    state: TrialState,
    chunk_accesses: u64,
    target_cycles: u64,
    now_cycles: u64,
) -> (r: TrialState)
    requires
        trial_step_allowed(next@, state, chunk_accesses, target_cycles, now_cycles),
    ensures
        r == trial_step(next@, state, chunk_accesses, target_cycles, now_cycles),
{
    match state {
        TrialState::Ready { start_idx } => {
            let idx = chase(next, start_idx, chunk_accesses);
            TrialState::Running {
                start_cycles: now_cycles,
                idx,
                accesses_done: chunk_accesses,
            }
        },
        TrialState::Running { start_cycles, idx, accesses_done } => {
            let elapsed = now_cycles - start_cycles;
            if elapsed >= target_cycles {
                TrialState::Finished { accesses: accesses_done, elapsed_cycles: elapsed, end_idx: idx }
            } else {
                let idx = chase(next, idx, chunk_accesses);
                TrialState::Running {
                    start_cycles,
                    idx,
                    accesses_done: accesses_done + chunk_accesses,
                }
            }
        },
        TrialState::Finished { accesses, elapsed_cycles, end_idx } => {
            TrialState::Finished { accesses, elapsed_cycles, end_idx }
        },
    }
}

/// `accesses` is a whole number of chunks of `chunk_accesses`.
pub open spec fn whole_chunks(accesses: nat, chunk_accesses: nat) -> bool {
    if chunk_accesses == 0 {
        accesses == 0
    } else {
        accesses % chunk_accesses == 0
    }
}

/// A trial started at `start_idx`: it has done a whole number of chunks, it stands where a
/// chase of that many accesses from `start_idx` ends, and once finished its elapsed cycles
/// reach the target.
pub open spec fn trial_consistent(
    next: Seq<u32>,
    start_idx: u32,
    chunk_accesses: u64,
    target_cycles: u64,
    state: TrialState,
) -> bool {
    match state {
        TrialState::Ready { start_idx: s } => s == start_idx,
        TrialState::Running { idx, accesses_done, .. } => {
            &&& idx as int == walk(next, start_idx as int, accesses_done as nat)
            &&& whole_chunks(accesses_done as nat, chunk_accesses as nat)
        },
        TrialState::Finished { accesses, elapsed_cycles, end_idx } => {
            &&& end_idx as int == walk(next, start_idx as int, accesses as nat)
            &&& whole_chunks(accesses as nat, chunk_accesses as nat)
            &&& elapsed_cycles >= target_cycles
        },
    }
}

/// Chasing `a` accesses and then `b` more lands where chasing `a + b` accesses lands.
pub proof fn lemma_walk_concat(next: Seq<u32>, start: int, a: nat, b: nat)
    ensures
        walk(next, walk(next, start, a), b) == walk(next, start, a + b),
    decreases b,
{
    if b > 0 {
        lemma_walk_concat(next, start, a, (b - 1) as nat);
    }
}

/// Law: on a single cycle a chase from index 0 of any length stays inside the array, and it
/// repeats itself every `next.len()` accesses.
pub proof fn lemma_single_cycle_chase(next: Seq<u32>, steps: nat)
    requires
        is_single_cycle(next),
    ensures
        chase_stays_in_bounds(next, 0, steps),
        walk(next, 0, steps + next.len()) == walk(next, 0, steps),
{
    assert forall|k: nat| k < steps implies 0 <= #[trigger] walk(next, 0, k) < next.len() by {
        lemma_single_cycle_walk_in_bounds(next, k);
    }
    lemma_walk_concat(next, 0, next.len(), steps);
    assert(steps + next.len() == next.len() + steps);
}

proof fn lemma_single_cycle_walk_in_bounds(next: Seq<u32>, k: nat)
    requires
        is_single_cycle(next),
    ensures
        0 <= walk(next, 0, k) < next.len(),
    decreases k,
{
    if k > 0 {
        lemma_single_cycle_walk_in_bounds(next, (k - 1) as nat);
        let v = walk(next, 0, (k - 1) as nat);
        assert((next[v] as int) < next.len());
    }
}

/// Law: every step of the adaptive trial keeps it consistent with where it started, so a
/// finished trial reports a whole number of chunks, the index a chase of that many accesses
/// reaches, and an elapsed time of at least the target.
pub proof fn lemma_trial_step_keeps_consistency(
    next: Seq<u32>,
    start_idx: u32,
    state: TrialState,
    chunk_accesses: u64,
    target_cycles: u64,
    now_cycles: u64,
)
    requires
        trial_consistent(next, start_idx, chunk_accesses, target_cycles, state),
        trial_step_allowed(next, state, chunk_accesses, target_cycles, now_cycles),
    ensures
        trial_consistent(
            next,
            start_idx,
            chunk_accesses,
            target_cycles,
            trial_step(next, state, chunk_accesses, target_cycles, now_cycles),
        ),
{
    let c = chunk_accesses as nat;
    match state {
        TrialState::Ready { start_idx: s } => {
            if c > 0 {
                vstd::arithmetic::div_mod::lemma_mod_self_0(c as int);
                assert(0 <= walk(next, s as int, (c - 1) as nat) < next.len());
            }
        },
        TrialState::Running { start_cycles, idx, accesses_done } => {
            if now_cycles - start_cycles < target_cycles {
                lemma_walk_concat(next, start_idx as int, accesses_done as nat, c);
                if c > 0 {
                    vstd::arithmetic::div_mod::lemma_mod_add_multiples_vanish(
                        accesses_done as int,
                        c as int,
                    );
                    assert(0 <= walk(next, idx as int, (c - 1) as nat) < next.len());
                }
            }
        },
        TrialState::Finished { .. } => {},
    }
}

} // verus!
