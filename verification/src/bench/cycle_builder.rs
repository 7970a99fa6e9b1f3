use vstd::prelude::*;

verus! {

/// Multiplier of the linear congruential generator that drives the shuffle.
pub const LCG_MULTIPLIER: u64 = 6364136223846793005;

/// Increment of the linear congruential generator that drives the shuffle.
pub const LCG_INCREMENT: u64 = 1442695040888963407;

/// One step of the generator: `state * LCG_MULTIPLIER + LCG_INCREMENT` modulo 2^64.
pub open spec fn lcg_step(state: u64) -> u64 {
    ((state as int * LCG_MULTIPLIER as int + LCG_INCREMENT as int) % 0x1_0000_0000_0000_0000int) as u64
}

proof fn lemma_lcg_step_wraps(s: u64)
    ensures
        vstd::wrapping::u64_specs::wrapping_add(
            vstd::wrapping::u64_specs::wrapping_mul(s, LCG_MULTIPLIER),
            LCG_INCREMENT,
        ) == lcg_step(s),
{
    let m: int = 0x1_0000_0000_0000_0000int;
    let prod: int = s as int * LCG_MULTIPLIER as int;
    assert(prod >= 0) by (nonlinear_arith)
        requires prod == s as int * LCG_MULTIPLIER as int;
    let low: int = prod % m;
    vstd::arithmetic::div_mod::lemma_add_mod_noop(prod, LCG_INCREMENT as int, m);
    vstd::arithmetic::div_mod::lemma_small_mod(LCG_INCREMENT as nat, m as nat);
    vstd::arithmetic::div_mod::lemma_mod_bound(prod, m);
    let sum: int = low + LCG_INCREMENT as int;
    if sum >= m {
        vstd::arithmetic::div_mod::lemma_mod_sub_multiples_vanish(sum, m);
        vstd::arithmetic::div_mod::lemma_small_mod((sum - m) as nat, m as nat);
    } else {
        vstd::arithmetic::div_mod::lemma_small_mod(sum as nat, m as nat);
    }
}

/// Advances the generator state by one step and returns the new state.
pub fn next_u64(state: &mut u64) -> (r: u64)
    ensures
        *final(state) == lcg_step(*old(state)),
        r == *final(state),
{
    proof {
        lemma_lcg_step_wraps(*state);
    }
    *state = state.wrapping_mul(LCG_MULTIPLIER).wrapping_add(LCG_INCREMENT);
    *state
}

/// `s` with the items at positions `i` and `j` exchanged.
pub open spec fn swap_items<A>(s: Seq<A>, i: int, j: int) -> Seq<A> {
    s.update(i, s[j]).update(j, s[i])
}

/// The positions `0, 1, ..., n - 1` in order.
pub open spec fn identity_order(n: nat) -> Seq<int> {
    Seq::new(n, |k: int| k)
}

/// `order` lists every position `0..n` exactly once.
pub open spec fn is_permutation(order: Seq<int>, n: nat) -> bool {
    &&& order.len() == n
    &&& forall|k: int| 0 <= k < n ==> 0 <= #[trigger] order[k] < n
    &&& forall|k: int, l: int| 0 <= k < n && 0 <= l < n && k != l ==> order[k] != order[l]
    &&& forall|v: int| 0 <= v < n ==> #[trigger] order.contains(v)
}

/// The items of `values` taken in the given order of positions.
pub open spec fn rearranged(values: Seq<u32>, order: Seq<int>) -> Seq<u32> {
    Seq::new(order.len(), |k: int| values[order[k]])
}

/// The Fisher-Yates pass over the positions `i, i - 1, ..., 1` of `order`, the generator
/// starting from `state`: position `i` is exchanged with position `lcg_step(state) % (i + 1)`,
/// and the pass goes on from the new generator state.
pub open spec fn fisher_yates(order: Seq<int>, i: nat, state: u64) -> Seq<int>
    decreases i,
{
    if i == 0 {
        order
    } else {
        let next_state = lcg_step(state);
        let j = (next_state as nat % (i + 1)) as int;
        fisher_yates(swap_items(order, i as int, j), (i - 1) as nat, next_state)
    }
}

/// The order into which `shuffle_u32` puts `n` items with the given seed: position `k` of the
/// result holds the item that stood at position `shuffle_order(n, seed)[k]`.
pub open spec fn shuffle_order(n: nat, seed: u64) -> Seq<int> {
    if n < 2 {
        identity_order(n)
    } else {
        fisher_yates(identity_order(n), (n - 1) as nat, seed)
    }
}

proof fn lemma_identity_is_permutation(n: nat)
    ensures
        is_permutation(identity_order(n), n),
{
    let id = identity_order(n);
    assert forall|v: int| 0 <= v < n implies #[trigger] id.contains(v) by {
        assert(id[v] == v);
    }
}

proof fn lemma_swap_keeps_permutation(order: Seq<int>, n: nat, i: int, j: int)
    requires
        is_permutation(order, n),
        0 <= i < n,
        0 <= j < n,
    ensures
        is_permutation(swap_items(order, i, j), n),
{
    let s = swap_items(order, i, j);
    assert forall|v: int| 0 <= v < n implies #[trigger] s.contains(v) by {
        assert(order.contains(v));
        let k = choose|k: int| 0 <= k < order.len() && order[k] == v;
        if k == i {
            assert(s[j] == v);
        } else if k == j {
            assert(s[i] == v);
        } else {
            assert(s[k] == v);
        }
    }
    assert forall|k: int, l: int| 0 <= k < n && 0 <= l < n && k != l implies s[k] != s[l] by {
        let ok = if k == i { j } else if k == j { i } else { k };
        let ol = if l == i { j } else if l == j { i } else { l };
        assert(s[k] == order[ok]);
        assert(s[l] == order[ol]);
    }
}

proof fn lemma_fisher_yates_keeps_permutation(order: Seq<int>, n: nat, i: nat, state: u64)
    requires
        is_permutation(order, n),
        i < n,
    ensures
        is_permutation(fisher_yates(order, i, state), n),
    decreases i,
{
    if i > 0 {
        let next_state = lcg_step(state);
        let j = (next_state as nat % (i + 1)) as int;
        lemma_swap_keeps_permutation(order, n, i as int, j);
        lemma_fisher_yates_keeps_permutation(
            swap_items(order, i as int, j),
            n,
            (i - 1) as nat,
            next_state,
        );
    }
}

/// Law: whatever the seed, the shuffle order of `n` items lists every position exactly once,
/// so a shuffle only rearranges its items.
pub proof fn lemma_shuffle_order_is_permutation(n: nat, seed: u64)
    ensures
        is_permutation(shuffle_order(n, seed), n),
{
    lemma_identity_is_permutation(n);
    if n >= 2 {
        lemma_fisher_yates_keeps_permutation(identity_order(n), n, (n - 1) as nat, seed);
    }
}

/// The generator state after `k` steps from `seed`.
pub open spec fn lcg_after(seed: u64, k: nat) -> u64
    decreases k,
{
    if k == 0 {
        seed
    } else {
        lcg_step(lcg_after(seed, (k - 1) as nat))
    }
}

/// The position that step `k` (counted from 1) of the pass over `n` items draws for position
/// `n - k`: the `k`-th generator state modulo `n - k + 1`.
pub open spec fn pass_draw(n: nat, seed: u64, k: nat) -> int {
    (lcg_after(seed, k) as nat % ((n - k + 1) as nat)) as int
}

/// The order of `n` items after the first `m` steps of the pass: step `k` exchanges position
/// `n - k` with its draw, for `k = 1, ..., m`.
pub open spec fn order_after_steps(n: nat, seed: u64, m: nat) -> Seq<int>
    decreases m,
{
    if m == 0 {
        identity_order(n)
    } else {
        swap_items(order_after_steps(n, seed, (m - 1) as nat), n - m, pass_draw(n, seed, m))
    }
}

proof fn lemma_fisher_yates_runs_the_steps(n: nat, seed: u64, m: nat)
    requires
        n >= 2,
        m <= n - 1,
    ensures
        fisher_yates(order_after_steps(n, seed, m), (n - 1 - m) as nat, lcg_after(seed, m))
            == order_after_steps(n, seed, (n - 1) as nat),
    decreases n - 1 - m,
{
    if m < n - 1 {
        let i = (n - 1 - m) as nat;
        assert(i + 1 == n - m);
        assert((n - (m + 1) + 1) as nat == i + 1);
        assert(lcg_after(seed, m + 1) == lcg_step(lcg_after(seed, m)));
        assert(order_after_steps(n, seed, m + 1) == swap_items(
            order_after_steps(n, seed, m),
            i as int,
            pass_draw(n, seed, m + 1),
        ));
        lemma_fisher_yates_runs_the_steps(n, seed, m + 1);
    }
}

/// Law: the shuffle runs the whole Fisher-Yates pass over `n >= 2` items: for each step
/// `k = 1, ..., n - 1`, position `n - k` is exchanged with the position that the `k`-th
/// generator state from `seed` picks below `n - k + 1`; nothing else moves.
pub proof fn lemma_shuffle_runs_every_step(n: nat, seed: u64)
    requires
        n >= 2,
    ensures
        shuffle_order(n, seed) == order_after_steps(n, seed, (n - 1) as nat),
        forall|k: nat|
            1 <= k <= n - 1 ==> #[trigger] order_after_steps(n, seed, k) == swap_items(
                order_after_steps(n, seed, (k - 1) as nat),
                n - k,
                (lcg_after(seed, k) as nat % ((n - k + 1) as nat)) as int,
            ),
{
    lemma_fisher_yates_runs_the_steps(n, seed, 0);
}

/// Shuffles `values` in place with a seeded Fisher-Yates pass, the generator starting at `seed`.
pub fn shuffle_u32(values: &mut [u32], seed: u64)
    ensures
        final(values)@ == rearranged(old(values)@, shuffle_order(old(values)@.len(), seed)),
        is_permutation(shuffle_order(old(values)@.len(), seed), old(values)@.len()),
        old(values)@.len() >= 2 ==> final(values)@ == rearranged(
            old(values)@,
            order_after_steps(old(values)@.len(), seed, (old(values)@.len() - 1) as nat),
        ),
{
    proof {
        lemma_shuffle_order_is_permutation(old(values)@.len(), seed);
        if old(values)@.len() >= 2 {
            lemma_shuffle_runs_every_step(old(values)@.len(), seed);
        }
    }
    let ghost init = values@;
    let ghost n = values@.len();
    let mut rng_state = seed;
    if values.len() < 2 {
        assert(values@ =~= rearranged(init, identity_order(n)));
        return;
    }
    let mut i: usize = values.len() - 1;
    let ghost mut order = identity_order(n);
    proof {
        lemma_identity_is_permutation(n);
        assert(values@ =~= rearranged(init, order));
    }
    while i > 0
        invariant
            values@.len() == n,
            n >= 2,
            n <= usize::MAX,
            i < n,
            is_permutation(order, n),
            values@ == rearranged(init, order),
            fisher_yates(order, i as nat, rng_state) == shuffle_order(n, seed),
        decreases i,
    {
        let r = next_u64(&mut rng_state);
        let j: usize = (r % ((i + 1) as u64)) as usize;
        let vi = values[i];
        let vj = values[j];
        values[i] = vj;
        values[j] = vi;
        proof {
            lemma_swap_keeps_permutation(order, n, i as int, j as int);
            order = swap_items(order, i as int, j as int);
            assert(values@ =~= rearranged(init, order));
        }
        i = i - 1;
    }
}

/// Where a chase through `next` that starts at index `start` stands after `steps` accesses.
pub open spec fn walk(next: Seq<u32>, start: int, steps: nat) -> int
    decreases steps,
{
    if steps == 0 {
        start
    } else {
        next[walk(next, start, (steps - 1) as nat)] as int
    }
}

/// A chase through `next` from index 0 stands at `v` after some number of accesses below `steps`.
pub open spec fn reached_within(next: Seq<u32>, v: int, steps: nat) -> bool {
    exists|k: nat| k < steps && #[trigger] walk(next, 0, k) == v
}

/// Following `next` from index 0 stays in bounds, visits every index exactly once in
/// `next.len()` accesses, and is back at index 0 after them.
pub open spec fn is_single_cycle(next: Seq<u32>) -> bool {
    &&& next.len() >= 1
    &&& forall|v: int| 0 <= v < next.len() ==> (#[trigger] next[v] as int) < next.len()
    &&& forall|k: nat, l: nat|
        k < l < next.len() ==> walk(next, 0, k) != walk(next, 0, l)
    &&& forall|v: int| 0 <= v < next.len() ==> #[trigger] reached_within(next, v, next.len())
    &&& walk(next, 0, next.len()) == 0
}

/// Each item of `order` links to the item after it, the last one back to the first.
pub open spec fn links_follow(next: Seq<u32>, order: Seq<int>) -> bool {
    &&& next.len() == order.len()
    &&& forall|i: int|
        0 <= i < order.len() ==> next[#[trigger] order[i]] as int == order[(i + 1) % (
        order.len() as int)]
}

proof fn lemma_walk_along_order(next: Seq<u32>, order: Seq<int>, n: nat, j0: int, k: nat)
    requires
        n >= 2,
        is_permutation(order, n),
        links_follow(next, order),
        0 <= j0 < n,
        order[j0] == 0,
    ensures
        walk(next, 0, k) == order[(j0 + k) % (n as int)],
    decreases k,
{
    let m = n as int;
    if k == 0 {
        vstd::arithmetic::div_mod::lemma_small_mod(j0 as nat, n);
    } else {
        lemma_walk_along_order(next, order, n, j0, (k - 1) as nat);
        let a = j0 + k - 1;
        let p = a % m;
        vstd::arithmetic::div_mod::lemma_mod_bound(a, m);
        assert(next[order[p]] as int == order[(p + 1) % m]);
        vstd::arithmetic::div_mod::lemma_add_mod_noop(a, 1, m);
        vstd::arithmetic::div_mod::lemma_small_mod(1, n);
    }
}

/// Law: linking the items of a permutation of `0..n` each to the next one, and the last one
/// back to the first, makes a single cycle through all `n` indices.
pub proof fn lemma_links_form_single_cycle(next: Seq<u32>, order: Seq<int>, n: nat)
    requires
        n >= 2,
        is_permutation(order, n),
        links_follow(next, order),
    ensures
        is_single_cycle(next),
{
    let m = n as int;
    assert(order.contains(0));
    let j0 = choose|j: int| 0 <= j < order.len() && order[j] == 0;
    assert forall|v: int| 0 <= v < next.len() implies (#[trigger] next[v] as int) < next.len() by {
        assert(order.contains(v));
        let i = choose|i: int| 0 <= i < order.len() && order[i] == v;
        vstd::arithmetic::div_mod::lemma_mod_bound(i + 1, m);
    }
    assert forall|k: nat, l: nat| k < l < next.len() implies walk(next, 0, k) != walk(next, 0, l) by {
        lemma_walk_along_order(next, order, n, j0, k);
        lemma_walk_along_order(next, order, n, j0, l);
        let a = j0 + k;
        let b = j0 + l;
        vstd::arithmetic::div_mod::lemma_mod_bound(a, m);
        vstd::arithmetic::div_mod::lemma_mod_bound(b, m);
        vstd::arithmetic::div_mod::lemma_mod_equivalence(b, a, m);
        vstd::arithmetic::div_mod::lemma_small_mod((b - a) as nat, n);
    }
    assert forall|v: int| 0 <= v < next.len() implies #[trigger] reached_within(
        next,
        v,
        next.len(),
    ) by {
        assert(order.contains(v));
        let i = choose|i: int| 0 <= i < order.len() && order[i] == v;
        let k: nat = if i >= j0 { (i - j0) as nat } else { (i - j0 + m) as nat };
        lemma_walk_along_order(next, order, n, j0, k);
        vstd::arithmetic::div_mod::lemma_small_mod(i as nat, n);
        if i < j0 {
            vstd::arithmetic::div_mod::lemma_mod_add_multiples_vanish(i, m);
        }
        assert(walk(next, 0, k) == v);
    }
    lemma_walk_along_order(next, order, n, j0, n);
    vstd::arithmetic::div_mod::lemma_mod_add_multiples_vanish(j0, m);
    vstd::arithmetic::div_mod::lemma_small_mod(j0 as nat, n);
}

/// Builds the chase array of a working set of `working_set_bytes` bytes: one `u32` index per
/// four bytes, linked into a single randomized cycle through all of them, so that a chase
/// cannot get stuck in a small loop. The cycle follows the shuffle of `0..n` with the seed
/// `seed ^ working_set_bytes`. There is no array when the working set holds fewer than two
/// indices or more than `u32::MAX`.
pub fn build_single_cycle(working_set_bytes: u64, seed: u64) -> (r: Option<Vec<u32>>)
    ensures
        r is None <==> (working_set_bytes / 4 < 2 || working_set_bytes / 4 > u32::MAX),
        r matches Some(next) ==> {
            let n = (working_set_bytes / 4) as nat;
            &&& next@.len() == n
            &&& links_follow(next@, shuffle_order(n, seed ^ working_set_bytes))
            &&& links_follow(
                next@,
                order_after_steps(n, seed ^ working_set_bytes, (n - 1) as nat),
            )
            &&& is_single_cycle(next@)
        },
{
    broadcast use vstd::layout::layout_of_primitives;

    let element_size = core::mem::size_of::<u32>() as u64;
    let n_u64 = working_set_bytes / element_size;
    if n_u64 < 2 || n_u64 > u32::MAX as u64 {
        return None;
    }
    let n = n_u64 as usize;
    let ghost order = shuffle_order(n as nat, seed ^ working_set_bytes);

    let mut perm: Vec<u32> = Vec::new();
    let mut k: u32 = 0;
    while (k as usize) < n
        invariant
            n as u64 == n_u64,
            n <= u32::MAX,
            k <= n,
            perm@ == Seq::new(k as nat, |v: int| v as u32),
        decreases n - k,
    {
        perm.push(k);
        k = k + 1;
    }
    let ghost range = perm@;
    shuffle_u32(perm.as_mut_slice(), seed ^ working_set_bytes);
    proof {
        assert forall|i: int| 0 <= i < n implies perm@[i] as int == order[i] by {
            assert(0 <= order[i] < n);
        }
    }

    let mut next: Vec<u32> = vec![0u32; n];
    let mut i: usize = 0;
    while i < n - 1
        invariant
            n >= 2,
            n <= u32::MAX,
            i <= n - 1,
            next@.len() == n,
            perm@.len() == n,
            is_permutation(order, n as nat),
            forall|t: int| 0 <= t < n ==> perm@[t] as int == order[t],
            forall|t: int| 0 <= t < i ==> next@[#[trigger] order[t]] as int == order[t + 1],
        decreases n - 1 - i,
    {
        let target = perm[i] as usize;
        let value = perm[i + 1];
        assert(0 <= order[i as int] < n);
        next[target] = value;
        proof {
            assert forall|t: int| 0 <= t < i + 1 implies next@[#[trigger] order[t]] as int
                == order[t + 1] by {
                if t < i {
                    assert(order[t] != order[i as int]);
                }
            }
        }
        i = i + 1;
    }
    let last = perm[n - 1] as usize;
    let first = perm[0];
    assert(0 <= order[n - 1] < n);
    next[last] = first;
    proof {
        let m = n as int;
        assert forall|t: int| 0 <= t < m implies next@[#[trigger] order[t]] as int == order[(t
            + 1) % m] by {
            if t < m - 1 {
                assert(order[t] != order[m - 1]);
                vstd::arithmetic::div_mod::lemma_small_mod((t + 1) as nat, n as nat);
            } else {
                vstd::arithmetic::div_mod::lemma_mod_self_0(m);
            }
        }
        lemma_links_form_single_cycle(next@, order, n as nat);
        lemma_shuffle_runs_every_step(n as nat, seed ^ working_set_bytes);
    }
    Some(next)
}

} // verus!
