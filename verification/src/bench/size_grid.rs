use vstd::prelude::*;

verus! {

/// The doubling run `start, 2 * start, 4 * start, ...` up to and including `max`; empty when
/// `start` is not positive or already above `max`.
pub open spec fn powers_from(start: int, max: int) -> Seq<int>
    decreases (if 0 < start <= max { max - start + 1 } else { 0 }),
{
    if 0 < start <= max {
        seq![start] + powers_from(2 * start, max)
    } else {
        Seq::empty()
    }
}

/// The working-set grid made from a run of powers: each power, followed by the midpoint
/// `(a + b) / 2` between it and the next power; the last power closes the grid.
pub open spec fn grid_of(powers: Seq<int>) -> Seq<int> {
    let len: int = if powers.len() == 0 { 0 } else { 2 * powers.len() - 1 };
    Seq::new(
        len as nat,
        |k: int|
            if k % 2 == 0 {
                powers[k / 2]
            } else {
                (powers[k / 2] + powers[k / 2 + 1]) / 2
            },
    )
}

/// The grid that `build_sizes(min_bytes, max_bytes)` returns.
pub open spec fn size_grid(min_bytes: int, max_bytes: int) -> Seq<int> {
    grid_of(powers_from(min_bytes, max_bytes))
}

/// Doubling `min_bytes` up to `max_bytes` never goes past `u64::MAX`: each power of the run
/// can be doubled once more.
pub open spec fn doubling_fits(min_bytes: u64, max_bytes: u64) -> bool {
    forall|i: int|
        0 <= i < powers_from(min_bytes as int, max_bytes as int).len() ==> #[trigger] powers_from(
            min_bytes as int,
            max_bytes as int,
        )[i] <= u64::MAX / 2
}

/// Facts about the run: it starts at `start`, each power doubles the one before, and all of
/// them lie between `start` and `max`.
pub proof fn lemma_powers_shape(start: int, max: int)
    ensures
        powers_from(start, max).len() > 0 <==> 0 < start <= max,
        powers_from(start, max).len() > 0 ==> powers_from(start, max)[0] == start,
        forall|i: int|
            0 <= i < powers_from(start, max).len() ==> start <= #[trigger] powers_from(
                start,
                max,
            )[i] <= max,
        forall|i: int|
            0 <= i < powers_from(start, max).len() - 1 ==> #[trigger] powers_from(start, max)[i
                + 1] == 2 * powers_from(start, max)[i],
    decreases (if 0 < start <= max { max - start + 1 } else { 0 }),
{
    if 0 < start <= max {
        let rest = powers_from(2 * start, max);
        lemma_powers_shape(2 * start, max);
        let p = powers_from(start, max);
        assert(p == seq![start] + rest);
        assert forall|i: int| 0 <= i < p.len() implies start <= #[trigger] p[i] <= max by {
            if i > 0 {
                assert(p[i] == rest[i - 1]);
            }
        }
        assert forall|i: int| 0 <= i < p.len() - 1 implies #[trigger] p[i + 1] == 2 * p[i] by {
            assert(p[i + 1] == rest[i]);
            if i > 0 {
                assert(p[i] == rest[i - 1]);
                let h = i - 1;
                assert(rest[h + 1] == 2 * rest[h]);
            } else {
                assert(p[0] == start);
                assert(rest.len() > 0);
                assert(rest[0] == 2 * start);
            }
        }
    }
}

/// Law: the grid is empty exactly when `min_bytes` is above `max_bytes`; otherwise it starts
/// at `min_bytes`, ends at the largest doubling of `min_bytes` that is at most `max_bytes`,
/// and all its sizes lie between `min_bytes` and `max_bytes`.
pub proof fn lemma_size_grid_bounds(min_bytes: int, max_bytes: int)
    requires
        min_bytes > 0,
    ensures
        size_grid(min_bytes, max_bytes).len() == 0 <==> min_bytes > max_bytes,
        min_bytes <= max_bytes ==> size_grid(min_bytes, max_bytes)[0] == min_bytes,
        min_bytes <= max_bytes ==> size_grid(min_bytes, max_bytes).last() == powers_from(
            min_bytes,
            max_bytes,
        ).last(),
        min_bytes <= max_bytes ==> 2 * size_grid(min_bytes, max_bytes).last() > max_bytes,
        forall|k: int|
            0 <= k < size_grid(min_bytes, max_bytes).len() ==> min_bytes <= #[trigger] size_grid(
                min_bytes,
                max_bytes,
            )[k] <= max_bytes,
{
    let p = powers_from(min_bytes, max_bytes);
    let g = size_grid(min_bytes, max_bytes);
    lemma_powers_shape(min_bytes, max_bytes);
    assert forall|k: int| 0 <= k < g.len() implies min_bytes <= #[trigger] g[k] <= max_bytes by {
        if k % 2 == 1 {
            assert(p[k / 2 + 1] == 2 * p[k / 2]);
        }
    }
    if min_bytes <= max_bytes {
        lemma_last_power_is_largest(min_bytes, max_bytes);
        assert(g.last() == p[(g.len() - 1) / 2]);
    }
}

proof fn lemma_last_power_is_largest(start: int, max: int)
    requires
        0 < start <= max,
    ensures
        2 * powers_from(start, max).last() > max,
    decreases max - start + 1,
{
    let rest = powers_from(2 * start, max);
    if 2 * start <= max {
        lemma_last_power_is_largest(2 * start, max);
        assert(powers_from(start, max).last() == rest.last());
    } else {
        assert(powers_from(start, max) =~= seq![start]);
    }
}

/// Law: the grid has an odd number of sizes (or none); each size at an even position is twice
/// the one two positions before it, and each size at an odd position is the midpoint, rounded
/// down, of its two neighbours.
pub proof fn lemma_size_grid_shape(min_bytes: int, max_bytes: int)
    ensures
        size_grid(min_bytes, max_bytes).len() == 0 || size_grid(min_bytes, max_bytes).len() % 2
            == 1,
        forall|k: int|
            0 <= k && k % 2 == 0 && k + 2 < size_grid(min_bytes, max_bytes).len() ==> size_grid(
                min_bytes,
                max_bytes,
            )[k + 2] == 2 * #[trigger] size_grid(min_bytes, max_bytes)[k],
        forall|k: int|
            0 <= k < size_grid(min_bytes, max_bytes).len() && k % 2 == 1 ==> #[trigger] size_grid(
                min_bytes,
                max_bytes,
            )[k] == (size_grid(min_bytes, max_bytes)[k - 1] + size_grid(min_bytes, max_bytes)[k
                + 1]) / 2,
{
    let p = powers_from(min_bytes, max_bytes);
    let g = size_grid(min_bytes, max_bytes);
    lemma_powers_shape(min_bytes, max_bytes);
    assert forall|k: int| 0 <= k && k % 2 == 0 && k + 2 < g.len() implies g[k + 2] == 2
        * #[trigger] g[k] by {
        let i = k / 2;
        assert((k + 2) / 2 == i + 1);
        assert(g[k] == p[i]);
        assert(g[k + 2] == p[i + 1]);
        assert(p[i + 1] == 2 * p[i]);
    }
    assert forall|k: int| 0 <= k < g.len() && k % 2 == 1 implies #[trigger] g[k] == (g[k - 1]
        + g[k + 1]) / 2 by {
        let i = k / 2;
        assert((k - 1) / 2 == i);
        assert((k + 1) / 2 == i + 1);
        assert(g[k - 1] == p[i]);
        assert(g[k + 1] == p[i + 1]);
    }
}

/// Law: when `min_bytes` is at least 2 the grid is strictly increasing. (With `min_bytes == 1`
/// the first midpoint `(1 + 2) / 2` equals the first power, so the grid repeats 1.)
pub proof fn lemma_size_grid_strictly_increasing(min_bytes: int, max_bytes: int)
    requires
        min_bytes >= 2,
    ensures
        forall|k: int, l: int|
            0 <= k < l < size_grid(min_bytes, max_bytes).len() ==> size_grid(min_bytes, max_bytes)[k]
                < size_grid(min_bytes, max_bytes)[l],
{
    let p = powers_from(min_bytes, max_bytes);
    let g = size_grid(min_bytes, max_bytes);
    lemma_powers_shape(min_bytes, max_bytes);
    assert forall|k: int| 0 <= k < g.len() - 1 implies #[trigger] g[k] < g[k + 1] by {
        let i = k / 2;
        assert(p[i + 1] == 2 * p[i]);
        assert(p[i] >= 2);
        if k % 2 == 0 {
            assert(g[k] == p[i]);
            assert(g[k + 1] == (p[i] + p[i + 1]) / 2);
        } else {
            assert((k + 1) / 2 == i + 1);
            assert(g[k + 1] == p[i + 1]);
        }
    }
    assert forall|k: int, l: int| 0 <= k < l < g.len() implies g[k] < g[l] by {
        lemma_chain_increasing(g, k, l);
    }
}

proof fn lemma_chain_increasing(g: Seq<int>, k: int, l: int)
    requires
        0 <= k < l < g.len(),
        forall|t: int| 0 <= t < g.len() - 1 ==> #[trigger] g[t] < g[t + 1],
    ensures
        g[k] < g[l],
    decreases l - k,
{
    if l > k + 1 {
        lemma_chain_increasing(g, k, l - 1);
        assert(g[l - 1] < g[l]);
    } else {
        assert(g[k] < g[k + 1]);
    }
}

proof fn lemma_grid_facts_carry_over(min_bytes: u64, max_bytes: u64, sizes: Seq<u64>)
    requires
        min_bytes > 0,
        sizes.len() == size_grid(min_bytes as int, max_bytes as int).len(),
        forall|k: int|
            0 <= k < sizes.len() ==> sizes[k] as int == #[trigger] size_grid(
                min_bytes as int,
                max_bytes as int,
            )[k],
    ensures
        sizes.len() == 0 <==> min_bytes > max_bytes,
        sizes.len() > 0 ==> sizes[0] == min_bytes && sizes.len() % 2 == 1,
        sizes.len() > 0 ==> sizes.last() <= max_bytes && 2 * sizes.last() > max_bytes,
        forall|k: int|
            0 <= k && k % 2 == 0 && k + 2 < sizes.len() ==> sizes[k + 2] == 2 * #[trigger] sizes[k],
        forall|k: int|
            0 <= k < sizes.len() && k % 2 == 1 ==> #[trigger] sizes[k] == (sizes[k - 1] + sizes[k
                + 1]) / 2,
{
    let g = size_grid(min_bytes as int, max_bytes as int);
    lemma_size_grid_shape(min_bytes as int, max_bytes as int);
    lemma_size_grid_bounds(min_bytes as int, max_bytes as int);
    if sizes.len() > 0 {
        assert(sizes.last() == sizes[sizes.len() - 1]);
        assert(g.last() == g[g.len() - 1]);
        assert(sizes[0] as int == g[0]);
        assert(sizes[sizes.len() - 1] as int == g[g.len() - 1]);
    }
    assert forall|k: int| 0 <= k && k % 2 == 0 && k + 2 < sizes.len() implies sizes[k + 2] == 2
        * #[trigger] sizes[k] by {
        assert(sizes[k] as int == g[k]);
        assert(sizes[k + 2] as int == g[k + 2]);
    }
    assert forall|k: int| 0 <= k < sizes.len() && k % 2 == 1 implies #[trigger] sizes[k] == (
    sizes[k - 1] + sizes[k + 1]) / 2 by {
        assert(sizes[k] as int == g[k]);
        assert(sizes[k - 1] as int == g[k - 1]);
        assert(sizes[k + 1] as int == g[k + 1]);
    }
}

/// Builds the working-set schedule: the doublings of `min_bytes` up to `max_bytes`, with one
/// midpoint between each adjacent pair.
pub fn build_sizes(min_bytes: u64, max_bytes: u64) -> (sizes: Vec<u64>)
    requires
        min_bytes > 0,
        doubling_fits(min_bytes, max_bytes),
    ensures
        sizes@.len() == size_grid(min_bytes as int, max_bytes as int).len(),
        forall|k: int|
            0 <= k < sizes@.len() ==> sizes@[k] as int == #[trigger] size_grid(
                min_bytes as int,
                max_bytes as int,
            )[k],
        sizes@.len() == 0 <==> min_bytes > max_bytes,
        sizes@.len() > 0 ==> sizes@[0] == min_bytes && sizes@.len() % 2 == 1,
        sizes@.len() > 0 ==> sizes@.last() <= max_bytes && 2 * sizes@.last() > max_bytes,
        forall|k: int|
            0 <= k && k % 2 == 0 && k + 2 < sizes@.len() ==> sizes@[k + 2] == 2
                * #[trigger] sizes@[k],
        forall|k: int|
            0 <= k < sizes@.len() && k % 2 == 1 ==> #[trigger] sizes@[k] == (sizes@[k - 1]
                + sizes@[k + 1]) / 2,
{
    let ghost all = powers_from(min_bytes as int, max_bytes as int);
    proof {
        lemma_powers_shape(min_bytes as int, max_bytes as int);
    }
    let mut powers: Vec<u64> = Vec::new();
    let mut value = min_bytes;
    proof {
        assert(all =~= powers@.map_values(|x: u64| x as int) + powers_from(
            value as int,
            max_bytes as int,
        ));
    }
    while value <= max_bytes
        invariant
            value > 0,
            min_bytes > 0,
            doubling_fits(min_bytes, max_bytes),
            all == powers_from(min_bytes as int, max_bytes as int),
            all == powers@.map_values(|x: u64| x as int) + powers_from(
                value as int,
                max_bytes as int,
            ),
        decreases u64::MAX - value,
    {
        let ghost before = powers@;
        proof {
            let rest = powers_from(value as int, max_bytes as int);
            assert(rest == seq![value as int] + powers_from(2 * value as int, max_bytes as int));
            assert(all[before.len() as int] == value as int);
            assert(value <= u64::MAX / 2);
        }
        powers.push(value);
        value = value * 2;
        proof {
            assert(all =~= powers@.map_values(|x: u64| x as int) + powers_from(
                value as int,
                max_bytes as int,
            ));
        }
    }
    proof {
        assert(powers_from(value as int, max_bytes as int) =~= Seq::<int>::empty());
        assert(all =~= powers@.map_values(|x: u64| x as int));
    }
    let ghost grid = grid_of(all);
    let np = powers.len();
    let mut sizes: Vec<u64> = Vec::new();
    let mut i: usize = 0;
    while i + 1 < np
        invariant
            np == powers@.len(),
            np == all.len(),
            i + 1 <= np || np == 0,
            i <= np,
            doubling_fits(min_bytes, max_bytes),
            all == powers_from(min_bytes as int, max_bytes as int),
            forall|t: int| 0 <= t < np ==> all[t] == powers@[t] as int,
            forall|t: int| 0 <= t < np - 1 ==> #[trigger] all[t + 1] == 2 * all[t],
            grid == grid_of(all),
            sizes@.len() == 2 * i,
            forall|k: int| 0 <= k < 2 * i ==> sizes@[k] as int == #[trigger] grid[k],
        decreases np - i,
    {
        let a = powers[i];
        let b = powers[i + 1];
        proof {
            assert(all[i as int + 1] == 2 * all[i as int]);
            assert(all[i as int + 1] <= u64::MAX / 2);
        }
        sizes.push(a);
        sizes.push((a + b) / 2);
        proof {
            assert forall|k: int| 0 <= k < 2 * (i + 1) implies sizes@[k] as int == #[trigger] grid[k] by {
                if k == 2 * i {
                    assert(k / 2 == i);
                } else if k == 2 * i + 1 {
                    assert(k / 2 == i);
                }
            }
        }
        i = i + 1;
    }
    if np > 0 {
        let last = powers[np - 1];
        sizes.push(last);
        proof {
            assert(i + 1 == np);
            assert forall|k: int| 0 <= k < sizes@.len() implies sizes@[k] as int == #[trigger] grid[k] by {
                if k == 2 * i {
                    assert(k / 2 == i);
                }
            }
        }
    }
    proof {
        lemma_grid_facts_carry_over(min_bytes, max_bytes, sizes@);
    }
    sizes
}

} // verus!
