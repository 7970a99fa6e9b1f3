use vstd::prelude::*;

verus! {

/// How strong a latency knee is.
#[derive(Clone, Copy, Debug, PartialEq, Eq, Structural)]
pub enum KneeClass {
    Minor,
    Major,
}

/// A step between two adjacent working-set sizes whose latency ratio reaches a knee threshold.
/// The ratio is carried as its order key: keys compare as the ratios do.
#[derive(Clone, Copy, Debug)]
pub struct KneePoint {
    /// Position of the smaller size of the pair among the aggregate rows.
    pub index: usize,
    /// Order key of the latency ratio of the pair.
    pub ratio_key: u64,
    pub class: KneeClass,
}

/// Neighbouring knee points merged into one transition zone.
#[derive(Clone, Copy, Debug)]
pub struct KneeZone {
    pub start_index: usize,
    pub end_index: usize,
    /// Order key of the largest ratio in the zone.
    pub peak_key: u64,
    pub class: KneeClass,
}

/// The knee thresholds, as order keys of the ratios they stand for.
#[derive(Clone, Copy, Debug)]
pub struct KneeThresholds {
    pub minor_key: u64,
    pub major_key: u64,
}

/// A stretch of working-set sizes with one latency regime.
#[derive(Clone, Copy, Debug)]
pub struct Region {
    pub label: &'static str,
    pub from_size: u64,
    pub to_size: u64,
}

/// The report name of a knee class: "minor" or "major".
pub fn class_name(class: KneeClass) -> (r: &'static str)
    ensures
        class == KneeClass::Minor ==> r@ == "minor"@,
        class == KneeClass::Major ==> r@ == "major"@,
{
    match class {
        KneeClass::Minor => "minor",
        KneeClass::Major => "major",
    }
}

/// Ascending order on ratio keys.
pub open spec fn key_leq() -> spec_fn(u64, u64) -> bool {
    |a: u64, b: u64| a <= b
}

/// The position in a sorted list of `n` values that the nearest-rank method picks for
/// `percentile`: rank `ceil(percentile * n / 100)`, counted from 1 and kept within the list.
pub open spec fn nearest_rank_position(n: nat, percentile: nat) -> int {
    let rank: int = ((percentile * n + 99) / 100) as int;
    let below: int = if rank >= 1 { rank - 1 } else { 0 };
    if below < n - 1 {
        below
    } else {
        n - 1
    }
}

proof fn lemma_key_leq_total()
    ensures
        vstd::relations::total_ordering(key_leq()),
{
    let leq = key_leq();
    assert(vstd::relations::reflexive(leq));
    assert(vstd::relations::antisymmetric(leq));
    assert(vstd::relations::transitive(leq));
    assert(vstd::relations::strongly_connected(leq));
}

/// The keys of `values` in ascending order.
fn sort_ascending(values: &Vec<u64>) -> (r: Vec<u64>)
    ensures
        r@ == values@.sort_by(key_leq()),
{
    broadcast use vstd::seq_lib::group_to_multiset_ensures;
    broadcast use vstd::seq_lib::lemma_multiset_commutative;

    let ghost leq = key_leq();
    let mut sorted: Vec<u64> = Vec::new();
    let mut i: usize = 0;
    proof {
        assert(values@.take(0) =~= Seq::<u64>::empty());
    }
    while i < values.len()
        invariant
            i <= values@.len(),
            leq == key_leq(),
            vstd::relations::sorted_by(sorted@, leq),
            sorted@.to_multiset() == values@.take(i as int).to_multiset(),
        decreases values@.len() - i,
    {
        let x = values[i];
        let mut pos: usize = 0;
        while pos < sorted.len() && sorted[pos] <= x
            invariant
                pos <= sorted@.len(),
                forall|t: int| 0 <= t < pos ==> sorted@[t] <= x,
            decreases sorted@.len() - pos,
        {
            pos = pos + 1;
        }
        let ghost old_sorted = sorted@;
        proof {
            assert forall|t: int| pos <= t < old_sorted.len() implies old_sorted[t] > x by {
                assert(leq(old_sorted[pos as int], old_sorted[t]) || pos as int == t);
            }
        }
        sorted.insert(pos, x);
        proof {
            old_sorted.insert_ensures(pos as int, x);
            let s = sorted@;
            assert forall|a: int, b: int| 0 <= a < b < s.len() implies #[trigger] leq(s[a], s[b]) by {
                if b < pos {
                    assert(leq(old_sorted[a], old_sorted[b]));
                } else if b == pos {
                    assert(s[a] == old_sorted[a]);
                } else if a < pos {
                    assert(s[b] == old_sorted[b - 1]);
                } else if a == pos {
                    assert(s[b] == old_sorted[b - 1]);
                } else {
                    assert(s[a] == old_sorted[a - 1]);
                    assert(s[b] == old_sorted[b - 1]);
                    assert(leq(old_sorted[a - 1], old_sorted[b - 1]));
                }
            }
            let prefix = old_sorted.subrange(0, pos as int);
            let rest = old_sorted.subrange(pos as int, old_sorted.len() as int);
            assert(old_sorted =~= prefix + rest);
            assert(s =~= prefix.push(x) + rest);
            assert(values@.take(i + 1) =~= values@.take(i as int).push(x));
            vstd::seq_lib::lemma_multiset_commutative(prefix.push(x), rest);
            vstd::seq_lib::lemma_multiset_commutative(prefix, rest);
            prefix.to_multiset_ensures();
            values@.take(i as int).to_multiset_ensures();
            assert(s.to_multiset() =~= prefix.push(x).to_multiset().add(rest.to_multiset()));
            assert(prefix.push(x).to_multiset() =~= prefix.to_multiset().insert(x));
            assert(old_sorted.to_multiset() =~= prefix.to_multiset().add(rest.to_multiset()));
            assert(values@.take(i + 1).to_multiset() =~= values@.take(i as int).to_multiset().insert(x));
            assert(s.to_multiset() =~= values@.take(i + 1).to_multiset()) by {
                broadcast use vstd::multiset::group_multiset_axioms;
            }
        }
        i = i + 1;
    }
    proof {
        assert(values@.take(values@.len() as int) =~= values@);
        lemma_key_leq_total();
        values@.lemma_sort_by_ensures(leq);
        vstd::seq_lib::lemma_sorted_unique(sorted@, values@.sort_by(leq), leq);
    }
    sorted
}

/// Law: a higher percentile never picks a smaller value, so the P50, P90 and P97 of the same
/// ratios come in that order.
pub proof fn lemma_percentile_monotone(values: Seq<u64>, low: nat, high: nat)
    requires
        values.len() > 0,
        low <= high,
    ensures
        values.sort_by(key_leq())[nearest_rank_position(values.len(), low)] <= values.sort_by(
            key_leq(),
        )[nearest_rank_position(values.len(), high)],
{
    broadcast use vstd::seq_lib::group_to_multiset_ensures;

    let n = values.len();
    let sorted = values.sort_by(key_leq());
    lemma_key_leq_total();
    values.lemma_sort_by_ensures(key_leq());
    assert(sorted.to_multiset().len() == sorted.len());
    assert(values.to_multiset().len() == values.len());
    assert(low * n <= high * n) by (nonlinear_arith)
        requires
            low <= high,
    ;
    vstd::arithmetic::div_mod::lemma_div_is_ordered((low * n + 99) as int, (high * n + 99) as int, 100);
    let a = nearest_rank_position(n, low);
    let b = nearest_rank_position(n, high);
    assert(0 <= a <= b < n);
    if a < b {
        assert(key_leq()(sorted[a], sorted[b]));
    }
}

/// The nearest-rank `percentile` of `values`, taken from their ascending order; none for an
/// empty list.
pub fn nearest_rank_percentile(values: Vec<u64>, percentile: u32) -> (r: Option<u64>)
    requires
        percentile * values@.len() + 99 <= usize::MAX,
    ensures
        values@.len() == 0 ==> r is None,
        values@.len() > 0 ==> r == Some(
            values@.sort_by(key_leq())[nearest_rank_position(
                values@.len(),
                percentile as nat,
            )],
        ),
{
    if values.len() == 0 {
        return None;
    }
    let sorted = sort_ascending(&values);
    proof {
        lemma_key_leq_total();
        values@.lemma_sort_by_ensures(key_leq());
    }
    let n = sorted.len();
    assert(n == values@.len()) by {
        broadcast use vstd::seq_lib::group_to_multiset_ensures;

        assert(sorted@.to_multiset().len() == sorted@.len());
        assert(values@.to_multiset().len() == values@.len());
    }
    let rank = ((percentile as usize) * n + 99) / 100;
    let below = if rank >= 1 { rank - 1 } else { 0 };
    let idx = if below < n - 1 { below } else { n - 1 };
    Some(sorted[idx])
}

/// The knee point that a ratio with order key `key` between rows `index` and `index + 1`
/// makes: major from the major threshold up, minor from the minor threshold up, none below.
pub open spec fn classify_one(index: usize, key: u64, thresholds: KneeThresholds) -> Option<
    KneePoint,
> {
    if key >= thresholds.major_key {
        Some(KneePoint { index, ratio_key: key, class: KneeClass::Major })
    } else if key >= thresholds.minor_key {
        Some(KneePoint { index, ratio_key: key, class: KneeClass::Minor })
    } else {
        None
    }
}

/// The knee points of a list of adjacent ratios, in the order of the list.
pub open spec fn classified(adjacents: Seq<(usize, u64)>, thresholds: KneeThresholds) -> Seq<
    KneePoint,
>
    decreases adjacents.len(),
{
    if adjacents.len() == 0 {
        Seq::empty()
    } else {
        let rest = classified(adjacents.drop_last(), thresholds);
        match classify_one(adjacents.last().0, adjacents.last().1, thresholds) {
            Some(point) => rest.push(point),
            None => rest,
        }
    }
}

/// Classifies each adjacent ratio (row index, order key of the ratio) as a minor or major knee
/// candidate, keeping the order of the list and dropping the ratios below both thresholds.
pub fn classify_knee_points(adjacents: &[(usize, u64)], thresholds: KneeThresholds) -> (points:
    Vec<KneePoint>)
    ensures
        points@ == classified(adjacents@, thresholds),
{
    let mut points: Vec<KneePoint> = Vec::new();
    let mut i: usize = 0;
    while i < adjacents.len()
        invariant
            i <= adjacents@.len(),
            points@ == classified(adjacents@.take(i as int), thresholds),
        decreases adjacents@.len() - i,
    {
        let (index, ratio_key) = adjacents[i];
        proof {
            assert(adjacents@.take(i + 1).drop_last() =~= adjacents@.take(i as int));
            assert(adjacents@.take(i + 1).last() == (index, ratio_key));
        }
        if ratio_key >= thresholds.major_key {
            points.push(KneePoint { index, ratio_key, class: KneeClass::Major });
        } else if ratio_key >= thresholds.minor_key {
            points.push(KneePoint { index, ratio_key, class: KneeClass::Minor });
        }
        i = i + 1;
    }
    proof {
        assert(adjacents@.take(adjacents@.len() as int) =~= adjacents@);
    }
    points
}

/// The adjacent ratios come in order of strictly increasing row index.
pub open spec fn adjacents_increasing(adjacents: Seq<(usize, u64)>) -> bool {
    forall|i: int, j: int| 0 <= i < j < adjacents.len() ==> adjacents[i].0 < adjacents[j].0
}

/// Law: classification keeps the order of the ratios, and each knee point comes from one of
/// them with its row index and ratio.
pub proof fn lemma_classified_keeps_order(adjacents: Seq<(usize, u64)>, thresholds: KneeThresholds)
    requires
        adjacents_increasing(adjacents),
    ensures
        indices_increasing(classified(adjacents, thresholds)),
        forall|i: int|
            0 <= i < classified(adjacents, thresholds).len() ==> exists|j: int|
                0 <= j < adjacents.len() && adjacents[j].0 == #[trigger] classified(
                    adjacents,
                    thresholds,
                )[i].index && adjacents[j].1 == classified(adjacents, thresholds)[i].ratio_key,
    decreases adjacents.len(),
{
    if adjacents.len() > 0 {
        let prev = adjacents.drop_last();
        let rest = classified(prev, thresholds);
        let last = adjacents.last();
        let out = classified(adjacents, thresholds);
        lemma_classified_keeps_order(prev, thresholds);
        assert forall|i: int| 0 <= i < rest.len() implies #[trigger] rest[i].index < last.0 by {
            let j = choose|j: int| 0 <= j < prev.len() && prev[j].0 == rest[i].index && prev[j].1 == rest[i].ratio_key;
            assert(adjacents[j] == prev[j]);
        }
        assert forall|i: int| 0 <= i < out.len() implies exists|j: int|
            0 <= j < adjacents.len() && adjacents[j].0 == #[trigger] out[i].index
                && adjacents[j].1 == out[i].ratio_key by {
            if i < rest.len() {
                assert(out[i] == rest[i]);
                let j = choose|j: int| 0 <= j < prev.len() && prev[j].0 == rest[i].index && prev[j].1 == rest[i].ratio_key;
                assert(adjacents[j] == prev[j]);
            } else {
                assert(adjacents[adjacents.len() - 1] == last);
            }
        }
        assert forall|a: int, b: int| 0 <= a < b < out.len() implies out[a].index < out[b].index by {
            assert(out[a] == rest[a]);
            if b < rest.len() {
                assert(out[b] == rest[b]);
            } else {
                assert(rest[a].index < last.0);
            }
        }
    }
}

/// Law: the knee points are exactly the adjacent ratios whose key reaches a threshold, compared
/// as whole `u64` keys: every point is one of the ratios, with its row index and key; it is
/// major exactly when its key is at least `major_key`, and a minor point's key is at least
/// `minor_key`; and every ratio whose key reaches either threshold appears among the points.
pub proof fn lemma_classified_exact(adjacents: Seq<(usize, u64)>, thresholds: KneeThresholds)
    ensures
        forall|i: int|
            0 <= i < classified(adjacents, thresholds).len() ==> {
                let p = #[trigger] classified(adjacents, thresholds)[i];
                &&& exists|j: int|
                    0 <= j < adjacents.len() && adjacents[j] == (p.index, p.ratio_key)
                &&& (p.class == KneeClass::Minor ==> p.ratio_key >= thresholds.minor_key)
                &&& (p.class == KneeClass::Major <==> p.ratio_key >= thresholds.major_key)
            },
        forall|j: int|
            0 <= j < adjacents.len() && (#[trigger] adjacents[j].1 >= thresholds.minor_key
                || adjacents[j].1 >= thresholds.major_key) ==> exists|i: int|
                0 <= i < classified(adjacents, thresholds).len() && classified(
                    adjacents,
                    thresholds,
                )[i].index == adjacents[j].0 && classified(adjacents, thresholds)[i].ratio_key
                    == adjacents[j].1,
    decreases adjacents.len(),
{
    if adjacents.len() > 0 {
        let prev = adjacents.drop_last();
        let rest = classified(prev, thresholds);
        let last = adjacents.last();
        let out = classified(adjacents, thresholds);
        lemma_classified_exact(prev, thresholds);
        assert(last == adjacents[adjacents.len() - 1]);
        assert forall|i: int| 0 <= i < out.len() implies {
            let p = #[trigger] out[i];
            &&& exists|j: int| 0 <= j < adjacents.len() && adjacents[j] == (p.index, p.ratio_key)
            &&& (p.class == KneeClass::Minor ==> p.ratio_key >= thresholds.minor_key)
            &&& (p.class == KneeClass::Major <==> p.ratio_key >= thresholds.major_key)
        } by {
            if i < rest.len() {
                let p = rest[i];
                assert(out[i] == p);
                assert(exists|j: int| 0 <= j < prev.len() && prev[j] == (p.index, p.ratio_key));
                let j = choose|j: int| 0 <= j < prev.len() && prev[j] == (p.index, p.ratio_key);
                assert(adjacents[j] == prev[j]);
                assert(p.class == KneeClass::Minor ==> p.ratio_key >= thresholds.minor_key);
                assert(p.class == KneeClass::Major <==> p.ratio_key >= thresholds.major_key);
            } else {
                assert(classify_one(last.0, last.1, thresholds) is Some);
                let pt = classify_one(last.0, last.1, thresholds).unwrap();
                assert(out == rest.push(pt));
                assert(out[i] == pt);
                let j = adjacents.len() - 1;
                assert(adjacents[j] == (pt.index, pt.ratio_key));
                assert(pt.class == KneeClass::Minor ==> pt.ratio_key >= thresholds.minor_key);
                assert(pt.class == KneeClass::Major <==> pt.ratio_key >= thresholds.major_key);
            }
        }
        assert forall|j: int| 0 <= j < adjacents.len() && (#[trigger] adjacents[j].1
            >= thresholds.minor_key || adjacents[j].1 >= thresholds.major_key) implies exists|i: int|
            0 <= i < out.len() && out[i].index == adjacents[j].0 && out[i].ratio_key
                == adjacents[j].1 by {
            if j < prev.len() {
                assert(prev[j] == adjacents[j]);
                assert(prev[j].1 >= thresholds.minor_key || prev[j].1 >= thresholds.major_key);
                let i = choose|i: int|
                    0 <= i < rest.len() && rest[i].index == prev[j].0 && rest[i].ratio_key
                        == prev[j].1;
                assert(out[i] == rest[i]);
            } else {
                let pt = classify_one(last.0, last.1, thresholds).unwrap();
                assert(out == rest.push(pt));
                assert(out[rest.len() as int].index == adjacents[j].0);
            }
        }
    }
}

/// Adds one knee point to a list of zones: a point at most one row past the end of the last
/// zone widens that zone (its end moves to the point, its peak to the larger ratio, and it
/// becomes major with a major point); any other point opens a zone of its own.
pub open spec fn merge_step(zones: Seq<KneeZone>, point: KneePoint) -> Seq<KneeZone> {
    if zones.len() > 0 && point.index <= zones.last().end_index + 1 {
        let last = zones.last();
        zones.update(
            zones.len() - 1,
            KneeZone {
                start_index: last.start_index,
                end_index: point.index,
                peak_key: if point.ratio_key > last.peak_key {
                    point.ratio_key
                } else {
                    last.peak_key
                },
                class: if point.class == KneeClass::Major {
                    KneeClass::Major
                } else {
                    last.class
                },
            },
        )
    } else {
        zones.push(
            KneeZone {
                start_index: point.index,
                end_index: point.index,
                peak_key: point.ratio_key,
                class: point.class,
            },
        )
    }
}

/// The zones that the knee points make, added one after the other.
pub open spec fn merged(points: Seq<KneePoint>) -> Seq<KneeZone>
    decreases points.len(),
{
    if points.len() == 0 {
        Seq::empty()
    } else {
        merge_step(merged(points.drop_last()), points.last())
    }
}

pub(crate) proof fn lemma_merged_last_end(points: Seq<KneePoint>)
    requires
        points.len() > 0,
    ensures
        merged(points).len() > 0,
        merged(points).last().end_index == points.last().index,
{
}

/// The knee points come in order of strictly increasing row index, as a classification of the
/// adjacent ratios of the rows in their order gives them.
pub open spec fn indices_increasing(points: Seq<KneePoint>) -> bool {
    forall|i: int, j: int| 0 <= i < j < points.len() ==> points[i].index < points[j].index
}

/// Each zone spans at least its start row, and between two consecutive zones lies at least one
/// row that belongs to neither.
pub open spec fn zones_separated(zones: Seq<KneeZone>) -> bool {
    &&& forall|k: int| 0 <= k < zones.len() ==> #[trigger] zones[k].start_index <= zones[k].end_index
    &&& forall|k: int|
        0 <= k < zones.len() - 1 ==> #[trigger] zones[k].end_index + 1 < zones[k + 1].start_index
}

/// `zone` takes in `point`: the point's row lies in the zone, the zone's peak is at least the
/// point's ratio, and a major point makes a major zone.
pub open spec fn zone_covers(zone: KneeZone, point: KneePoint) -> bool {
    &&& zone.start_index <= point.index <= zone.end_index
    &&& point.ratio_key <= zone.peak_key
    &&& point.class == KneeClass::Major ==> zone.class == KneeClass::Major
}

/// Some zone of `zones` takes in `point`.
pub open spec fn point_covered(zones: Seq<KneeZone>, point: KneePoint) -> bool {
    exists|k: int| 0 <= k < zones.len() && #[trigger] zone_covers(zones[k], point)
}

/// Law: merging knee points given in increasing row order yields separated zones that together
/// take in every point.
pub proof fn lemma_merged_zones_separate_and_cover(points: Seq<KneePoint>)
    requires
        indices_increasing(points),
    ensures
        zones_separated(merged(points)),
        forall|i: int| 0 <= i < points.len() ==> point_covered(merged(points), #[trigger] points[i]),
    decreases points.len(),
{
    if points.len() > 0 {
        let prev = points.drop_last();
        let p = points.last();
        let zs = merged(prev);
        let out = merged(points);
        lemma_merged_zones_separate_and_cover(prev);
        assert(out == merge_step(zs, p));
        if prev.len() > 0 {
            lemma_merged_last_end(prev);
            assert(prev.last().index < p.index);
        }
        if zs.len() > 0 && p.index <= zs.last().end_index + 1 {
            let last = zs.len() - 1;
            assert(out[last].start_index == zs[last].start_index);
            assert(out[last].end_index == p.index);
            assert forall|k: int| 0 <= k < out.len() implies #[trigger] out[k].start_index
                <= out[k].end_index by {
                if k != last {
                    assert(out[k] == zs[k]);
                }
            }
            assert forall|k: int| 0 <= k < out.len() - 1 implies #[trigger] out[k].end_index + 1
                < out[k + 1].start_index by {
                assert(out[k] == zs[k]);
            }
            assert forall|i: int| 0 <= i < points.len() implies point_covered(
                out,
                #[trigger] points[i],
            ) by {
                if i == points.len() - 1 {
                    assert(zone_covers(out[last], p));
                } else {
                    assert(prev[i] == points[i]);
                    assert(point_covered(zs, prev[i]));
                    let k = choose|k: int| 0 <= k < zs.len() && #[trigger] zone_covers(zs[k], prev[i]);
                    assert(zone_covers(out[k], points[i]));
                }
            }
        } else {
            let last = zs.len() as int;
            assert(out == zs.push(
                KneeZone {
                    start_index: p.index,
                    end_index: p.index,
                    peak_key: p.ratio_key,
                    class: p.class,
                },
            ));
            assert forall|k: int| 0 <= k < out.len() implies #[trigger] out[k].start_index
                <= out[k].end_index by {
                if k != last {
                    assert(out[k] == zs[k]);
                }
            }
            assert forall|k: int| 0 <= k < out.len() - 1 implies #[trigger] out[k].end_index + 1
                < out[k + 1].start_index by {
                assert(out[k] == zs[k]);
                if k + 1 < last {
                    assert(out[k + 1] == zs[k + 1]);
                }
            }
            assert forall|i: int| 0 <= i < points.len() implies point_covered(
                out,
                #[trigger] points[i],
            ) by {
                if i == points.len() - 1 {
                    assert(zone_covers(out[last], p));
                } else {
                    assert(prev[i] == points[i]);
                    assert(point_covered(zs, prev[i]));
                    let k = choose|k: int| 0 <= k < zs.len() && #[trigger] zone_covers(zs[k], prev[i]);
                    assert(out[k] == zs[k]);
                    assert(zone_covers(out[k], points[i]));
                }
            }
        }
    }
}

/// `point` lies inside the rows of `zone`.
pub open spec fn point_in_zone(zone: KneeZone, point: KneePoint) -> bool {
    zone.start_index <= point.index <= zone.end_index
}

/// `zone` is made of `points`: it starts and ends at rows of points, its peak is the ratio of a
/// point inside it, and it is major only with a major point inside it.
pub open spec fn zone_from_points(zone: KneeZone, points: Seq<KneePoint>) -> bool {
    &&& exists|i: int| 0 <= i < points.len() && #[trigger] points[i].index == zone.start_index
    &&& exists|i: int| 0 <= i < points.len() && #[trigger] points[i].index == zone.end_index
    &&& exists|i: int|
        0 <= i < points.len() && point_in_zone(zone, #[trigger] points[i]) && points[i].ratio_key
            == zone.peak_key
    &&& zone.class == KneeClass::Major ==> exists|i: int|
        0 <= i < points.len() && point_in_zone(zone, #[trigger] points[i]) && points[i].class
            == KneeClass::Major
}

proof fn lemma_zone_from_prefix(zone: KneeZone, points: Seq<KneePoint>)
    requires
        points.len() > 0,
        zone_from_points(zone, points.drop_last()),
    ensures
        zone_from_points(zone, points),
{
    let prev = points.drop_last();
    let a = choose|i: int| 0 <= i < prev.len() && #[trigger] prev[i].index == zone.start_index;
    assert(points[a] == prev[a]);
    let b = choose|i: int| 0 <= i < prev.len() && #[trigger] prev[i].index == zone.end_index;
    assert(points[b] == prev[b]);
    let c = choose|i: int|
        0 <= i < prev.len() && point_in_zone(zone, #[trigger] prev[i]) && prev[i].ratio_key
            == zone.peak_key;
    assert(points[c] == prev[c]);
    if zone.class == KneeClass::Major {
        let d = choose|i: int|
            0 <= i < prev.len() && point_in_zone(zone, #[trigger] prev[i]) && prev[i].class
                == KneeClass::Major;
        assert(points[d] == prev[d]);
    }
}

proof fn lemma_zone_widened(zone: KneeZone, points: Seq<KneePoint>)
    requires
        points.len() > 0,
        zone_from_points(zone, points.drop_last()),
        zone.start_index <= zone.end_index < points.last().index,
    ensures
        zone_from_points(merge_step(seq![zone], points.last())[0], points),
{
    let p = points.last();
    let last_i = points.len() - 1;
    assert(p == points[last_i]);
    let nz = merge_step(seq![zone], p)[0];
    lemma_zone_from_prefix(zone, points);
    let c = choose|i: int|
        0 <= i < points.len() && point_in_zone(zone, #[trigger] points[i]) && points[i].ratio_key
            == zone.peak_key;
    if p.index <= zone.end_index + 1 {
        assert(nz.start_index == zone.start_index);
        assert(nz.end_index == p.index);
        assert(point_in_zone(nz, points[last_i]));
        assert(point_in_zone(nz, points[c]));
        if zone.class == KneeClass::Major {
            let d = choose|i: int|
                0 <= i < points.len() && point_in_zone(zone, #[trigger] points[i])
                    && points[i].class == KneeClass::Major;
            assert(point_in_zone(nz, points[d]));
        }
    } else {
        assert(nz == zone);
    }
}

/// Law: merging knee points given in increasing row order invents nothing: each zone starts and
/// ends at rows of its points, its peak is the ratio of one of its points, and it is major only
/// when one of its points is major (a zone of minor points stays minor).
pub proof fn lemma_merged_zones_come_from_points(points: Seq<KneePoint>)
    requires
        indices_increasing(points),
    ensures
        forall|k: int|
            0 <= k < merged(points).len() ==> zone_from_points(#[trigger] merged(points)[k], points),
    decreases points.len(),
{
    if points.len() > 0 {
        let prev = points.drop_last();
        let p = points.last();
        let last_i = points.len() - 1;
        assert(p == points[last_i]);
        let zs = merged(prev);
        let out = merged(points);
        assert(indices_increasing(prev)) by {
            assert forall|a: int, b: int| 0 <= a < b < prev.len() implies prev[a].index
                < prev[b].index by {
                assert(prev[a] == points[a]);
                assert(prev[b] == points[b]);
            }
        }
        lemma_merged_zones_come_from_points(prev);
        lemma_merged_zones_separate_and_cover(prev);
        assert(out == merge_step(zs, p));
        let merging = zs.len() > 0 && p.index <= zs.last().end_index + 1;
        let lk = zs.len() - 1;
        if zs.len() > 0 {
            lemma_merged_last_end(prev);
            assert(prev.last() == prev[prev.len() - 1]);
            assert(prev[prev.len() - 1] == points[prev.len() - 1]);
            assert(zs.last() == zs[lk]);
            assert(zs[lk].start_index <= zs[lk].end_index);
        }
        assert forall|k: int| 0 <= k < out.len() implies zone_from_points(#[trigger] out[k], points) by {
            if k < zs.len() && !(merging && k == lk) {
                assert(out[k] == zs[k]);
                assert(zone_from_points(zs[k], prev));
                lemma_zone_from_prefix(zs[k], points);
            } else if k < zs.len() {
                assert(zone_from_points(zs[lk], prev));
                lemma_zone_widened(zs[lk], points);
                assert(out[k] == merge_step(seq![zs[lk]], p)[0]);
            } else {
                assert(out[k].start_index == p.index);
                assert(out[k].end_index == p.index);
                assert(point_in_zone(out[k], points[last_i]));
            }
        }
    }
}

/// Merges neighbouring knee points (at most one row apart) into wider transition zones.
pub fn merge_knee_points(points: &[KneePoint]) -> (zones: Vec<KneeZone>)
    requires
        forall|i: int| 0 <= i < points@.len() - 1 ==> #[trigger] points@[i].index < usize::MAX,
    ensures
        zones@ == merged(points@),
{
    let mut zones: Vec<KneeZone> = Vec::new();
    let mut i: usize = 0;
    while i < points.len()
        invariant
            i <= points@.len(),
            forall|t: int| 0 <= t < points@.len() - 1 ==> #[trigger] points@[t].index < usize::MAX,
            zones@ == merged(points@.take(i as int)),
            i > 0 ==> zones@.len() > 0 && zones@.last().end_index == points@[i - 1].index,
        decreases points@.len() - i,
    {
        let point = points[i];
        proof {
            assert(points@.take(i + 1).drop_last() =~= points@.take(i as int));
            assert(points@.take(i + 1).last() == point);
            if i > 0 {
                assert(points@[i - 1].index < usize::MAX);
            }
        }
        let nz = zones.len();
        if nz > 0 && point.index <= zones[nz - 1].end_index + 1 {
            let last = zones[nz - 1];
            let peak_key = if point.ratio_key > last.peak_key {
                point.ratio_key
            } else {
                last.peak_key
            };
            let class = match point.class {
                KneeClass::Major => KneeClass::Major,
                KneeClass::Minor => last.class,
            };
            zones.set(
                nz - 1,
                KneeZone { start_index: last.start_index, end_index: point.index, peak_key, class },
            );
        } else {
            zones.push(
                KneeZone {
                    start_index: point.index,
                    end_index: point.index,
                    peak_key: point.ratio_key,
                    class: point.class,
                },
            );
        }
        i = i + 1;
    }
    proof {
        assert(points@.take(points@.len() as int) =~= points@);
    }
    zones
}

/// The name of the `i`-th region, counted from the smallest sizes.
pub open spec fn region_label(i: int) -> Seq<char> {
    if i == 0 {
        "L1-like"@
    } else if i == 1 {
        "L2-like"@
    } else if i == 2 {
        "LLC-like"@
    } else if i == 3 {
        "DRAM-like"@
    } else {
        "post-knee-like"@
    }
}

/// The size at which a zone ends: that of the row after its last knee, or of the last row.
pub open spec fn zone_boundary(sizes: Seq<u64>, zone: KneeZone) -> u64 {
    let j: int = if zone.end_index + 1 < sizes.len() - 1 {
        zone.end_index + 1
    } else {
        sizes.len() - 1
    };
    sizes[j]
}

/// How many zones mark region boundaries: the first three at most.
pub open spec fn boundary_count(zones: Seq<KneeZone>) -> int {
    if zones.len() < 3 {
        zones.len() as int
    } else {
        3
    }
}

pub(crate) fn label_of_region(i: usize) -> (r: &'static str)
    ensures
        r@ == region_label(i as int),
{
    if i == 0 {
        "L1-like"
    } else if i == 1 {
        "L2-like"
    } else if i == 2 {
        "LLC-like"
    } else if i == 3 {
        "DRAM-like"
    } else {
        "post-knee-like"
    }
}

/// The regions that the first three zones cut the row sizes into: one more region than
/// boundary zones, labelled in order; region `i` ends at the boundary of zone `i`, the first
/// region starts at the first size, each next region starts where the one before ends, and
/// the last region ends at the last size.
pub open spec fn regions_from_zones(sizes: Seq<u64>, zones: Seq<KneeZone>, regions: Seq<Region>) -> bool {
    &&& regions.len() == boundary_count(zones) + 1
    &&& forall|i: int| 0 <= i < regions.len() ==> (#[trigger] regions[i]).label@ == region_label(i)
    &&& forall|i: int|
        0 <= i < boundary_count(zones) ==> (#[trigger] regions[i]).to_size == zone_boundary(
            sizes,
            zones[i],
        )
    &&& regions[0].from_size == sizes[0]
    &&& forall|i: int|
        0 <= i < boundary_count(zones) ==> #[trigger] regions[i + 1].from_size
            == regions[i].to_size
    &&& regions.last().to_size == sizes.last()
}

/// Cuts the sizes of the aggregate rows into contiguous hierarchy-like regions at the ends of
/// the first three knee zones. `sizes` lists the working-set size of each row.
pub fn infer_regions(sizes: &[u64], zones: &[KneeZone]) -> (regions: Vec<Region>)
    requires
        sizes@.len() > 0,
        forall|k: int| 0 <= k < boundary_count(zones@) ==> #[trigger] zones@[k].end_index < usize::MAX,
    ensures
        regions_from_zones(sizes@, zones@, regions@),
{
    let n = sizes.len();
    let mut boundaries: Vec<u64> = Vec::with_capacity(3);
    let mut k: usize = 0;
    while k < zones.len() && k < 3
        invariant
            n == sizes@.len(),
            n > 0,
            k <= boundary_count(zones@),
            forall|t: int| 0 <= t < boundary_count(zones@) ==> #[trigger] zones@[t].end_index < usize::MAX,
            boundaries@.len() == k,
            forall|t: int| 0 <= t < k ==> boundaries@[t] == zone_boundary(sizes@, #[trigger] zones@[t]),
        decreases 3 - k,
    {
        let end = zones[k].end_index + 1;
        let j = if end < n - 1 { end } else { n - 1 };
        boundaries.push(sizes[j]);
        k = k + 1;
    }
    let nb = boundaries.len();
    let mut regions: Vec<Region> = Vec::new();
    let mut start = sizes[0];
    let mut i: usize = 0;
    while i < nb
        invariant
            nb == boundaries@.len(),
            nb == boundary_count(zones@),
            i <= nb,
            n == sizes@.len(),
            n > 0,
            forall|t: int| 0 <= t < nb ==> boundaries@[t] == zone_boundary(sizes@, #[trigger] zones@[t]),
            regions@.len() == i,
            start == if i == 0 { sizes@[0] } else { boundaries@[i - 1] },
            forall|t: int| 0 <= t < i ==> (#[trigger] regions@[t]).label@ == region_label(t),
            forall|t: int| 0 <= t < i ==> (#[trigger] regions@[t]).to_size == boundaries@[t],
            i > 0 ==> regions@[0].from_size == sizes@[0],
            forall|t: int| 0 < t < i ==> #[trigger] regions@[t].from_size == boundaries@[t - 1],
        decreases nb - i,
    {
        let boundary = boundaries[i];
        regions.push(Region { label: label_of_region(i), from_size: start, to_size: boundary });
        start = boundary;
        i = i + 1;
    }
    regions.push(Region { label: label_of_region(nb), from_size: start, to_size: sizes[n - 1] });
    proof {
        assert forall|t: int| 0 <= t < nb implies #[trigger] regions@[t + 1].from_size
            == regions@[t].to_size by {
            assert(regions@[t].to_size == boundaries@[t]);
        }
    }
    regions
}

/// Runs the integer part of the knee inference: classifies the adjacent ratios (row index,
/// order key of the ratio) against the thresholds, merges the knee points into zones, and cuts
/// the row sizes into regions when there is at least one zone (no regions otherwise).
pub fn knee_pipeline(
    sizes: &[u64],
    adjacent_keys: &[(usize, u64)],
    thresholds: KneeThresholds,
) -> (r: (Vec<KneeZone>, Vec<Region>))
    requires
        forall|i: int|
            0 <= i < classified(adjacent_keys@, thresholds).len() - 1 ==> #[trigger] classified(
                adjacent_keys@,
                thresholds,
            )[i].index < usize::MAX,
        merged(classified(adjacent_keys@, thresholds)).len() > 0 ==> {
            &&& sizes@.len() > 0
            &&& forall|k: int|
                0 <= k < boundary_count(merged(classified(adjacent_keys@, thresholds)))
                    ==> #[trigger] merged(classified(adjacent_keys@, thresholds))[k].end_index
                    < usize::MAX
        },
    ensures
        r.0@ == merged(classified(adjacent_keys@, thresholds)),
        r.0@.len() == 0 <==> r.1@.len() == 0,
        r.0@.len() > 0 ==> regions_from_zones(sizes@, r.0@, r.1@),
{
    let points = classify_knee_points(adjacent_keys, thresholds);
    let zones = merge_knee_points(points.as_slice());
    let regions = if zones.len() == 0 {
        Vec::new()
    } else {
        infer_regions(sizes, zones.as_slice())
    };
    (zones, regions)
}

} // verus!
