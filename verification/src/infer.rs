use vstd::prelude::*;

use crate::analysis::infer::{
    boundary_count, indices_increasing, label_of_region, lemma_merged_last_end,
    lemma_merged_zones_come_from_points, merge_step, merged, region_label, regions_from_zones,
    zone_from_points, KneeClass, KneePoint, KneeZone, Region,
};

verus! {

/// A transition zone given by the sizes of the rows where it starts and ends.
#[derive(Clone, Copy, Debug)]
pub struct SizeZone {
    pub from_size: u64,
    pub to_size: u64,
    /// Order key of the largest ratio in the zone.
    pub peak_key: u64,
    pub class: KneeClass,
}

/// The row just before the first row whose size is the zone's end size (row 0 when that is
/// the first row or no row has that size).
pub open spec fn zone_last_index(sizes: Seq<u64>, zone: SizeZone) -> int {
    let at: int = match sizes.index_of_first(zone.to_size) {
        Some(i) => i,
        None => 0,
    };
    if at >= 1 {
        at - 1
    } else {
        0
    }
}

/// Adds one knee point to a list of size zones: a point at most one row past the last zone
/// widens it to the size of the row after the point (its peak becomes the larger ratio, and it
/// becomes major with a major point); any other point opens a zone from its row to the next.
pub open spec fn size_merge_step(sizes: Seq<u64>, zones: Seq<SizeZone>, point: KneePoint) -> Seq<
    SizeZone,
> {
    if zones.len() > 0 && point.index <= zone_last_index(sizes, zones.last()) + 1 {
        let last = zones.last();
        zones.update(
            zones.len() - 1,
            SizeZone {
                from_size: last.from_size,
                to_size: sizes[point.index + 1],
                peak_key: if point.ratio_key > last.peak_key {
                    point.ratio_key
                } else {
                    last.peak_key
                },
                class: if point.class == KneeClass::Major {
                    KneeClass::Major
                } else {
                    last.class
                },
            },
        )
    } else {
        zones.push(
            SizeZone {
                from_size: sizes[point.index as int],
                to_size: sizes[point.index + 1],
                peak_key: point.ratio_key,
                class: point.class,
            },
        )
    }
}

/// The size zones that the knee points make, added one after the other.
pub open spec fn size_merged(sizes: Seq<u64>, points: Seq<KneePoint>) -> Seq<SizeZone>
    decreases points.len(),
{
    if points.len() == 0 {
        Seq::empty()
    } else {
        size_merge_step(sizes, size_merged(sizes, points.drop_last()), points.last())
    }
}

/// Merges neighbouring knee points into zones between row sizes, finding where the last zone
/// ends by looking up its end size among the row sizes.
pub fn merge_size_zones(sizes: &[u64], points: &[KneePoint]) -> (zones: Vec<SizeZone>)
    requires
        forall|i: int| 0 <= i < points@.len() ==> #[trigger] points@[i].index + 1 < sizes@.len(),
    ensures
        zones@ == size_merged(sizes@, points@),
{
    let n = sizes.len();
    let mut zones: Vec<SizeZone> = Vec::new();
    let mut i: usize = 0;
    while i < points.len()
        invariant
            i <= points@.len(),
            n == sizes@.len(),
            forall|t: int| 0 <= t < points@.len() ==> #[trigger] points@[t].index + 1 < sizes@.len(),
            zones@ == size_merged(sizes@, points@.take(i as int)),
        decreases points@.len() - i,
    {
        let point = points[i];
        proof {
            assert(points@.take(i + 1).drop_last() =~= points@.take(i as int));
            assert(points@.take(i + 1).last() == point);
            assert(point.index + 1 < n);
        }
        let nz = zones.len();
        let mut merged_into_last = false;
        if nz > 0 {
            let last = zones[nz - 1];
            let mut at: usize = 0;
            while at < n && sizes[at] != last.to_size
                invariant
                    at <= n,
                    n == sizes@.len(),
                    forall|t: int| 0 <= t < at ==> sizes@[t] != last.to_size,
                decreases n - at,
            {
                at = at + 1;
            }
            proof {
                sizes@.index_of_first_ensures(last.to_size);
                if at < n {
                    assert(sizes@.contains(last.to_size));
                    let f = sizes@.index_of_first(last.to_size).unwrap();
                    assert(f == at) by {
                        if f < at {
                            assert(sizes@[f] != last.to_size);
                        }
                        if at < f {
                            assert(sizes@[at as int] == last.to_size);
                        }
                    }
                } else {
                    assert(!sizes@.contains(last.to_size));
                }
            }
            let found = if at < n { at } else { 0 };
            let last_to_index = if found >= 1 { found - 1 } else { 0 };
            if point.index <= last_to_index + 1 {
                let peak_key = if point.ratio_key > last.peak_key {
                    point.ratio_key
                } else {
                    last.peak_key
                };
                let class = match point.class {
                    KneeClass::Major => KneeClass::Major,
                    KneeClass::Minor => last.class,
                };
                zones.set(
                    nz - 1,
                    SizeZone {
                        from_size: last.from_size,
                        to_size: sizes[point.index + 1],
                        peak_key,
                        class,
                    },
                );
                merged_into_last = true;
            }
        }
        if !merged_into_last {
            zones.push(
                SizeZone {
                    from_size: sizes[point.index],
                    to_size: sizes[point.index + 1],
                    peak_key: point.ratio_key,
                    class: point.class,
                },
            );
        }
        i = i + 1;
    }
    proof {
        assert(points@.take(points@.len() as int) =~= points@);
    }
    zones
}

/// The size zones and the index zones describe the same transitions: one size zone per index
/// zone, running from the size of the zone's first row to the size of the row after its last
/// one, with the same peak and class.
pub open spec fn zones_agree(sizes: Seq<u64>, size_zones: Seq<SizeZone>, zones: Seq<KneeZone>) -> bool {
    &&& size_zones.len() == zones.len()
    &&& forall|k: int|
        0 <= k < zones.len() ==> {
            &&& (#[trigger] size_zones[k]).from_size == sizes[zones[k].start_index as int]
            &&& size_zones[k].to_size == sizes[zones[k].end_index + 1]
            &&& size_zones[k].peak_key == zones[k].peak_key
            &&& size_zones[k].class == zones[k].class
        }
}

/// No size occurs twice among the rows.
pub open spec fn sizes_distinct(sizes: Seq<u64>) -> bool {
    forall|i: int, j: int| 0 <= i < sizes.len() && 0 <= j < sizes.len() && i != j ==> sizes[i] != sizes[j]
}

/// Law: when no row size occurs twice, merging knee points by looking up zone end sizes (the
/// single-pass report) gives the same zones as merging them by row index (the staged report):
/// the same number of zones, each from the size of its first row to the size of the row after
/// its last one, with the same peak and class.
pub proof fn lemma_size_zones_agree_with_index_zones(sizes: Seq<u64>, points: Seq<KneePoint>)
    requires
        sizes_distinct(sizes),
        forall|i: int| 0 <= i < points.len() ==> #[trigger] points[i].index + 1 < sizes.len(),
    ensures
        zones_agree(sizes, size_merged(sizes, points), merged(points)),
    decreases points.len(),
{
    if points.len() > 0 {
        let prev = points.drop_last();
        let p = points.last();
        assert(p == points[points.len() - 1]);
        assert forall|i: int| 0 <= i < prev.len() implies #[trigger] prev[i].index + 1 < sizes.len() by {
            assert(prev[i] == points[i]);
        }
        lemma_size_zones_agree_with_index_zones(sizes, prev);
        let zs = merged(prev);
        let ss = size_merged(sizes, prev);
        assert(merged(points) == merge_step(zs, p));
        assert(size_merged(sizes, points) == size_merge_step(sizes, ss, p));
        if zs.len() > 0 {
            lemma_merged_last_end(prev);
            assert(prev.last() == prev[prev.len() - 1]);
            let e = zs.last().end_index as int;
            assert(e + 1 < sizes.len());
            let last_size = ss.last();
            assert(last_size == ss[ss.len() - 1]);
            assert(last_size.to_size == sizes[e + 1]);
            sizes.index_of_first_ensures(last_size.to_size);
            assert(sizes.contains(last_size.to_size)) by {
                assert(sizes[e + 1] == last_size.to_size);
            }
            let f = sizes.index_of_first(last_size.to_size).unwrap();
            assert(f == e + 1);
            assert(zone_last_index(sizes, last_size) == e);
        }
        let zout = merged(points);
        let sout = size_merged(sizes, points);
        assert forall|k: int| 0 <= k < zout.len() implies {
            &&& (#[trigger] sout[k]).from_size == sizes[zout[k].start_index as int]
            &&& sout[k].to_size == sizes[zout[k].end_index + 1]
            &&& sout[k].peak_key == zout[k].peak_key
            &&& sout[k].class == zout[k].class
        } by {
            if k < zs.len() && k != zs.len() - 1 {
                assert(zout[k] == zs[k]);
                assert(sout[k] == ss[k]);
            } else if k < zs.len() {
                assert(ss[k] == ss.last());
                assert(zs[k] == zs.last());
            }
        }
    }
}

/// `size_zone` is the size range of a zone made of `points`: it runs from the size of that
/// zone's first row to the size of the row after its last one, with its peak and class.
pub open spec fn size_zone_from_points(
    sizes: Seq<u64>,
    size_zone: SizeZone,
    points: Seq<KneePoint>,
) -> bool {
    exists|zone: KneeZone|
        #[trigger] zone_from_points(zone, points) && size_zone.from_size
            == sizes[zone.start_index as int] && size_zone.to_size == sizes[zone.end_index + 1]
            && size_zone.peak_key == zone.peak_key && size_zone.class == zone.class
}

/// Law: when no row size repeats and the knee points come in increasing row order, every size
/// zone is made of knee points: it spans the sizes of rows of its points, its peak is the ratio
/// of one of its points, and it is major only when one of its points is major.
pub proof fn lemma_size_zones_come_from_points(sizes: Seq<u64>, points: Seq<KneePoint>)
    requires
        sizes_distinct(sizes),
        indices_increasing(points),
        forall|i: int| 0 <= i < points.len() ==> #[trigger] points[i].index + 1 < sizes.len(),
    ensures
        forall|k: int|
            0 <= k < size_merged(sizes, points).len() ==> size_zone_from_points(
                sizes,
                #[trigger] size_merged(sizes, points)[k],
                points,
            ),
{
    lemma_size_zones_agree_with_index_zones(sizes, points);
    lemma_merged_zones_come_from_points(points);
    let ss = size_merged(sizes, points);
    let zs = merged(points);
    assert forall|k: int| 0 <= k < ss.len() implies size_zone_from_points(
        sizes,
        #[trigger] ss[k],
        points,
    ) by {
        assert(zone_from_points(zs[k], points));
    }
}

/// How many size zones mark region boundaries: the first three at most.
pub open spec fn size_boundary_count(zones: Seq<SizeZone>) -> int {
    if zones.len() < 3 {
        zones.len() as int
    } else {
        3
    }
}

/// The regions that the first three size zones cut the range from `first_size` to `last_size`
/// into: one more region than boundary zones, labelled in order; region `i` ends at the end
/// size of zone `i`, the first region starts at `first_size`, each next region starts where
/// the one before ends, and the last region ends at `last_size`.
pub open spec fn regions_from_size_zones(
    first_size: u64,
    last_size: u64,
    zones: Seq<SizeZone>,
    regions: Seq<Region>,
) -> bool {
    &&& regions.len() == size_boundary_count(zones) + 1
    &&& forall|i: int| 0 <= i < regions.len() ==> (#[trigger] regions[i]).label@ == region_label(i)
    &&& forall|i: int|
        0 <= i < size_boundary_count(zones) ==> (#[trigger] regions[i]).to_size == zones[i].to_size
    &&& regions[0].from_size == first_size
    &&& forall|i: int|
        0 <= i < size_boundary_count(zones) ==> #[trigger] regions[i + 1].from_size
            == regions[i].to_size
    &&& regions.last().to_size == last_size
}

/// Law: when the size zones agree with the index zones and every zone ends before the last
/// row, both reports cut the row sizes into the same regions: same count, and each region with
/// the same label, start size and end size.
pub proof fn lemma_regions_agree(
    sizes: Seq<u64>,
    size_zones: Seq<SizeZone>,
    zones: Seq<KneeZone>,
    staged: Seq<Region>,
    single_pass: Seq<Region>,
)
    requires
        sizes.len() > 0,
        zones_agree(sizes, size_zones, zones),
        forall|k: int| 0 <= k < zones.len() ==> #[trigger] zones[k].end_index + 1 < sizes.len(),
        regions_from_zones(sizes, zones, staged),
        regions_from_size_zones(sizes[0], sizes.last(), size_zones, single_pass),
    ensures
        staged.len() == single_pass.len(),
        forall|i: int|
            0 <= i < staged.len() ==> {
                &&& (#[trigger] staged[i]).label@ == single_pass[i].label@
                &&& staged[i].from_size == single_pass[i].from_size
                &&& staged[i].to_size == single_pass[i].to_size
            },
{
    let nb = boundary_count(zones);
    assert(nb == size_boundary_count(size_zones));
    assert forall|i: int| 0 <= i < nb implies #[trigger] staged[i].to_size == single_pass[i].to_size by {
        assert(zones[i].end_index + 1 < sizes.len());
        assert(size_zones[i].to_size == sizes[zones[i].end_index + 1]);
    }
    assert forall|i: int| 0 <= i < staged.len() implies {
        &&& (#[trigger] staged[i]).label@ == single_pass[i].label@
        &&& staged[i].from_size == single_pass[i].from_size
        &&& staged[i].to_size == single_pass[i].to_size
    } by {
        if i > 0 {
            assert(staged[(i - 1) + 1].from_size == staged[i - 1].to_size);
            assert(single_pass[(i - 1) + 1].from_size == single_pass[i - 1].to_size);
            assert(staged[i - 1].to_size == single_pass[i - 1].to_size);
        }
        if i == nb {
            assert(staged.last() == staged[i]);
            assert(single_pass.last() == single_pass[i]);
        }
    }
}

/// Cuts the range from `first_size` to `last_size` into contiguous hierarchy-like regions at
/// the end sizes of the first three zones.
pub fn size_zone_regions(first_size: u64, last_size: u64, zones: &[SizeZone]) -> (regions: Vec<
    Region,
>)
    ensures
        regions_from_size_zones(first_size, last_size, zones@, regions@),
{
    let nb: usize = if zones.len() < 3 { zones.len() } else { 3 };
    let mut regions: Vec<Region> = Vec::new();
    let mut start = first_size;
    let mut i: usize = 0;
    while i < nb
        invariant
            nb == size_boundary_count(zones@),
            i <= nb,
            regions@.len() == i,
            start == if i == 0 { first_size } else { zones@[i - 1].to_size },
            forall|t: int| 0 <= t < i ==> (#[trigger] regions@[t]).label@ == region_label(t),
            forall|t: int| 0 <= t < i ==> (#[trigger] regions@[t]).to_size == zones@[t].to_size,
            i > 0 ==> regions@[0].from_size == first_size,
            forall|t: int| 0 < t < i ==> #[trigger] regions@[t].from_size == zones@[t - 1].to_size,
        decreases nb - i,
    {
        let boundary = zones[i].to_size;
        regions.push(Region { label: label_of_region(i), from_size: start, to_size: boundary });
        start = boundary;
        i = i + 1;
    }
    regions.push(Region { label: label_of_region(nb), from_size: start, to_size: last_size });
    proof {
        assert forall|t: int| 0 <= t < nb implies #[trigger] regions@[t + 1].from_size
            == regions@[t].to_size by {
            assert(regions@[t].to_size == zones@[t].to_size);
        }
    }
    regions
}

} // verus!
