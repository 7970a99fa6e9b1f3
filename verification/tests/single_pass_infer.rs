use latency_bench::analysis::infer::{
    classify_knee_points, knee_pipeline, KneeClass, KneePoint, KneeThresholds,
};
use latency_bench::infer::{merge_size_zones, size_zone_regions, SizeZone};

fn point(index: usize, ratio_key: u64, class: KneeClass) -> KneePoint {
    KneePoint { index, ratio_key, class }
}

#[test]
fn size_zones_merge_neighbours() {
    let sizes = vec![10u64, 20, 30, 40, 50, 60, 70];
    let points = vec![
        point(0, 120, KneeClass::Minor),
        point(1, 150, KneeClass::Major),
        point(4, 111, KneeClass::Minor),
        point(5, 140, KneeClass::Minor),
    ];
    let zones = merge_size_zones(&sizes, &points);
    let got: Vec<(u64, u64, u64, KneeClass)> =
        zones.iter().map(|z| (z.from_size, z.to_size, z.peak_key, z.class)).collect();
    assert_eq!(
        got,
        vec![(10, 30, 150, KneeClass::Major), (50, 70, 140, KneeClass::Minor)]
    );
}

#[test]
fn size_zones_look_up_the_first_matching_size() {
    // The first zone ends at size 5, which first stands at row 0: the lookup takes row 0, so
    // the knee at row 2 does not count as adjacent and opens a zone of its own.
    let sizes = vec![5u64, 7, 5, 9];
    let points = vec![point(1, 130, KneeClass::Minor), point(2, 140, KneeClass::Minor)];
    let zones = merge_size_zones(&sizes, &points);
    let got: Vec<(u64, u64, u64)> = zones.iter().map(|z| (z.from_size, z.to_size, z.peak_key)).collect();
    assert_eq!(got, vec![(7, 5, 130), (5, 9, 140)]);
}

#[test]
fn size_zone_regions_are_contiguous() {
    let zones = vec![
        SizeZone { from_size: 10, to_size: 30, peak_key: 0, class: KneeClass::Minor },
        SizeZone { from_size: 50, to_size: 70, peak_key: 0, class: KneeClass::Major },
    ];
    let regions = size_zone_regions(10, 90, &zones);
    let got: Vec<(&str, u64, u64)> =
        regions.iter().map(|r| (r.label, r.from_size, r.to_size)).collect();
    assert_eq!(got, vec![("L1-like", 10, 30), ("L2-like", 30, 70), ("LLC-like", 70, 90)]);
}

#[test]
fn both_reports_agree_on_distinct_sizes() {
    let sizes = vec![4096u64, 6144, 8192, 12288, 16384, 24576, 32768, 49152];
    let adjacent_keys = vec![(0usize, 100u64), (1, 130), (2, 170), (3, 90), (4, 120), (6, 200)];
    let thresholds = KneeThresholds { minor_key: 110, major_key: 150 };

    let (zones, regions) = knee_pipeline(&sizes, &adjacent_keys, thresholds);
    let points = classify_knee_points(&adjacent_keys, thresholds);
    let size_zones = merge_size_zones(&sizes, &points);
    let single_regions = size_zone_regions(sizes[0], sizes[sizes.len() - 1], &size_zones);

    assert_eq!(zones.len(), size_zones.len());
    for (z, sz) in zones.iter().zip(size_zones.iter()) {
        assert_eq!(sizes[z.start_index], sz.from_size);
        assert_eq!(sizes[z.end_index + 1], sz.to_size);
        assert_eq!(z.peak_key, sz.peak_key);
        assert_eq!(z.class, sz.class);
    }
    let staged: Vec<(&str, u64, u64)> =
        regions.iter().map(|r| (r.label, r.from_size, r.to_size)).collect();
    let single: Vec<(&str, u64, u64)> =
        single_regions.iter().map(|r| (r.label, r.from_size, r.to_size)).collect();
    assert_eq!(staged, single);
    assert_eq!(
        staged,
        vec![
            ("L1-like", 4096, 12288),
            ("L2-like", 12288, 24576),
            ("LLC-like", 24576, 49152),
            ("DRAM-like", 49152, 49152),
        ]
    );
}

#[test]
fn knee_pipeline_without_knees_has_no_regions() {
    let thresholds = KneeThresholds { minor_key: 110, major_key: 150 };
    let (zones, regions) = knee_pipeline(&[1u64, 2, 3], &[(0, 100), (1, 105)], thresholds);
    assert!(zones.is_empty());
    assert!(regions.is_empty());
}
