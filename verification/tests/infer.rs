use latency_bench::analysis::infer::{
    class_name, classify_knee_points, infer_regions, merge_knee_points, nearest_rank_percentile,
    KneeClass, KneePoint, KneeThresholds, KneeZone,
};

fn point(index: usize, ratio_key: u64, class: KneeClass) -> KneePoint {
    KneePoint { index, ratio_key, class }
}

fn zone(start_index: usize, end_index: usize) -> KneeZone {
    KneeZone { start_index, end_index, peak_key: 0, class: KneeClass::Minor }
}

#[test]
fn class_names() {
    assert_eq!(class_name(KneeClass::Minor), "minor");
    assert_eq!(class_name(KneeClass::Major), "major");
}

#[test]
fn percentile_by_nearest_rank() {
    let values = vec![50u64, 10, 40, 20, 30];
    assert_eq!(nearest_rank_percentile(values.clone(), 50), Some(30));
    assert_eq!(nearest_rank_percentile(values.clone(), 90), Some(50));
    assert_eq!(nearest_rank_percentile(values.clone(), 20), Some(10));
    assert_eq!(nearest_rank_percentile(values.clone(), 0), Some(10));
    assert_eq!(nearest_rank_percentile(values, 200), Some(50));
    assert_eq!(nearest_rank_percentile(Vec::new(), 50), None);
}

#[test]
fn percentile_with_repeated_values() {
    let values = vec![7u64, 3, 7, 3, 3, 9];
    assert_eq!(nearest_rank_percentile(values.clone(), 50), Some(3));
    assert_eq!(nearest_rank_percentile(values.clone(), 51), Some(7));
    assert_eq!(nearest_rank_percentile(values, 97), Some(9));
}

#[test]
fn classification_by_thresholds() {
    let thresholds = KneeThresholds { minor_key: 110, major_key: 150 };
    let adjacents = vec![(0usize, 100u64), (1, 110), (3, 149), (4, 150), (6, 300), (7, 20)];
    let points = classify_knee_points(&adjacents, thresholds);
    let got: Vec<(usize, u64, KneeClass)> =
        points.iter().map(|p| (p.index, p.ratio_key, p.class)).collect();
    assert_eq!(
        got,
        vec![
            (1, 110, KneeClass::Minor),
            (3, 149, KneeClass::Minor),
            (4, 150, KneeClass::Major),
            (6, 300, KneeClass::Major),
        ]
    );
}

#[test]
fn merging_neighbouring_points() {
    let points = vec![
        point(1, 120, KneeClass::Minor),
        point(2, 160, KneeClass::Major),
        point(3, 130, KneeClass::Minor),
        point(6, 115, KneeClass::Minor),
        point(9, 200, KneeClass::Major),
        point(10, 111, KneeClass::Minor),
    ];
    let zones = merge_knee_points(&points);
    let got: Vec<(usize, usize, u64, KneeClass)> =
        zones.iter().map(|z| (z.start_index, z.end_index, z.peak_key, z.class)).collect();
    assert_eq!(
        got,
        vec![
            (1, 3, 160, KneeClass::Major),
            (6, 6, 115, KneeClass::Minor),
            (9, 10, 200, KneeClass::Major),
        ]
    );
}

#[test]
fn merging_nothing() {
    assert!(merge_knee_points(&[]).is_empty());
}

#[test]
fn regions_from_zones() {
    let sizes = vec![100u64, 200, 300, 400, 500, 600];
    let zones = vec![zone(0, 1), zone(3, 3)];
    let regions = infer_regions(&sizes, &zones);
    let got: Vec<(&str, u64, u64)> =
        regions.iter().map(|r| (r.label, r.from_size, r.to_size)).collect();
    assert_eq!(
        got,
        vec![("L1-like", 100, 300), ("L2-like", 300, 500), ("LLC-like", 500, 600)]
    );
}

#[test]
fn regions_use_at_most_three_zones() {
    let sizes = vec![1u64, 2, 3, 4, 5, 6, 7, 8, 9, 10];
    let zones = vec![zone(0, 0), zone(2, 2), zone(4, 4), zone(6, 6), zone(8, 8)];
    let regions = infer_regions(&sizes, &zones);
    let got: Vec<(&str, u64, u64)> =
        regions.iter().map(|r| (r.label, r.from_size, r.to_size)).collect();
    assert_eq!(
        got,
        vec![("L1-like", 1, 2), ("L2-like", 2, 4), ("LLC-like", 4, 6), ("DRAM-like", 6, 10)]
    );
}

#[test]
fn regions_clamp_to_the_last_row() {
    let sizes = vec![10u64, 20];
    let zones = vec![zone(0, 5)];
    let regions = infer_regions(&sizes, &zones);
    let got: Vec<(&str, u64, u64)> =
        regions.iter().map(|r| (r.label, r.from_size, r.to_size)).collect();
    assert_eq!(got, vec![("L1-like", 10, 20), ("L2-like", 20, 20)]);
}

#[test]
fn regions_without_zones() {
    let regions = infer_regions(&[64u64, 128, 256], &[]);
    assert_eq!(regions.len(), 1);
    assert_eq!((regions[0].label, regions[0].from_size, regions[0].to_size), ("L1-like", 64, 256));
}

#[test]
fn higher_percentiles_pick_larger_values() {
    let values = vec![130u64, 101, 250, 99, 180, 110, 105, 300, 120, 100];
    let p50 = nearest_rank_percentile(values.clone(), 50).unwrap();
    let p90 = nearest_rank_percentile(values.clone(), 90).unwrap();
    let p97 = nearest_rank_percentile(values, 97).unwrap();
    assert_eq!((p50, p90, p97), (110, 250, 300));
    assert!(p50 <= p90 && p90 <= p97);
}
