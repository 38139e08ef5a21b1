use iconforge::outliers::{
    mad, mean_ad, median, modal_palette, modal_style, modified_z, scan, spread, IconStat,
    OutlierKind, StyleClass, ZScore, OUTLIER_Z,
};

fn stat(id: u32, ink_size: u32) -> IconStat {
    IconStat {
        id,
        ink_size: ink_size * 1000,
        stroke: 4000,
        node_count: 8,
        colours: 1,
        solidity: 900,
        fill_ratio: 200,
        palette: 7,
    }
}

fn z_value(z: ZScore) -> f64 {
    z.num as f64 / z.den as f64
}

const Z_LIMIT: f64 = OUTLIER_Z as f64 / 1000.0;

#[test]
fn median_takes_both_middles_for_even_slices() {
    // Medians come doubled.
    assert_eq!(median(&vec![1, 2, 3, 4]), 5);
    assert_eq!(median(&vec![4, 1, 3]), 6);
    assert_eq!(median(&vec![]), 0);
}

#[test]
fn the_classic_ninety_nine_plus_one_is_caught_with_a_zero_mad() {
    // 99 outlines of the same size, one blob four times the size.
    let mut values = vec![10u64; 99];
    values.push(40);
    let s = spread(&values);
    assert_eq!(s.mad4, 0, "more than half identical: MAD is zero");
    let z = modified_z(40, &s);
    assert!(
        z_value(z) > Z_LIMIT,
        "the fallback must still flag it, got {z:?}"
    );
    assert_eq!(modified_z(10, &s).num, 0);
}

#[test]
fn deviations_are_measured_from_the_median() {
    let values = vec![1u64, 2, 3, 4, 100];
    assert_eq!(median(&values), 6);
    // Distances 2, 1, 0, 1, 97: the median is 1, told in quarters.
    assert_eq!(mad(&values, 6), 4);
    let mean = mean_ad(&values, 6);
    assert!((mean.num as f64 / mean.den as f64 - 20.2).abs() < 1e-9);
    // 0.6745 * (100 - 3) / 1
    assert!((z_value(modified_z(100, &spread(&values))) - 65.4265).abs() < 1e-9);
}

#[test]
fn a_uniform_sheet_has_no_outliers() {
    let stats: Vec<IconStat> = (0..10).map(|i| stat(i, 12)).collect();
    assert!(scan(&stats, OUTLIER_Z).is_empty());
}

#[test]
fn a_filled_blob_among_outlines_is_flagged_by_style() {
    let mut stats: Vec<IconStat> = (0..9).map(|i| stat(i, 12)).collect();
    let mut blob = stat(9, 12);
    blob.fill_ratio = 950;
    stats.push(blob);
    assert_eq!(modal_style(&stats), Some(StyleClass::Outline));
    let flags = scan(&stats, OUTLIER_Z);
    assert!(
        flags
            .iter()
            .any(|f| f.id == 9 && f.kind == OutlierKind::Style),
        "expected a style flag, got {flags:?}"
    );
    // The nine outlines are the norm, so they are not flagged.
    assert!(flags.iter().all(|f| f.id == 9));
}

#[test]
fn no_palette_norm_means_no_palette_flags() {
    // Four palettes, a quarter each: no majority, nothing is "wrong".
    let stats: Vec<IconStat> = (0..4)
        .map(|i| {
            let mut s = stat(i, 12);
            s.palette = u64::from(i);
            s
        })
        .collect();
    assert_eq!(modal_palette(&stats), None);
    assert!(!scan(&stats, OUTLIER_Z)
        .iter()
        .any(|f| f.kind == OutlierKind::Palette));
}

#[test]
fn a_palette_outlier_is_flagged_when_the_sheet_has_a_norm() {
    let mut stats: Vec<IconStat> = (0..8).map(|i| stat(i, 12)).collect();
    let mut odd = stat(8, 12);
    odd.palette = 999;
    stats.push(odd);
    assert_eq!(modal_palette(&stats), Some(7));
    let flags = scan(&stats, OUTLIER_Z);
    assert!(flags
        .iter()
        .any(|f| f.id == 8 && f.kind == OutlierKind::Palette));
}

#[test]
fn metric_outliers_report_their_numbers() {
    let mut stats: Vec<IconStat> = (0..10).map(|i| stat(i, 10)).collect();
    stats[3].stroke = 40_000;
    let flags = scan(&stats, OUTLIER_Z);
    let flag = flags
        .iter()
        .find(|f| f.kind == OutlierKind::Stroke)
        .expect("a stroke outlier");
    assert_eq!(flag.id, 3);
    assert_eq!(flag.value, 40_000);
    assert_eq!(flag.median2, 2 * 4_000);
    assert!(z_value(flag.z).abs() > Z_LIMIT);
}

#[test]
fn scan_is_sorted_and_deterministic() {
    let mut stats: Vec<IconStat> = (0..6).map(|i| stat(i, 10)).collect();
    stats[0].stroke = 40_000;
    stats[5].ink_size = 90_000;
    let a = scan(&stats, OUTLIER_Z);
    let b = scan(&stats, OUTLIER_Z);
    assert_eq!(a, b);
    let mut sorted = a.clone();
    sorted.sort_by(|x, y| x.id.cmp(&y.id).then_with(|| x.kind.cmp(&y.kind)));
    assert_eq!(a, sorted);
}

#[test]
fn outliers_names_round_trip() {
    for kind in [
        OutlierKind::InkSize,
        OutlierKind::Stroke,
        OutlierKind::NodeCount,
        OutlierKind::Colours,
        OutlierKind::Solidity,
        OutlierKind::Palette,
        OutlierKind::Style,
    ] {
        assert_eq!(OutlierKind::parse(kind.as_str()), Some(kind));
    }
    assert_eq!(StyleClass::of(900), StyleClass::Filled);
    assert_eq!(StyleClass::of(100), StyleClass::Outline);
}
