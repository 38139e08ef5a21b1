use iconforge::background::{BackgroundKind, BackgroundModel};
use iconforge::confidence::{
    score_groups, summary_line, ConfidenceParams, ConfidenceReport, ScoreInput, SignalKind,
    WarningKind, FULL_SCORE, SIGNAL_COUNT,
};
use iconforge::geometry::{Bbox, IconGroup};
use iconforge::grid::{detect_grid, GridHint, GridParams, GridStats, Pitch};
use iconforge::mask::ForegroundMask;
use iconforge::ratio::Ratio;

/// A share as a number.
fn value(r: Ratio) -> f32 {
    (r.num as f64 / r.den as f64) as f32
}

/// Billionths as a number.
fn points(v: u64) -> f32 {
    (v as f64 / FULL_SCORE as f64) as f32
}

/// A consensus share, in thousandths.
fn consensus(milli: u128) -> Ratio {
    Ratio {
        num: milli,
        den: 1000,
    }
}

fn mask_of(w: u32, h: u32) -> ForegroundMask {
    ForegroundMask::new(w, h)
}

fn group(x: u32, y: u32, w: u32, h: u32) -> IconGroup {
    IconGroup {
        bbox: Bbox::new(x, y, w, h).unwrap(),
        area: w * h,
        origin: (x, y),
    }
}

/// A 4×4 lattice of 40×40 icons, pitch 100 — F5 detects it, nothing spans.
fn lattice_groups() -> Vec<IconGroup> {
    let mut out = Vec::new();
    for row in 0..4u32 {
        for col in 0..4u32 {
            out.push(group(20 + col * 100, 20 + row * 100, 40, 40));
        }
    }
    out
}

fn lattice_mask() -> ForegroundMask {
    let mut m = ForegroundMask::new(440, 440);
    for row in 0..4u32 {
        for col in 0..4u32 {
            for y in 0..40 {
                for x in 0..40 {
                    m.set(20 + col * 100 + x, 20 + row * 100 + y, true);
                }
            }
        }
    }
    m
}

fn lattice_hint(mask: &ForegroundMask) -> GridHint {
    let mut stats = GridStats::default();
    detect_grid(
        mask,
        &GridParams::default(),
        &mut stats,
    )
}

fn params() -> ConfidenceParams {
    ConfidenceParams::default()
}

#[test]
fn a_clean_lattice_scores_exactly_one() {
    let mask = lattice_mask();
    let groups = lattice_groups();
    let hint = lattice_hint(&mask);
    assert!(hint.any(), "the lattice must be detected: {hint:?}");
    let report = score_groups(
        ScoreInput {
            groups: &groups,
            mask: &mask,
            merges: 0,
            restored: &vec![],
            hint: &hint,
            background: None,
        },
        &params(),
    );
    assert_eq!(report.score, FULL_SCORE, "{report:?}");
    assert_eq!(report.review_groups, 0);
    assert!(report.warnings.is_empty());
    assert_eq!(report.percent(), 100);
    for kind in SignalKind::all() {
        assert_eq!(points(report.deduction(kind)), 0.0, "{:?}", kind.label());
    }
}

#[test]
fn a_group_spanning_two_cells_deducts_its_share_of_thirty_points() {
    let mask = lattice_mask();
    let hint = lattice_hint(&mask);
    // Replace two in-row icons with one wide group spanning the valley.
    let mut groups = lattice_groups();
    groups.remove(1);
    groups[0] = group(20, 20, 140, 40);
    let report = score_groups(
        ScoreInput {
            groups: &groups,
            mask: &mask,
            merges: 0,
            restored: &vec![],
            hint: &hint,
            background: None,
        },
        &params(),
    );
    assert_eq!(report.review_groups, 1);
    assert_eq!(report.warnings[0].kind, WarningKind::SpansMultipleCells);
    assert_eq!(report.warnings[0].group, 0);
    let expected = 0.30 * (1.0 / groups.len() as f32);
    assert!(
        (points(report.deduction(SignalKind::SpansMultipleCells)) - expected).abs() < 1e-6,
        "{report:?}"
    );
    assert!((points(report.score) - (1.0 - expected)).abs() < 1e-6, "{report:?}");
}

#[test]
fn merge_ratio_ramps_between_its_endpoints() {
    let mask = lattice_mask();
    let hint = GridHint::default();
    let groups = lattice_groups(); // 16 groups
    let score = |merges: u32| {
        value(score_groups(
            ScoreInput {
                groups: &groups,
                mask: &mask,
                merges,
                restored: &vec![],
                hint: &hint,
                background: None,
            },
            &params(),
        )
        .signals
        .merge_ratio)
    };
    assert_eq!(score(0), 0.0, "no merges");
    assert_eq!(score(5), 0.0, "5/21 = 24 % is below the ramp");
    assert!((score(16) - 0.5).abs() < 1e-6, "16/32 = 50 %");
    assert_eq!(score(48), 1.0, "48/64 = 75 % is full deduction");
    let r = score_groups(
        ScoreInput {
            groups: &groups,
            mask: &mask,
            merges: 16,
            restored: &vec![],
            hint: &hint,
            background: None,
        },
        &params(),
    );
    assert!(
        (points(r.deduction(SignalKind::HighMergeRatio)) - 0.10).abs() < 1e-6,
        "{r:?}"
    );
}

#[test]
fn size_spread_needs_real_outliers() {
    let mask = mask_of(400, 400);
    let hint = GridHint::default();
    let uniform: Vec<IconGroup> = (0..8).map(|i| group(i * 40, 50, 30, 30)).collect();
    let r = score_groups(
        ScoreInput {
            groups: &uniform,
            mask: &mask,
            merges: 0,
            restored: &vec![],
            hint: &hint,
            background: None,
        },
        &params(),
    );
    assert_eq!(value(r.signals.size_mad), 0.0, "identical sizes have zero MAD");

    // MAD is outlier-robust by design: one small group among identical ones
    // does not move the median deviation, so it must NOT deduct.
    let mut lone = uniform.clone();
    lone.push(group(0, 100, 8, 8));
    let r = score_groups(
        ScoreInput {
            groups: &lone,
            mask: &mask,
            merges: 0,
            restored: &vec![],
            hint: &hint,
            background: None,
        },
        &params(),
    );
    assert_eq!(value(r.signals.size_mad), 0.0, "one outlier is invisible to MAD");

    // A genuine spread does move it.
    let spread: Vec<IconGroup> = [8u32, 16, 24, 32, 40, 48]
        .iter()
        .enumerate()
        .map(|(i, s)| group(i as u32 * 40, 150, *s, *s))
        .collect();
    let r = score_groups(
        ScoreInput {
            groups: &spread,
            mask: &mask,
            merges: 0,
            restored: &vec![],
            hint: &hint,
            background: None,
        },
        &params(),
    );
    assert!(value(r.signals.size_mad) > 0.0, "{:?}", r.signals);
    let expected = params().w_size_mad as f32 / 1000.0 * value(r.signals.size_mad);
    assert!(
        (points(r.deduction(SignalKind::SizeMad)) - expected).abs() < 1e-6,
        "{r:?}"
    );
}

#[test]
fn border_touch_counts_only_groups_in_the_margin() {
    let mask = mask_of(400, 400);
    let hint = GridHint::default();
    let inside: Vec<IconGroup> = (0..4).map(|i| group(50 + i * 60, 50, 30, 30)).collect();
    assert_eq!(
        value(score_groups(
            ScoreInput {
                groups: &inside,
                mask: &mask,
                merges: 0,
                restored: &vec![],
                hint: &hint,
                background: None,
            },
            &params(),
        )
        .signals
        .border_touch),
        0.0
    );
    let mut edge = inside.clone();
    edge.push(group(0, 100, 30, 30));
    edge.push(group(370, 100, 30, 30));
    let r = score_groups(
        ScoreInput {
            groups: &edge,
            mask: &mask,
            merges: 0,
            restored: &vec![],
            hint: &hint,
            background: None,
        },
        &params(),
    );
    assert!(
        (value(r.signals.border_touch) - 2.0 / 6.0).abs() < 1e-6,
        "{:?}",
        r.signals
    );
}

#[test]
fn weak_grid_fires_only_for_measured_irregular_valleys() {
    let mask = lattice_mask();
    let hint = GridHint {
        // x: measured, but too irregular to be a grid.
        pitch_x: Pitch { median: 100, mad: 40 },
        valley_x: vec![60, 170, 280],
        // y: a real grid, so it must not count as weak.
        grid_y: true,
        pitch_y: Pitch { median: 100, mad: 2 },
        valley_y: vec![70, 170, 270],
        ..GridHint::default()
    };
    let r = score_groups(
        ScoreInput {
            groups: &lattice_groups(),
            mask: &mask,
            merges: 0,
            restored: &vec![],
            hint: &hint,
            background: None,
        },
        &params(),
    );
    assert_eq!(value(r.signals.spans), 0.0, "row valleys do not straddle: {r:?}");
    assert_eq!(value(r.signals.weak_grid), 0.5, "one of two axes is weak");
    assert!(
        (points(r.deduction(SignalKind::WeakGrid)) - 0.05).abs() < 1e-6,
        "{r:?}"
    );
}

#[test]
fn uncertain_background_reads_the_detector() {
    let mask = mask_of(200, 200);
    let hint = GridHint::default();
    let groups = vec![group(50, 50, 30, 30)];
    let bg = |kind, milli| BackgroundModel {
        kind,
        rgba: [255, 255, 255, 255],
        consensus: consensus(milli),
    };
    let signal = |kind, milli| {
        value(score_groups(
            ScoreInput {
                groups: &groups,
                mask: &mask,
                merges: 0,
                restored: &vec![],
                hint: &hint,
                background: Some(&bg(kind, milli)),
            },
            &params(),
        )
        .signals
        .uncertain_background)
    };
    assert_eq!(signal(BackgroundKind::BorderConsensus, 970), 0.0);
    assert!(signal(BackgroundKind::BorderConsensus, 700) > 0.0);
    assert_eq!(signal(BackgroundKind::KMeans, 990), 1.0);
    assert_eq!(signal(BackgroundKind::Otsu, 990), 1.0);
    assert_eq!(
        value(score_groups(
            ScoreInput {
                groups: &groups,
                mask: &mask,
                merges: 0,
                restored: &vec![],
                hint: &hint,
                background: None,
            },
            &params(),
        )
        .signals
        .uncertain_background),
        0.0,
        "no model ⇒ no guess"
    );
}

#[test]
fn all_six_signals_at_full_strength_floor_the_score() {
    let mask = ForegroundMask::new(100, 100);
    // 2 groups, one on the border, wildly different sizes, spanning cells.
    let groups = vec![group(0, 0, 90, 90), group(0, 0, 6, 6)];
    let hint = GridHint {
        // x: a real grid the wide group straddles; y: measured but too
        // irregular to be one — that axis is the weak-grid signal.
        grid_x: true,
        cells_x: 3,
        pitch_x: Pitch { median: 100, mad: 1 },
        valley_x: vec![5, 15],
        pitch_y: Pitch { median: 100, mad: 40 },
        valley_y: vec![5, 15],
        ..GridHint::default()
    };
    let background = BackgroundModel {
        kind: BackgroundKind::Otsu,
        rgba: [0, 0, 0, 0],
        consensus: consensus(200),
    };
    let report = score_groups(
        ScoreInput {
            groups: &groups,
            mask: &mask,
            merges: 20,
            restored: &vec![],
            hint: &hint,
            background: Some(&background),
        },
        &params(),
    );
    for kind in SignalKind::all() {
        assert!(
            points(report.deduction(kind)) > 0.0,
            "{:?} should contribute: {report:?}",
            kind.label()
        );
    }
    assert!(points(report.score) < 0.3, "{report:?}");
    assert_eq!(
        report.score,
        FULL_SCORE.saturating_sub(report.deductions.iter().sum::<u64>())
    );
}

#[test]
fn disabled_reports_a_perfect_score_without_measuring() {
    let mask = ForegroundMask::new(100, 100);
    let groups = vec![group(0, 0, 90, 90)];
    let hint = GridHint::default();
    let report = score_groups(
        ScoreInput {
            groups: &groups,
            mask: &mask,
            merges: 0,
            restored: &vec![],
            hint: &hint,
            background: None,
        },
        &ConfidenceParams {
            enabled: false,
            ..params()
        },
    );
    assert_eq!(report.score, FULL_SCORE);
    assert_eq!(report.review_groups, 0);
    assert_eq!(report.deductions, [0; SIGNAL_COUNT]);
}

#[test]
fn restored_merge_groups_warn_and_deduct_as_lattice_flags() {
    // A near-touching pair F5 handed back: neither group straddles a valley
    // any more (the lattice hint below has no valleys through them), yet
    // both must appear as review items with no score penalty.
    let mask = lattice_mask();
    let hint = lattice_hint(&mask);
    let groups = lattice_groups();
    let restored = vec![groups[5], groups[6]];
    let report = score_groups(
        ScoreInput {
            groups: &groups,
            mask: &mask,
            // 8/24 merges ⇒ above the 25 % ramp, below full.
            merges: 8,
            restored: &restored,
            hint: &hint,
            background: None,
        },
        &params(),
    );
    assert_eq!(report.review_groups, 2, "{report:?}");
    assert!(report
        .warnings
        .iter()
        .all(|w| w.kind == WarningKind::RestoredFromMerge));
    assert_eq!(report.warnings[0].group, 5);
    assert_eq!(report.warnings[1].group, 6);
    assert_eq!(
        value(report.signals.spans),
        2.0 / 16.0,
        "both restorations count as lattice flags: {report:?}"
    );
    assert!(value(report.signals.merge_ratio) > 0.0, "their merges did happen");
    assert!(
        (points(report.deduction(SignalKind::SpansMultipleCells)) - 0.30 * 2.0 / 16.0).abs() < 1e-6,
        "{report:?}"
    );
}

#[test]
fn scoring_is_deterministic_for_sorted_inputs() {
    let mask = lattice_mask();
    let groups = lattice_groups();
    let hint = lattice_hint(&mask);
    let input = ScoreInput {
        groups: &groups,
        mask: &mask,
        merges: 4,
        restored: &vec![],
        hint: &hint,
        background: None,
    };
    let a = score_groups(input, &params());
    let b = score_groups(input, &params());
    assert_eq!(a.signals, b.signals);
    assert_eq!(a.deductions, b.deductions);
    assert_eq!(a.score, b.score);
    assert_eq!(a.warnings, b.warnings);
}

#[test]
fn summary_line_matches_the_spec_example() {
    let report = ConfidenceReport {
        score: 920_000_000,
        review_groups: 3,
        ..ConfidenceReport::default()
    };
    assert_eq!(
        summary_line(84, 31, &report),
        "Grouped 84 icons in 0.31 s · confidence 92% · 3 groups need review"
    );

    let clean = ConfidenceReport {
        score: FULL_SCORE,
        review_groups: 0,
        ..ConfidenceReport::default()
    };
    assert_eq!(
        summary_line(16, 5, &clean),
        "Grouped 16 icons in 0.05 s · confidence 100% · no groups need review"
    );

    let one = ConfidenceReport {
        score: 700_000_000,
        review_groups: 1,
        ..ConfidenceReport::default()
    };
    assert!(summary_line(20, 12, &one).ends_with("· 1 group needs review"));
}
