use iconforge::background::{BackgroundKind, BackgroundModel, SegParams};
use iconforge::confidence::{GroupWarning, WarningKind, FULL_SCORE};
use iconforge::geometry::{Bbox, IconGroup};
use iconforge::grouping::{
    GroupingParams, GroupingReport, GroupingSession, PreviewImage, GROUPING_VERSION, PREVIEW_CACHE,
};
use iconforge::mask::ForegroundMask;
use iconforge::merge::RefineParams;
use iconforge::ratio::Ratio;
use iconforge::sensitivity::SensitivityParams;

/// The report on screen.
fn current(s: &GroupingSession) -> GroupingReport {
    s.current_report().expect("a sheet is on screen").clone()
}

const KEY: &str = "test-sheet";

fn bg() -> BackgroundModel {
    BackgroundModel {
        kind: BackgroundKind::BorderConsensus,
        rgba: [255, 255, 255, 255],
        consensus: Ratio { num: 99, den: 100 },
    }
}

fn blk(m: &mut ForegroundMask, x0: u32, y0: u32, w: u32, h: u32) {
    for y in 0..h {
        for x in 0..w {
            m.set(x0 + x, y0 + y, true);
        }
    }
}

/// Five irregular icons — no lattice, so every stage is exercised without
/// the F5 hint flagging anything.
fn scattered() -> ForegroundMask {
    let mut m = ForegroundMask::new(200, 140);
    blk(&mut m, 12, 12, 24, 24);
    blk(&mut m, 60, 16, 17, 21);
    blk(&mut m, 116, 10, 31, 27);
    blk(&mut m, 24, 78, 22, 22);
    blk(&mut m, 92, 88, 26, 19);
    m
}

/// Two icons joined by an 8 px bar: one component the watershed can split.
fn dumbbell() -> ForegroundMask {
    let mut m = ForegroundMask::new(200, 140);
    blk(&mut m, 30, 30, 22, 22);
    blk(&mut m, 80, 30, 22, 22);
    blk(&mut m, 52, 37, 28, 8);
    m
}

/// Two 20×20 blocks 2 px apart plus two irregular distractors: nothing is
/// merged at the default `rule5_max_area_ratio`, and the pair is exactly
/// what the sensitivity slider is for.
fn pair() -> ForegroundMask {
    let mut m = ForegroundMask::new(200, 140);
    blk(&mut m, 30, 30, 20, 20);
    blk(&mut m, 52, 30, 20, 20);
    blk(&mut m, 120, 20, 24, 24);
    blk(&mut m, 40, 90, 17, 21);
    m
}

/// A 4×4 lattice plus a small fragment F1 glues to its neighbour: F5 then
/// proves the merge wrong and hands both parts back, so the review list
/// is non-empty.
fn lattice_fragment() -> ForegroundMask {
    let mut m = ForegroundMask::new(300, 300);
    for row in 0..4u32 {
        for col in 0..4u32 {
            blk(&mut m, 32 + col * 64, 32 + row * 64, 24, 24);
        }
    }
    blk(&mut m, 58, 32, 10, 12);
    m
}

fn session_with(mask: &ForegroundMask) -> GroupingSession {
    let mut s = GroupingSession::new(2);
    s.cache_mut().put(KEY, mask, &bg());
    s
}

fn boxes(groups: &[IconGroup]) -> Vec<(u32, u32, u32, u32)> {
    groups
        .iter()
        .map(|g| (g.bbox.x, g.bbox.y, g.bbox.w, g.bbox.h))
        .collect()
}

#[test]
fn group_all_reports_groups_confidence_and_the_status_line() {
    let mut s = session_with(&scattered());
    let report = s.group_sheet(KEY, false).expect("grouped").clone();
    assert_eq!(
        boxes(&report.groups),
        vec![
            (116, 10, 31, 27),
            (12, 12, 24, 24),
            (60, 16, 17, 21),
            (24, 78, 22, 22),
            (92, 88, 26, 19)
        ],
        "canonical scan order"
    );
    assert_eq!((report.width, report.height), (200, 140));
    assert_eq!(report.sheet_key, KEY);
    assert_eq!(
        report.status_line(0),
        "Grouped 5 icons in 0.00 s · confidence 100% · no groups need review"
    );
    assert_eq!(
        report.confidence().score, FULL_SCORE,
        "{:?}",
        report.confidence().signals
    );
    assert!(report.confidence().warnings.is_empty());
    assert_eq!(report.manual_edits, 0);
    assert!(!report.mask_cache_hit);
    assert_eq!(report.stats.median_h2, 2 * 22);
}

#[test]
fn grouping_is_a_pure_function_of_the_mask_and_the_params() {
    let mut a = session_with(&lattice_fragment());
    let mut b = session_with(&lattice_fragment());
    let ra = a.group_sheet(KEY, false).unwrap().clone();
    let rb = b.group_sheet(KEY, false).unwrap().clone();
    assert_eq!(ra.groups, rb.groups);
    assert_eq!(ra.hint(), rb.hint());
    assert_eq!(ra.stats.grid.flagged, rb.stats.grid.flagged);
    assert_eq!(ra.stats.grid.restored, rb.stats.grid.restored);
    assert_eq!(ra.stats.grid.valleys_x, rb.stats.grid.valleys_x);
    assert_eq!(ra.stats.grid.valleys_y, rb.stats.grid.valleys_y);
    assert_eq!(ra.confidence().score, rb.confidence().score);
    assert_eq!(ra.confidence().signals, rb.confidence().signals);
    assert_eq!(ra.confidence().warnings, rb.confidence().warnings);
    assert_eq!(ra.status_line(0), rb.status_line(0));
}

#[test]
fn unknown_keys_group_to_nothing() {
    let mut s = GroupingSession::new(1);
    assert!(s.group_sheet("absent", false).is_none());
    assert!(s.current_key().is_none());
    assert!(s.split_here(10, 10).is_none());
    assert!(s
        .group_selected(&[Bbox::new(0, 0, 10, 10).unwrap()])
        .is_none());
    assert!(s.set_refine(RefineParams::default()).is_none());
    assert!(s.reset_manual().is_none());
}

#[test]
fn split_here_splits_the_component_under_the_pointer() {
    let mut s = session_with(&dumbbell());
    let before = s.group_sheet(KEY, false).unwrap().clone();
    assert_eq!(
        before.groups.len(),
        1,
        "the bar glue makes it one component"
    );
    let b = before.groups[0].bbox;
    assert_eq!((b.x, b.y, b.w, b.h), (30, 30, 72, 22));

    let out = s.split_here(b.x + b.w / 2, b.y + b.h / 2).expect("hit");
    assert_eq!(out.group_index, 0);
    assert!(out.split, "watershed must find two lobes: {out:?}");
    assert_eq!(out.regions, 2);
    let report = current(&s);
    assert_eq!(
        boxes(&report.groups),
        vec![(30, 30, 49, 22), (79, 30, 23, 22)],
        "the two icons, with the bar shared by the watershed"
    );
    assert_eq!(report.manual_edits, 1);
    // The edit is view state: Group All again restores the automatic result.
    let reset = s.reset_manual().unwrap().clone();
    assert_eq!(reset.groups, before.groups);
    assert_eq!(reset.manual_edits, 0);
}

#[test]
fn split_here_refuses_when_the_guards_say_no() {
    // A solid, near-square icon: no watershed structure to find.
    let mut s = session_with(&scattered());
    let before = s.group_sheet(KEY, false).unwrap().clone();
    let solid = before
        .groups
        .iter()
        .position(|g| g.bbox == Bbox::new(12, 12, 24, 24).unwrap())
        .expect("the solid block");
    let out = s.split_here(13, 13).expect("hit");
    assert_eq!(out.group_index, solid);
    assert!(!out.split, "a solid icon is never split: {out:?}");
    assert_eq!(out.regions, 0);
    assert_eq!(current(&s), before);
}

#[test]
fn split_here_misses_outside_every_group() {
    let mut s = session_with(&scattered());
    s.group_sheet(KEY, false).unwrap();
    assert!(s.split_here(3, 3).is_none(), "empty corner");
    assert!(s.split_here(199, 139).is_none(), "empty corner");
}

#[test]
fn group_selected_merges_the_marquee_hits_only() {
    let mut s = session_with(&scattered());
    let report = s.group_sheet(KEY, false).unwrap().clone();
    // The marquee covers the (12,12) and (60,16) icons, nothing else.
    let marquee = Bbox::new(0, 0, 100, 60).unwrap();
    let out = s.group_selected(&[marquee]).expect("grouped").clone();
    assert_eq!(out.manual_edits, 1);
    assert_eq!(
        boxes(&out.groups),
        vec![
            (116, 10, 31, 27),
            (12, 12, 65, 25),
            (24, 78, 22, 22),
            (92, 88, 26, 19)
        ]
    );
    let merged = &out.groups[1];
    assert_eq!(merged.area, 576 + 357, "areas add up");
    assert_eq!(merged.origin, (12, 12), "first member keeps the origin");
    // And the edit is re-scored: a 65×25 union across the sheet's valleys is
    // exactly what the review layer must flag.
    assert_eq!(
        out.confidence().warnings,
        vec![GroupWarning {
            group: 1,
            kind: WarningKind::SpansMultipleCells
        }]
    );
    assert!(out.confidence().score < report.confidence().score);
    assert!(out.status_line(0).contains("1 group needs review"));
}

#[test]
fn group_selected_needs_two_hits_and_reset_restores_the_auto_result() {
    let mut s = session_with(&scattered());
    let auto = s.group_sheet(KEY, false).unwrap().clone();
    let one = Bbox::new(0, 0, 40, 40).unwrap();
    let same = s.group_selected(&[one]).unwrap().clone();
    assert_eq!(same.groups, auto.groups, "one hit is a no-op");
    assert_eq!(same.manual_edits, 0);
    assert!(s.group_selected(&[]).unwrap().groups == auto.groups);

    let two = Bbox::new(0, 0, 100, 60).unwrap();
    assert_eq!(s.group_selected(&[two]).unwrap().groups.len(), 4);
    let reset = s.reset_manual().unwrap().clone();
    assert_eq!(reset.groups, auto.groups);
    assert_eq!(reset.manual_edits, 0);
}

#[test]
fn sensitivity_sliders_regroup_from_the_same_cached_mask() {
    let mut s = session_with(&pair());
    let auto = s.group_sheet(KEY, true).unwrap().clone();
    assert!(auto.mask_cache_hit);
    assert_eq!(auto.groups.len(), 4, "the 2 px pair stays apart at 1.75×");

    // Loosen rule 5's area ceiling: the pair now merges.
    let mut refine = s.params().refine;
    refine.rule5_max_area_ratio = 3000;
    let loose = s.set_refine(refine).expect("regrouped").clone();
    assert!(loose.mask_cache_hit, "sliders never re-segment");
    assert_eq!(
        boxes(&loose.groups),
        vec![(120, 20, 24, 24), (30, 30, 42, 20), (40, 90, 17, 21)]
    );
    assert_eq!(loose.manual_edits, 0, "sliders are not manual edits");

    let back = s.set_refine(GroupingParams::default().refine).unwrap().clone();
    assert_eq!(back.groups, auto.groups);
}

#[test]
fn warnings_survive_a_manual_edit() {
    let mut s = session_with(&lattice_fragment());
    let auto = s.group_sheet(KEY, false).unwrap().clone();
    let restored: Vec<GroupWarning> = auto
        .confidence()
        .warnings
        .iter()
        .filter(|w| w.kind == WarningKind::RestoredFromMerge)
        .copied()
        .collect();
    assert_eq!(restored.len(), 2, "{:?}", auto.stats.grid);
    assert_eq!(auto.confidence().review_groups, 2);

    // Group the whole bottom row: the union must be flagged, and the two
    // restoration warnings must still be there afterwards.
    let marquee = Bbox::new(20, 200, 260, 60).unwrap();
    let edited = s.group_selected(&[marquee]).unwrap().clone();
    assert_eq!(edited.manual_edits, 1);
    for w in &restored {
        assert!(
            edited.confidence().warnings.contains(w),
            "review item {w:?} was erased by the edit: {:?}",
            edited.confidence().warnings
        );
    }
    assert_eq!(
        edited.confidence().warnings.len(),
        3,
        "the marquee union straddles cells too: {:?}",
        edited.confidence().warnings
    );
    assert!(edited.status_line(0).contains("3 groups need review"));
}

#[test]
fn sensitivity_defaults_mirror_the_documented_parameters() {
    let s = SensitivityParams::from_refine(&RefineParams::default());
    assert_eq!(s.merge_gap_frac, 350);
    assert_eq!(s.merge_area_ratio, 1750);
    assert_eq!(s.noise_min_area, 16);
    assert_eq!(s.grid_regularity_min, 750);
}

#[test]
fn sensitivity_apply_writes_and_rejects_out_of_envelope() {
    let mut p = RefineParams::default();
    let knobs = SensitivityParams {
        merge_gap_frac: 500,
        merge_area_ratio: 3000,
        noise_min_area: 32,
        grid_regularity_min: 600,
    };
    knobs.apply(&mut p).expect("inside the envelope");
    assert_eq!(p.gap_frac, 500);
    assert_eq!(p.rule5_max_area_ratio, 3000);
    assert_eq!(p.noise_min_area, 32);
    assert_eq!(p.grid.regularity_min, 600);
    assert_eq!(SensitivityParams::from_refine(&p), knobs);

    // Out of envelope: refused, and the target is left untouched.
    let before = p;
    for (bad, field) in [
        (
            SensitivityParams {
                merge_gap_frac: 1500,
                ..knobs
            },
            "mergeGapFrac",
        ),
        (
            SensitivityParams {
                merge_gap_frac: i64::MIN,
                ..knobs
            },
            "mergeGapFrac",
        ),
        (
            SensitivityParams {
                merge_area_ratio: 20_000,
                ..knobs
            },
            "mergeAreaRatio",
        ),
        (
            SensitivityParams {
                grid_regularity_min: -100,
                ..knobs
            },
            "gridRegularityMin",
        ),
        (
            SensitivityParams {
                noise_min_area: 4096,
                ..knobs
            },
            "noiseMinArea",
        ),
    ] {
        let err = bad.apply(&mut p).expect_err("outside the envelope");
        assert!(err.message.contains(field), "{}", err.message);
        assert_eq!(p, before, "a refused slider leaves the parameters alone");
    }
}

#[test]
fn previews_are_cached_per_sheet_and_scale() {
    fn img(sheet: u32, width: u32, png: Vec<u8>) -> PreviewImage {
        PreviewImage {
            sheet_width: sheet,
            sheet_height: sheet,
            width,
            height: width,
            png,
        }
    }
    let mut s = GroupingSession::new(1);
    assert!(s.preview("a", 1024).is_none());
    s.store_preview("a", 1024, img(1024, 512, vec![1, 2, 3]));
    s.store_preview("a", 256, img(1024, 128, vec![4]));
    assert_eq!(
        s.preview("a", 1024).map(|p| p.png.clone()),
        Some(vec![1, 2, 3])
    );
    assert_eq!(s.preview("a", 1024).map(PreviewImage::scale), Some(Ratio { num: 512, den: 1024 }));
    assert_eq!(s.preview("a", 256).map(|p| p.width), Some(128));
    assert!(s.preview("b", 1024).is_none());

    // Re-storing the same sheet+scale replaces, it does not duplicate.
    s.store_preview("a", 1024, img(1024, 512, vec![9]));
    assert_eq!(s.preview("a", 1024).map(|p| p.png.clone()), Some(vec![9]));
    // At most `PREVIEW_CACHE` entries survive, oldest evicted.
    s.store_preview("b", 1024, img(2048, 1024, vec![7]));
    assert!(s.preview("a", 256).is_none(), "oldest evicted");
    assert_eq!(s.preview("b", 1024).map(|p| p.sheet_width), Some(2048));
    assert_eq!(PREVIEW_CACHE, 2);
}

#[test]
fn params_and_keys_are_stable() {
    let s = GroupingSession::new(3);
    assert_eq!(s.params().mask_capacity, 3);
    assert!(s.params().refine.enabled, "the UI session groups live");
    let key = s.key_for(b"bytes", &SegParams::default());
    assert!(key.contains("-v"), "{key}");
    assert_eq!(key, s.key_for(b"bytes", &SegParams::default()));
    assert_ne!(key, s.key_for(b"other", &SegParams::default()));
}

#[test]
fn api_version_is_exported() {
    assert_eq!(GROUPING_VERSION, 1);
}

#[test]
fn a_rejected_knob_is_quoted_with_its_envelope() {
    let mut p = RefineParams::default();
    let good = SensitivityParams::from_refine(&p);
    let mut knobs = good;
    knobs.merge_gap_frac = 1500;
    assert_eq!(
        knobs.apply(&mut p).expect_err("too large").message,
        "mergeGapFrac 1.5 outside [0.05, 1]"
    );
    knobs = good;
    knobs.grid_regularity_min = -125;
    assert_eq!(
        knobs.apply(&mut p).expect_err("negative").message,
        "gridRegularityMin -0.125 outside [0, 1]"
    );
    knobs = good;
    knobs.merge_area_ratio = 8010;
    assert_eq!(
        knobs.apply(&mut p).expect_err("too large").message,
        "mergeAreaRatio 8.01 outside [1, 8]"
    );
    knobs = good;
    knobs.noise_min_area = 513;
    assert_eq!(
        knobs.apply(&mut p).expect_err("too large").message,
        "noiseMinArea 513 outside [0, 512]"
    );
}

#[test]
fn touching_boxes_do_not_select() {
    let mut s = session_with(&scattered());
    let auto = s.group_sheet(KEY, false).unwrap().clone();
    // Ends where the (12,12) icon starts, and covers the (60,16) one.
    let boxes = [Bbox::new(0, 0, 12, 60).unwrap(), Bbox::new(60, 16, 2, 2).unwrap()];
    let out = s.group_selected(&boxes).unwrap();
    assert_eq!(out.groups, auto.groups);
}

#[test]
fn groups_stay_in_scan_order_after_a_split() {
    // A dumbbell whose right lobe hangs lower, beside a block that starts
    // between the two.
    let mut m = ForegroundMask::new(200, 140);
    blk(&mut m, 30, 30, 22, 22);
    blk(&mut m, 80, 36, 22, 22);
    blk(&mut m, 52, 40, 28, 8);
    blk(&mut m, 140, 33, 24, 24);
    let mut s = session_with(&m);
    let before = s.group_sheet(KEY, false).unwrap().clone();
    assert_eq!(boxes(&before.groups), vec![(30, 30, 72, 28), (140, 33, 24, 24)]);
    let out = s.split_here(66, 44).expect("hit");
    assert!(out.split, "{out:?}");
    let after = boxes(&current(&s).groups);
    assert_eq!(after.len(), 3);
    assert_eq!((after[0].0, after[0].1), (30, 30));
    assert_eq!(after[1], (140, 33, 24, 24));
    assert_eq!(after[2].1, 36);
}
