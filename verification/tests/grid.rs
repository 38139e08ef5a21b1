use iconforge::geometry::Bbox;
use iconforge::grid::{classify, detect_grid, GridFit, GridParams, GridStats};
use iconforge::mask::ForegroundMask;

/// Builds a grid mask: `n × n` solid squares of `size` px, pitch `pitch`,
/// origin `(ox, oy)`.
fn grid_mask(sheet: u32, n: u32, pitch: u32, size: u32, ox: u32, oy: u32) -> ForegroundMask {
    let mut m = ForegroundMask::new(sheet, sheet);
    for r in 0..n {
        for c in 0..n {
            let (x0, y0) = (ox + c * pitch, oy + r * pitch);
            for y in y0..(y0 + size).min(sheet) {
                for x in x0..(x0 + size).min(sheet) {
                    m.set(x, y, true);
                }
            }
        }
    }
    m
}

fn bbox(x: u32, y: u32, w: u32, h: u32) -> Bbox {
    Bbox { x, y, w, h }
}

#[test]
fn detects_a_regular_grid_on_both_axes() {
    let mask = grid_mask(256, 4, 64, 40, 8, 8);
    let mut st = GridStats::default();
    let hint = detect_grid(&mask, &GridParams::default(), &mut st);
    assert!(hint.grid_x && hint.grid_y, "{hint:?}");
    assert_eq!(hint.cells_x, 4);
    assert_eq!(hint.cells_y, 4);
    assert_eq!((hint.pitch_x.median, hint.pitch_x.mad), (64, 0), "wholly regular");
    assert_eq!(st.valleys_x, 3);
}

#[test]
fn one_lone_blob_is_not_a_grid() {
    // No valleys at all: the hint has nothing to say and nothing is
    // re-split, whatever the component's size.
    let mut mask = ForegroundMask::new(128, 128);
    for y in 20..100 {
        for x in 20..100 {
            mask.set(x, y, true);
        }
    }
    let mut st = GridStats::default();
    let hint = detect_grid(&mask, &GridParams::default(), &mut st);
    assert!(!hint.any(), "{hint:?}");
    assert_eq!(classify(&bbox(20, 20, 80, 80), &hint, 2), GridFit::OffGrid);
}

#[test]
fn scattered_icons_are_never_flagged() {
    // Whether or not a scattered
    // layout passes the (permissive) regularity bound, no single icon may
    // ever be reported as spanning two cells.
    let mut mask = ForegroundMask::new(256, 256);
    let spots = [(20u32, 20u32), (100, 30), (40, 120), (150, 150), (200, 60)];
    for (x0, y0) in spots {
        for y in y0..y0 + 24 {
            for x in x0..x0 + 24 {
                mask.set(x, y, true);
            }
        }
    }
    let mut st = GridStats::default();
    let hint = detect_grid(&mask, &GridParams::default(), &mut st);
    for (x0, y0) in spots {
        assert!(
            !matches!(
                classify(&bbox(x0, y0, 24, 24), &hint, 2),
                GridFit::SpansMultipleCells { .. }
            ),
            "single icon at ({x0},{y0}) must not be flagged"
        );
    }
}

#[test]
fn a_single_valley_axis_is_never_a_grid_axis() {
    // Two blocks only: one interior valley, no width sample.
    let mut mask = ForegroundMask::new(128, 128);
    for y in 20..100 {
        for x in 10..50 {
            mask.set(x, y, true);
        }
        for x in 70..110 {
            mask.set(x, y, true);
        }
    }
    let mut st = GridStats::default();
    let hint = detect_grid(&mask, &GridParams::default(), &mut st);
    assert!(!hint.grid_x && !hint.grid_y, "{hint:?}");
}

#[test]
fn classify_flags_a_merged_pair_and_spares_single_icons() {
    let mask = grid_mask(256, 4, 64, 40, 8, 8);
    let mut st = GridStats::default();
    let hint = detect_grid(&mask, &GridParams::default(), &mut st);
    // Single icon: 8..48 inside the first band.
    assert!(matches!(
        classify(&bbox(8, 8, 40, 40), &hint, 2),
        GridFit::Cell { col: 0, row: 0 }
    ));
    // Merged pair across the first valley (centre 64): 10..118.
    assert!(matches!(
        classify(&bbox(10, 8, 108, 40), &hint, 2),
        GridFit::SpansMultipleCells { axes: 1 }
    ));
    // Two icons merged vertically.
    assert!(matches!(
        classify(&bbox(8, 10, 40, 108), &hint, 2),
        GridFit::SpansMultipleCells { axes: 2 }
    ));
}

#[test]
fn classify_tolerates_two_pixels_of_drift() {
    let mask = grid_mask(256, 4, 64, 40, 8, 8);
    let mut st = GridStats::default();
    let hint = detect_grid(&mask, &GridParams::default(), &mut st);
    // A box that pokes 1 px past the valley centre on both sides is still
    // one cell (within the 2-px tolerance).
    assert!(matches!(
        classify(&bbox(63, 8, 3, 40), &hint, 2),
        GridFit::Cell { .. }
    ));
}

#[test]
fn off_grid_when_no_axis_qualifies() {
    let mut mask = ForegroundMask::new(64, 64);
    for y in 4..12 {
        for x in 4..12 {
            mask.set(x, y, true);
        }
    }
    let mut st = GridStats::default();
    let hint = detect_grid(&mask, &GridParams::default(), &mut st);
    assert!(!hint.any());
    assert_eq!(classify(&bbox(4, 4, 8, 8), &hint, 2), GridFit::OffGrid);
}

#[test]
fn detection_is_deterministic_and_profiles_use_runs() {
    let mask = grid_mask(256, 4, 64, 40, 8, 8);
    let mut a = GridStats::default();
    let mut b = GridStats::default();
    let ha = detect_grid(&mask, &GridParams::default(), &mut a);
    let hb = detect_grid(&mask, &GridParams::default(), &mut b);
    assert_eq!(ha, hb);
    assert_eq!(
        (a.flagged, a.resplit, a.regions),
        (b.flagged, b.resplit, b.regions)
    );
    assert_eq!(ha.valley_x, ha.valley_y, "square lattice is symmetric");
}
