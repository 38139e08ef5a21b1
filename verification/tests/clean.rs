use iconforge::clean::{clean, close, close3, dilate3, erode3, median3, open3};
use iconforge::mask::ForegroundMask;

/// Builds a mask from `(x, y)` pixel lists.
fn mask(w: u32, h: u32, px: &[(u32, u32)]) -> ForegroundMask {
    let mut m = ForegroundMask::new(w, h);
    for &(x, y) in px {
        m.set(x, y, true);
    }
    m
}

fn runs_of(m: &ForegroundMask) -> Vec<(u32, u32, u32)> {
    m.runs().iter().map(|r| (r.y, r.x_start, r.x_end)).collect()
}

#[test]
fn dilate3_single_pixel_becomes_3x3_block() {
    let m = mask(7, 7, &[(3, 3)]);
    let d = dilate3(&m);
    assert_eq!(d.ink_count(), 9);
    assert_eq!(runs_of(&d), vec![(2, 2, 5), (3, 2, 5), (4, 2, 5)]);
}

#[test]
fn erode3_of_3x3_block_returns_center() {
    let m = mask(
        7,
        7,
        &[
            (2, 2),
            (3, 2),
            (4, 2),
            (2, 3),
            (3, 3),
            (4, 3),
            (2, 4),
            (3, 4),
            (4, 4),
        ],
    );
    let e = erode3(&m);
    assert_eq!(runs_of(&e), vec![(3, 3, 4)]);
}

#[test]
fn morphology_respects_word_boundaries() {
    // Width 100 → stride 2; runs crossing the 63|64 word boundary and
    // touching the right edge (padding bits must never leak into
    // results). Three ink rows so erosion has vertical support.
    let mut m = ForegroundMask::new(100, 5);
    for y in 1..=3u32 {
        m.set(63, y, true);
        m.set(64, y, true);
        for x in 95..100 {
            m.set(x, y, true);
        }
    }
    let d = dilate3(&m);
    assert!(d.get(62, 2) && d.get(65, 2) && d.get(94, 2) && d.get(99, 2));
    assert!(!d.get(61, 2), "dilation stays within ±1");
    let e = erode3(&d);
    // d is a 5-row band (rows 0..4) of {62..65} ∪ {94..99}; erosion of a
    // band leaves rows 1..=3 with the x-kernel core {63,64} ∪ {95..98}.
    assert!(!e.get(62, 2) && !e.get(65, 2), "edge pixels erode away");
    assert!(e.get(63, 2) && e.get(64, 2));
    assert!(e.get(95, 2) && e.get(96, 2) && e.get(97, 2) && e.get(98, 2));
    assert!(e.get(63, 1) && e.get(98, 3), "inner rows survive too");
    assert!(!e.get(63, 0) && !e.get(63, 4), "outer rows erode away");
    assert_eq!(e.ink_count(), 18);
}

#[test]
fn median3_removes_isolated_and_cuts_corners() {
    // Single pixel → gone.
    let m = mask(7, 7, &[(3, 3)]);
    assert_eq!(median3(&m).ink_count(), 0);
    // Solid 3×3 → corners cut (4/9), edge mids and centre stay (6–9/9).
    let m = mask(
        7,
        7,
        &[
            (2, 2),
            (3, 2),
            (4, 2),
            (2, 3),
            (3, 3),
            (4, 3),
            (2, 4),
            (3, 4),
            (4, 4),
        ],
    );
    let md = median3(&m);
    assert_eq!(md.ink_count(), 5, "plus shape");
    assert!(md.get(3, 2) && md.get(2, 3) && md.get(3, 3) && md.get(4, 3) && md.get(3, 4));
    assert!(!md.get(2, 2) && !md.get(4, 4));
}

#[test]
fn open3_removes_isolated_pixel_keeps_block() {
    let mut px = vec![(0u32, 0u32)];
    for y in 4..7 {
        for x in 4..7 {
            px.push((x, y));
        }
    }
    let m = mask(9, 9, &px);
    let o = open3(&m);
    assert!(!o.get(0, 0), "isolated pixel removed");
    assert_eq!(o.ink_count(), 9, "block restored");
    assert_eq!(runs_of(&o), vec![(4, 4, 7), (5, 4, 7), (6, 4, 7)]);
}

#[test]
fn close3_bridges_two_pixel_gap() {
    let mut px = Vec::new();
    for y in 0..2 {
        for x in 0..2 {
            px.push((x, y));
        }
        for x in 4..6 {
            px.push((x, y));
        }
    }
    let m = mask(8, 4, &px);
    let c = close3(&m);
    assert!(c.get(2, 1) && c.get(3, 1), "gap bridged");
    // Dilated blocks merge to cols 0..=6 (rows 0..2); the erosion core
    // is a single row, cols 1..=5.
    assert_eq!(c.ink_count(), 5);
    assert_eq!(runs_of(&c), vec![(1, 1, 6)]);
}

#[test]
fn close_passes_2_uses_wider_kernel() {
    // Two 3-row-tall blocks 3 apart (gap cols 2..5): close(3) cannot
    // bridge, the double-dilate of close(5) can. (Blocks must be ≥3
    // rows tall or the second erosion annihilates the thin core.)
    let mut px = Vec::new();
    for y in 0..3 {
        for x in 0..2 {
            px.push((x, y));
        }
        for x in 5..7 {
            px.push((x, y));
        }
    }
    let m = mask(9, 5, &px);
    assert!(!close(&m, 1).get(3, 1), "3×3 close cannot bridge 3-gap");
    assert!(
        close(&m, 2).get(3, 2) && close(&m, 2).get(4, 2),
        "5×5 close bridges"
    );
}

#[test]
fn clean_end_to_end_denoises_and_bridges() {
    // 6×6 block at (2..8)² + two isolated noise pixels + a 2-px split.
    let mut px = Vec::new();
    for y in 2..8 {
        for x in 2..8 {
            px.push((x, y));
        }
    }
    let block_only = mask(16, 16, &px);
    let cleaned = clean(&block_only, 1);
    // Core intact, no phantom growth far away, sane total (16..49).
    assert!(cleaned.get(4, 4) && cleaned.get(5, 5));
    assert!(!cleaned.get(0, 0) && !cleaned.get(15, 15));
    assert!(
        (16..=49).contains(&cleaned.ink_count()),
        "{}",
        cleaned.ink_count()
    );

    px.push((12, 12));
    px.push((14, 14));
    let speckled = mask(16, 16, &px);
    let cleaned = clean(&speckled, 1);
    assert!(!cleaned.get(12, 12), "salt removed");
    assert!(!cleaned.get(14, 14), "pepper removed");
    assert!(cleaned.get(4, 4), "block survives");
}

#[test]
fn empty_mask_stays_empty() {
    let m = ForegroundMask::new(70, 5);
    assert_eq!(clean(&m, 1).ink_count(), 0);
    assert_eq!(dilate3(&m).ink_count(), 0);
}

#[test]
fn full_mask_roundtrips_through_clean() {
    // Solid 3×5 block (fills the 5×3 image): median cuts the 4 corners,
    // open restores the block, close re-cores it to row 1, cols 1..=3.
    let mut px = Vec::new();
    for y in 0..3 {
        for x in 0..5 {
            px.push((x, y));
        }
    }
    let m = mask(5, 3, &px);
    let c = clean(&m, 1);
    assert_eq!(runs_of(&c), vec![(1, 1, 4)]);
    assert_eq!(c.ink_count(), 3);
}
