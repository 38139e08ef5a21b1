use iconforge::geometry::Bbox;
use iconforge::group::{CclGrouper, RleCclGrouper};
use iconforge::mask::ForegroundMask;

/// A fixed sequence, so that the masks are the same everywhere.
struct Lcg(u64);

impl Lcg {
    fn new(seed: u64) -> Self {
        Self(seed)
    }

    fn below(&mut self, bound: u32) -> u32 {
        self.0 = self
            .0
            .wrapping_mul(6_364_136_223_846_793_005)
            .wrapping_add(1_442_695_040_888_963_407);
        ((self.0 >> 33) as u32) % bound
    }
}

fn random_mask(w: u32, h: u32, permille: u32, seed: u64) -> ForegroundMask {
    let mut mask = ForegroundMask::new(w, h);
    let mut rng = Lcg::new(seed);
    for y in 0..h {
        for x in 0..w {
            if rng.below(1000) < permille {
                mask.set(x, y, true);
            }
        }
    }
    mask
}

/// Run-based grouping must equal pixel-domain grouping.
fn assert_oracles_agree(mask: &ForegroundMask, min_area: u32, what: &str) {
    let pixel = CclGrouper { min_area }.group_all(mask);
    let rle = RleCclGrouper { min_area }.group_all(mask);
    assert_eq!(rle, pixel, "{what} (min_area {min_area})");
}

#[test]
fn groups_disconnected_blocks_and_filters_noise() {
    let mut mask = ForegroundMask::new(32, 32);
    // 6x6 block at (4,4)
    for y in 4..10 {
        for x in 4..10 {
            mask.set(x, y, true);
        }
    }
    // 8x3 block at (20,20)
    for y in 20..23 {
        for x in 20..28 {
            mask.set(x, y, true);
        }
    }
    // 2x2 noise at (0, 28) — below min_area
    for y in 28..30 {
        for x in 0..2 {
            mask.set(x, y, true);
        }
    }
    // Diagonal touch: two 3x3 blocks joined ONLY by the single bridge
    // pixel (19,9) — 8-connectivity must merge them into one group.
    for y in 6..9 {
        for x in 16..19 {
            mask.set(x, y, true);
        }
    }
    mask.set(19, 9, true);
    for y in 10..13 {
        for x in 20..23 {
            mask.set(x, y, true);
        }
    }

    let groups = CclGrouper::default().group_all(&mask);
    assert_eq!(groups.len(), 3, "diagonal touch merges; noise is filtered");
    // Deterministic order: (y, x).
    assert_eq!(groups[0].bbox, Bbox::new(4, 4, 6, 6).unwrap());
    assert_eq!(
        groups[1].bbox,
        Bbox::new(16, 6, 7, 7).unwrap(),
        "diagonally touched blocks form one 7x7 group"
    );
    assert_eq!(groups[2].bbox, Bbox::new(20, 20, 8, 3).unwrap());

    // The run-based grouper returns the same three groups, same order.
    assert_oracles_agree(&mask, 16, "diagonal touch + speckle");
    assert_eq!(
        RleCclGrouper::default().group_all(&mask),
        groups,
        "RLE grouper output must match the oracle exactly"
    );
}

#[test]
fn last_column_does_not_wrap_to_first() {
    // Regression for the CCL bounds bug: a component flush against the
    // right edge must not union with one flush against the left edge of
    // the same rows.
    let mut mask = ForegroundMask::new(24, 24);
    for y in 10..14 {
        for x in 20..24 {
            mask.set(x, y, true); // flush right
        }
        for x in 0..4 {
            mask.set(x, y, true); // flush left
        }
    }
    let groups = CclGrouper { min_area: 1 }.group_all(&mask);
    assert_eq!(groups.len(), 2, "edge columns must not wrap around");
    assert_eq!(groups[0].bbox, Bbox::new(0, 10, 4, 4).unwrap());
    assert_eq!(groups[1].bbox, Bbox::new(20, 10, 4, 4).unwrap());

    // The run sweep is immune by construction: columns never wrap because
    // run coordinates are per-row. Prove it on the same mask.
    let rle = RleCclGrouper { min_area: 1 }.group_all(&mask);
    assert_eq!(rle, groups);
}

#[test]
fn rle_matches_pixel_oracle_on_random_masks() {
    for seed in 0..8u64 {
        for permille in [80u32, 250, 500, 800] {
            let mask = random_mask(97, 61, permille, seed * 16 + permille as u64);
            for min_area in [1u32, 4, 16, 64] {
                assert_oracles_agree(&mask, min_area, "random mask");
            }
        }
    }
}

#[test]
fn rle_matches_pixel_oracle_on_structured_patterns() {
    // Diagonal 1-px chain: only 8-connectivity keeps it one component.
    let mut diag = ForegroundMask::new(64, 64);
    for i in 0..30 {
        diag.set(i, i, true);
    }
    assert_oracles_agree(&diag, 1, "diagonal chain");
    assert_eq!(
        RleCclGrouper { min_area: 1 }
            .group_all(&diag)
            .len(),
        1
    );

    // 2×2 checkerboard: under 8-connectivity the whole block is one
    // component (every background pixel is a diagonal-only gap).
    let mut checker = ForegroundMask::new(32, 32);
    for y in 0..8 {
        for x in 0..8 {
            if (x + y) % 2 == 0 {
                checker.set(x, y, true);
            }
        }
    }
    assert_oracles_agree(&checker, 1, "checkerboard");
    assert_eq!(
        RleCclGrouper { min_area: 1 }
            .group_all(&checker)
            .len(),
        1
    );

    // Two blocks with a 2-column gap: separated until two explicitly set
    // bridge pixels on the last shared row join them into one component.
    let mut bridge = ForegroundMask::new(48, 24);
    for y in 4..8 {
        for x in 4..12 {
            bridge.set(x, y, true);
        }
        for x in 14..22 {
            bridge.set(x, y, true);
        }
    }
    assert_eq!(
        RleCclGrouper { min_area: 1 }.group_all(&bridge).len(),
        2
    );
    bridge.set(12, 7, true);
    bridge.set(13, 7, true);
    assert_oracles_agree(&bridge, 1, "bridged blocks");
    let joined = RleCclGrouper { min_area: 1 }.group_all(&bridge);
    assert_eq!(joined.len(), 1, "bridge pixel must join both blocks");
    assert_eq!(joined[0].bbox, Bbox::new(4, 4, 18, 4).unwrap());
    assert_eq!(joined[0].origin, (4, 4));

    // Ink flush against all four borders: one frame component.
    let mut edge = ForegroundMask::new(40, 30);
    for x in 0..40 {
        edge.set(x, 0, true);
        edge.set(x, 29, true);
    }
    for y in 0..30 {
        edge.set(0, y, true);
        edge.set(39, y, true);
    }
    assert_oracles_agree(&edge, 1, "border frame");
    let frame = RleCclGrouper { min_area: 1 }.group_all(&edge);
    assert_eq!(frame.len(), 1);
    assert_eq!(frame[0].bbox, Bbox::new(0, 0, 40, 30).unwrap());
}

#[test]
fn rle_handles_empty_single_and_full_masks() {
    let empty = ForegroundMask::new(24, 24);
    assert!(RleCclGrouper::default().group_all(&empty).is_empty());
    assert!(CclGrouper::default().group_all(&empty).is_empty());

    let mut one = ForegroundMask::new(24, 24);
    one.set(7, 19, true);
    let groups = RleCclGrouper { min_area: 1 }.group_all(&one);
    assert_eq!(groups.len(), 1);
    assert_eq!(groups[0].bbox, Bbox::new(7, 19, 1, 1).unwrap());
    assert_eq!(groups[0].area, 1);
    assert_eq!(groups[0].origin, (7, 19));
    // The same pixel is a speckle below min_area.
    assert!(RleCclGrouper { min_area: 2 }.group_all(&one).is_empty());

    let mut full = ForegroundMask::new(40, 30);
    for y in 0..30 {
        for x in 0..40 {
            full.set(x, y, true);
        }
    }
    assert_oracles_agree(&full, 16, "full mask");
    let solid = RleCclGrouper::default().group_all(&full);
    assert_eq!(solid.len(), 1);
    assert_eq!(solid[0].bbox, Bbox::new(0, 0, 40, 30).unwrap());
    assert_eq!(solid[0].area, 40 * 30);
    assert_eq!(solid[0].origin, (0, 0));
}

#[test]
fn rle_matches_pixel_oracle_at_sheet_scale() {
    // 1024² sheet: 32×32 blocks of 24×24 in 32-px cells — the largest
    // mask the pixel oracle can be compared against cheaply.
    let mut mask = ForegroundMask::new(1024, 1024);
    for gy in 0..32u32 {
        for gx in 0..32u32 {
            let x0 = gx * 32 + 4;
            let y0 = gy * 32 + 4;
            for y in y0..y0 + 24 {
                for x in x0..x0 + 24 {
                    mask.set(x, y, true);
                }
            }
        }
    }
    let pixel = CclGrouper { min_area: 16 }.group_all(&mask);
    let t0 = std::time::Instant::now();
    let rle = RleCclGrouper { min_area: 16 }.group_all(&mask);
    let rle_ms = t0.elapsed().as_secs_f64() * 1000.0;
    assert_eq!(rle, pixel, "1024² sheet: RLE must equal the oracle");
    assert_eq!(rle.len(), 1024, "32×32 blocks = 1024 groups");
    assert_eq!(rle[0].bbox, Bbox::new(4, 4, 24, 24).unwrap());
    assert!(
        rle_ms < 500.0,
        "RLE grouping must stay far under 0.5 s: {rle_ms:.1} ms"
    );
    
}

#[test]
fn rle_matches_pixel_oracle_at_keystone_scale() {
    // 4096² sheet with 100 blocks — a large sheet.
    let mut mask = ForegroundMask::new(4096, 4096);
    for gy in 0..10u32 {
        for gx in 0..10u32 {
            let x0 = gx * 400 + 40;
            let y0 = gy * 400 + 40;
            for y in y0..y0 + 200 {
                for x in x0..x0 + 200 {
                    mask.set(x, y, true);
                }
            }
        }
    }
    let t0 = std::time::Instant::now();
    let rle = RleCclGrouper { min_area: 16 }.group_all(&mask);
    let rle_ms = t0.elapsed().as_secs_f64() * 1000.0;
    assert_eq!(rle.len(), 100, "10×10 blocks = 100 groups");
    assert_eq!(rle[0].bbox, Bbox::new(40, 40, 200, 200).unwrap());
    assert!(
        rle_ms < 2000.0,
        "keystone-scale grouping must beat the 2 s budget: {rle_ms:.1} ms"
    );
    

    let pixel = CclGrouper { min_area: 16 }.group_all(&mask);
    assert_eq!(
        rle, pixel,
        "4096² keystone shape: RLE must equal the oracle"
    );
    
}
