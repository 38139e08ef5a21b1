use iconforge::background::{
    build_mask, detect_background, detect_kmeans_corners, BackgroundKind, BackgroundModel, SegParams,
};
use iconforge::mask::ForegroundMask;
use iconforge::raster::SheetRaster;

fn lab(p: [u8; 3]) -> [f32; 3] {
    let lin = |v: u8| {
        let c = v as f32 / 255.0;
        if c > 0.04045 {
            ((c + 0.055) / 1.055).powf(2.4)
        } else {
            c / 12.92
        }
    };
    let (r, g, b) = (lin(p[0]), lin(p[1]), lin(p[2]));
    let x = (r * 0.412_456_4 + g * 0.357_576_1 + b * 0.180_437_5) / 0.950_47;
    let y = r * 0.212_672_9 + g * 0.715_152_2 + b * 0.072_175_0;
    let z = (r * 0.019_333_9 + g * 0.119_192_0 + b * 0.950_304_1) / 1.088_83;
    let f = |t: f32| {
        if t > 216.0 / 24_389.0 {
            t.cbrt()
        } else {
            (24_389.0 / 27.0 * t + 16.0) / 116.0
        }
    };
    let (fx, fy, fz) = (f(x), f(y), f(z));
    [116.0 * fy - 16.0, 500.0 * (fx - fy), 200.0 * (fy - fz)]
}

/// Which pixels are far from the background, by their distance in Lab.
fn far_flags(sheet: &SheetRaster, bg: &BackgroundModel, p: &SegParams) -> Vec<bool> {
    let b = lab([bg.rgba[0], bg.rgba[1], bg.rgba[2]]);
    sheet
        .rgba()
        .chunks(4)
        .map(|px| {
            let a = lab([px[0], px[1], px[2]]);
            let d2: f32 = (0..3).map(|i| (a[i] - b[i]) * (a[i] - b[i])).sum();
            d2.sqrt() > p.delta_e_max as f32 / 1000.0
        })
        .collect()
}

fn mask_of(r: &SheetRaster, bg: &BackgroundModel) -> ForegroundMask {
    let p = SegParams::default();
    build_mask(r, bg, &p, &far_flags(r, bg, &p))
}

/// Solid background `bg` with a filled `rect` in `fg`.
fn sheet_with_rect(
    w: u32,
    h: u32,
    bg: [u8; 4],
    fg: [u8; 4],
    rect: (u32, u32, u32, u32),
) -> SheetRaster {
    let (x0, y0, rw, rh) = rect;
    let mut rgba = Vec::with_capacity(4 * w as usize * h as usize);
    for y in 0..h {
        for x in 0..w {
            let px = if x >= x0 && x < x0 + rw && y >= y0 && y < y0 + rh {
                fg
            } else {
                bg
            };
            rgba.extend_from_slice(&px);
        }
    }
    SheetRaster::from_rgba(w, h, rgba)
}

#[test]
fn white_sheet_black_square_uses_border_consensus() {
    let r = sheet_with_rect(64, 64, [255, 255, 255, 255], [10, 10, 10, 255], (20, 20, 20, 20));
    let bg = detect_background(&r, &SegParams::default());
    assert_eq!(bg.kind, BackgroundKind::BorderConsensus);
    assert!(bg.consensus.num as f64 / bg.consensus.den as f64 >= 0.85);
    assert_eq!(bg.rgba[0], 255);
    let mask = mask_of(&r, &bg);
    assert_eq!(mask.ink_count(), 20 * 20);
    assert!(mask.get(20, 20) && mask.get(39, 39));
    assert!(!mask.get(0, 0) && !mask.get(19, 20));
}

#[test]
fn jpeg_style_noise_still_reaches_consensus_via_delta_e() {
    // Background about 250 with noise of six levels, icon at 60.
    let (w, h) = (96, 96);
    let mut rgba = Vec::new();
    for y in 0..h {
        for x in 0..w {
            let n = ((x as i32 * 31 + y as i32 * 17) % 12) - 6;
            let px = if (20..40).contains(&x) && (20..40).contains(&y) {
                [60, 60, 60, 255]
            } else {
                [(250 + n) as u8, (250 + n) as u8, (250 + n) as u8, 255]
            };
            rgba.extend_from_slice(&px);
        }
    }
    let r = SheetRaster::from_rgba(w, h, rgba);
    let bg = detect_background(&r, &SegParams::default());
    assert_eq!(bg.kind, BackgroundKind::BorderConsensus, "kind {:?}", bg.kind);
    let mask = mask_of(&r, &bg);
    let expected = 20 * 20;
    let got = mask.ink_count();
    assert!(
        (got as i64 - expected as i64).abs() <= 40,
        "ink {got} vs {expected}"
    );
}

#[test]
fn transparent_background_takes_alpha_path() {
    let r = sheet_with_rect(32, 32, [0, 0, 0, 0], [200, 40, 40, 255], (8, 8, 16, 16));
    let bg = detect_background(&r, &SegParams::default());
    assert_eq!(bg.kind, BackgroundKind::Alpha);
    let mask = mask_of(&r, &bg);
    assert_eq!(mask.ink_count(), 16 * 16);
}

#[test]
fn weak_consensus_falls_back_to_corner_kmeans() {
    // 50/50 two-tone: no border majority, so corner-seeded k-means.
    let (w, h) = (64, 64);
    let mut rgba = Vec::new();
    for y in 0..h {
        for x in 0..w {
            let px: [u8; 4] = if (x + y) % 2 == 0 {
                [255, 255, 255, 255]
            } else {
                [0, 0, 0, 255]
            };
            rgba.extend_from_slice(&px);
        }
    }
    let r = SheetRaster::from_rgba(w, h, rgba);
    let bg = detect_background(&r, &SegParams::default());
    assert_eq!(bg.kind, BackgroundKind::KMeans);
}

#[test]
fn cache_string_is_stable() {
    let p = SegParams::default();
    assert_eq!(p.to_cache_string(), "bgs0.85de12.0a128cp1");
}

#[test]
fn cache_strings_tell_settings_apart() {
    let text = |share: u32, delta: u32| {
        SegParams {
            border_share_min: share,
            delta_e_max: delta,
            ..SegParams::default()
        }
        .to_cache_string()
    };
    assert_eq!(text(850, 12_000), "bgs0.85de12.0a128cp1");
    assert_eq!(text(855, 12_000), "bgs0.855de12.0a128cp1");
    assert_eq!(text(850, 12_040), "bgs0.85de12.040a128cp1");
    assert_eq!(text(1_000, 12_300), "bgs1.00de12.3a128cp1");
}

#[test]
fn the_second_cluster_starts_at_a_corner() {
    // Black at the first corner, white only between the corners: the ring's
    // farthest pixel is white, the farthest corner grey.
    let mut rgba = Vec::new();
    for k in 0..36u32 {
        let v: u8 = match k {
            0 | 1 => 0,
            2 | 3 => 255,
            _ => 100,
        };
        rgba.extend_from_slice(&[v, v, v, 255]);
    }
    let m = detect_kmeans_corners(&SheetRaster::from_rgba(6, 6, rgba)).unwrap();
    assert_eq!(m.kind, BackgroundKind::KMeans);
    assert_eq!(m.rgba, [117, 117, 117, 255]);
    assert_eq!(m.consensus.num * 20, m.consensus.den * 18);
}
