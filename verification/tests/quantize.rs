use iconforge::quantize::{quantize_crop, QuantizeParams};

/// `w × h` RGBA buffer: transparent everywhere, then opaque blocks.
fn blocks(w: u32, h: u32, regions: &[(u32, u32, u32, u32, [u8; 4])]) -> Vec<u8> {
    let mut rgba = vec![0u8; 4 * w as usize * h as usize];
    for (x0, y0, rw, rh, c) in regions {
        for y in *y0..*y0 + *rh {
            for x in *x0..*x0 + *rw {
                let i = (y as usize * w as usize + x as usize) * 4;
                rgba[i..i + 4].copy_from_slice(&c[..]);
            }
        }
    }
    rgba
}

#[test]
fn two_colour_crop_picks_k2() {
    let rgba = blocks(
        16,
        16,
        &[
            (0, 0, 8, 16, [255, 0, 0, 255]),
            (8, 0, 8, 16, [0, 0, 255, 255]),
        ],
    );
    let layers = quantize_crop(&rgba, 16, 16, &QuantizeParams::default());
    assert_eq!(layers.len(), 2, "red + blue");
    assert_eq!(layers[0].area, 128);
    assert_eq!(layers[1].area, 128);
    // Deterministic tie-break: equal areas sort by RGBA.
    assert!(layers[0].rgba <= layers[1].rgba);
}

#[test]
fn three_equal_blocks_pick_k3() {
    let rgba = blocks(
        36,
        12,
        &[
            (0, 0, 12, 12, [255, 0, 0, 255]),
            (12, 0, 12, 12, [0, 255, 0, 255]),
            (24, 0, 12, 12, [0, 0, 255, 255]),
        ],
    );
    let layers = quantize_crop(&rgba, 36, 12, &QuantizeParams::default());
    assert_eq!(layers.len(), 3, "one layer per block");
    for l in &layers {
        assert_eq!(l.area, 144, "open(3) on a solid block is identity");
    }
}

#[test]
fn quantize_is_deterministic() {
    let rgba = blocks(
        16,
        16,
        &[
            (0, 0, 8, 16, [255, 0, 0, 255]),
            (8, 0, 8, 16, [0, 0, 255, 255]),
        ],
    );
    let a = quantize_crop(&rgba, 16, 16, &QuantizeParams::default());
    let b = quantize_crop(&rgba, 16, 16, &QuantizeParams::default());
    assert_eq!(a.len(), b.len());
    for (la, lb) in a.iter().zip(b.iter()) {
        assert_eq!(la.rgba, lb.rgba);
        assert_eq!(la.area, lb.area);
        assert_eq!(la.mask, lb.mask);
    }
}

#[test]
fn single_pixel_speck_layer_is_dropped() {
    let rgba = blocks(
        16,
        16,
        &[
            (0, 0, 16, 16, [255, 255, 255, 255]),
            (0, 0, 8, 8, [255, 0, 0, 255]),
            (14, 14, 1, 1, [0, 0, 255, 255]),
        ],
    );
    let layers = quantize_crop(&rgba, 16, 16, &QuantizeParams::default());
    assert_eq!(layers.len(), 2, "1-px blue speck de-fringed away");
    assert!(layers.iter().all(|l| l.rgba != [0, 0, 255, 255]));
}

#[test]
fn transparent_pixels_join_no_layer() {
    let rgba = blocks(8, 8, &[(0, 0, 4, 8, [255, 0, 0, 255])]);
    let layers = quantize_crop(&rgba, 8, 8, &QuantizeParams::default());
    assert_eq!(layers.len(), 1);
    assert_eq!(layers[0].area, 32, "only the opaque half");
    assert_eq!(layers[0].rgba, [255, 0, 0, 255]);
}

#[test]
fn k_cap_from_profile_bounds_layer_count() {
    let rgba = blocks(
        36,
        12,
        &[
            (0, 0, 12, 12, [255, 0, 0, 255]),
            (12, 0, 12, 12, [0, 255, 0, 255]),
            (24, 0, 12, 12, [0, 0, 255, 255]),
        ],
    );
    let layers = quantize_crop(&rgba, 36, 12, &QuantizeParams::with_k_cap(2));
    assert_eq!(layers.len(), 2, "k_max=2 caps the palette");
}

#[test]
fn an_empty_or_short_crop_has_no_layers() {
    let p = QuantizeParams::default();
    assert!(quantize_crop(&[], 0, 0, &p).is_empty());
    assert!(quantize_crop(&[1, 2, 3, 255], 2, 1, &p).is_empty());
    assert!(quantize_crop(&[0u8; 16], 2, 2, &p).is_empty());
    assert_eq!(QuantizeParams::with_k_cap(0).k_max, 1);
}

#[test]
fn layers_are_disjoint_and_shrink() {
    let rgba = blocks(
        36,
        12,
        &[
            (0, 0, 18, 12, [255, 0, 0, 255]),
            (18, 0, 12, 12, [0, 255, 0, 255]),
            (30, 0, 6, 12, [0, 0, 255, 255]),
        ],
    );
    let layers = quantize_crop(&rgba, 36, 12, &QuantizeParams::default());
    assert_eq!(layers.len(), 3);
    assert_eq!(
        layers.iter().map(|l| l.area).collect::<Vec<_>>(),
        vec![216, 144, 72]
    );
    for y in 0..12 {
        for x in 0..36 {
            let n = layers.iter().filter(|l| l.mask.get(x, y)).count();
            assert!(n <= 1, "pixel ({x},{y}) is in {n} layers");
        }
    }
}
