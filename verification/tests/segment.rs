use iconforge::background::{BackgroundKind, BackgroundModel, SegParams};
use iconforge::error::IsgError;
use iconforge::raster::SheetRaster;
use iconforge::segment::{prepare, segment, SegOutput};
use image::{ExtendedColorType, ImageEncoder};

fn lab(p: [u8; 3]) -> [f32; 3] {
    let lin = |v: u8| {
        let c = v as f32 / 255.0;
        if c > 0.04045 {
            ((c + 0.055) / 1.055).powf(2.4)
        } else {
            c / 12.92
        }
    };
    let (r, g, b) = (lin(p[0]), lin(p[1]), lin(p[2]));
    let x = (r * 0.412_456_4 + g * 0.357_576_1 + b * 0.180_437_5) / 0.950_47;
    let y = r * 0.212_672_9 + g * 0.715_152_2 + b * 0.072_175_0;
    let z = (r * 0.019_333_9 + g * 0.119_192_0 + b * 0.950_304_1) / 1.088_83;
    let f = |t: f32| {
        if t > 216.0 / 24_389.0 {
            t.cbrt()
        } else {
            (24_389.0 / 27.0 * t + 16.0) / 116.0
        }
    };
    let (fx, fy, fz) = (f(x), f(y), f(z));
    [116.0 * fy - 16.0, 500.0 * (fx - fy), 200.0 * (fy - fz)]
}

/// Which pixels are far from the background, by their distance in Lab.
fn far_flags(sheet: &SheetRaster, bg: &BackgroundModel, p: &SegParams) -> Vec<bool> {
    let b = lab([bg.rgba[0], bg.rgba[1], bg.rgba[2]]);
    sheet
        .rgba()
        .chunks(4)
        .map(|px| {
            let a = lab([px[0], px[1], px[2]]);
            let d2: f32 = (0..3).map(|i| (a[i] - b[i]) * (a[i] - b[i])).sum();
            d2.sqrt() > p.delta_e_max as f32 / 1000.0
        })
        .collect()
}

fn run(bytes: &[u8], max_dim: u32, p: &SegParams) -> Result<SegOutput, IsgError> {
    let (sheet, bg) = prepare(bytes, max_dim, p)?;
    let far = far_flags(&sheet, &bg, p);
    Ok(segment(sheet, bg, &far, p))
}

/// Solid white 64 by 64 sheet, black 20 by 20 square at (20, 20), two isolated
/// grey speckles.
fn sheet_bytes() -> Vec<u8> {
    let mut rgba = vec![255u8; 64 * 64 * 4];
    for y in 20usize..40 {
        for x in 20usize..40 {
            let i = (y * 64 + x) * 4;
            rgba[i..i + 3].copy_from_slice(&[10, 10, 10]);
        }
    }
    for &(x, y) in &[(5usize, 5usize), (50usize, 60usize)] {
        let i = (y * 64 + x) * 4;
        rgba[i..i + 3].copy_from_slice(&[128, 128, 128]);
    }
    let mut png = Vec::new();
    image::codecs::png::PngEncoder::new(&mut png)
        .write_image(&rgba, 64, 64, ExtendedColorType::Rgba8)
        .expect("png encode");
    png
}

#[test]
fn segment_finds_square_and_drops_speckle() {
    let params = SegParams::default();
    let out = run(&sheet_bytes(), 4096, &params).unwrap();
    assert_eq!(out.background.kind, BackgroundKind::BorderConsensus);
    assert_eq!(out.mask.width(), 64);
    // The median filter cuts the square's corner pixels, and closing does not
    // bring them back.
    assert!(out.mask.get(21, 21) && out.mask.get(38, 38));
    assert!(!out.mask.get(20, 20), "corner stays cut");
    assert!(!out.mask.get(5, 5), "speckle cleaned");
    assert!(!out.mask.get(50, 60), "speckle cleaned");
    assert!(
        (300..=400).contains(&out.mask.ink_count()),
        "ink {}",
        out.mask.ink_count()
    );
}

#[test]
fn segment_is_byte_deterministic() {
    let params = SegParams::default();
    let bytes = sheet_bytes();
    let a = run(&bytes, 4096, &params).unwrap();
    let b = run(&bytes, 4096, &params).unwrap();
    assert_eq!(a.mask, b.mask);
    assert_eq!(a.sheet.rgba(), b.sheet.rgba());
    assert_eq!(a.background.consensus, b.background.consensus);
}

#[test]
fn segment_rejects_garbage_bytes() {
    let err = run(b"not an image", 4096, &SegParams::default()).unwrap_err();
    assert!(matches!(err, IsgError::Corrupt(_)), "{err:?}");
}
