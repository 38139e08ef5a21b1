use iconforge::geometry::Bbox;
use iconforge::raster::SheetRaster;

/// 2×2 raster: red, green / blue, transparent-white.
fn sample() -> SheetRaster {
    SheetRaster::from_rgba(
        2,
        2,
        vec![
            255, 0, 0, 255, 0, 255, 0, 255, 0, 0, 255, 255, 240, 240, 240, 0,
        ],
    )
}

#[test]
fn luma_uses_rec601_weights() {
    let r = sample();
    assert_eq!(r.luma_row(0).len(), 2);
    let red = 0.299 * 255.0;
    assert!((r.luma_row(0)[0] as f64 / 1000.0 - red).abs() < 0.01, "red luma {red}");
    let gray = 0.299 * 240.0 + 0.587 * 240.0 + 0.114 * 240.0;
    assert!((r.luma_row(1)[1] as f64 / 1000.0 - gray).abs() < 0.01);
}

#[test]
fn scaled_rgba_box_averages_and_never_upscales() {
    // 4×4: left half black (opaque), right half white (opaque).
    let mut rgba = vec![255u8; 4 * 4 * 4];
    for y in 0..4usize {
        for x in 0..2usize {
            let i = (y * 4 + x) * 4;
            rgba[i] = 0;
            rgba[i + 1] = 0;
            rgba[i + 2] = 0;
        }
    }
    let r = SheetRaster::from_rgba(4, 4, rgba);
    let (w, h, out) = r.scaled_rgba(2);
    assert_eq!((w, h), (2, 2));
    assert_eq!(out.len(), 4 * 4);
    // Each output pixel covers a 2×2 source block ⇒ mean 0 on the left,
    // 255 on the right; alpha stays 255 everywhere.
    assert_eq!(&out[0..4], &[0, 0, 0, 255]);
    assert_eq!(&out[4..8], &[255, 255, 255, 255]);
    assert_eq!(&out[12..16], &[255, 255, 255, 255]);
    // Identical input ⇒ identical output (the overlay cache relies on it).
    assert_eq!(r.scaled_rgba(2).2, out);
    // Never upscales.
    let (w, h, same) = r.scaled_rgba(64);
    assert_eq!((w, h), (4, 4));
    assert_eq!(&same, r.rgba());
    // A long thin sheet keeps its aspect ratio.
    let wide = SheetRaster::from_rgba(8, 2, vec![128; 8 * 2 * 4]);
    assert_eq!(wide.scaled_rgba(4), (4, 1, vec![128; 16]));
}

#[test]
fn crop_rgba_extracts_exact_region() {
    let r = sample();
    let bbox = Bbox::new(1, 0, 1, 2).unwrap();
    assert_eq!(r.crop_rgba(bbox), vec![0, 255, 0, 255, 240, 240, 240, 0]);
}

#[test]
fn pixel_reads_rgba() {
    let r = sample();
    assert_eq!(r.pixel(0, 0), [255, 0, 0, 255]);
    assert_eq!(r.pixel(1, 1)[3], 0);
}

#[test]
fn a_cropped_png_decodes_to_the_crop() {
    let r = sample();
    let bbox = Bbox::new(1, 0, 1, 2).unwrap();
    let png = r.crop_png(bbox);
    let back = iconforge::normalize::normalize(&png, 4096).expect("a png");
    assert_eq!((back.width(), back.height()), (1, 2));
    assert_eq!(back.rgba(), &r.crop_rgba(bbox));
}

#[test]
fn a_preview_holds_the_scaled_pixels() {
    let wide = SheetRaster::from_rgba(8, 2, vec![128; 8 * 2 * 4]);
    let (w, h, png) = wide.preview_png(4);
    assert_eq!((w, h), (4, 1));
    let back = iconforge::normalize::normalize(&png, 4096).expect("a png");
    assert_eq!(back.rgba(), &wide.scaled_rgba(4).2);
}
