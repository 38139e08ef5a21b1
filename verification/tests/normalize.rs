use image::{ExtendedColorType, ImageEncoder};
use iconforge::error::IsgError;
use iconforge::normalize::{
    apply_orientation, arrange, exif_orientation, normalize, parse_tiff_orientation, PixelBuf,
    MAX_SAMPLED_SIDE,
};

/// Encodes RGBA pixels as a PNG.
fn png_bytes(w: u32, h: u32, px: &[u8]) -> Vec<u8> {
    let mut png = Vec::new();
    image::codecs::png::PngEncoder::new(&mut png)
        .write_image(px, w, h, ExtendedColorType::Rgba8)
        .expect("png encode");
    png
}

#[test]
fn normalizes_png_to_rgba8_luma() {
    // 6 pixels (3×2): red levels 1..=6, opaque.
    let px: Vec<u8> = (1u8..=6).flat_map(|v| [v, 0, 0, 255]).collect();
    let bytes = png_bytes(3, 2, &px);
    let r = normalize(&bytes, 4096).unwrap();
    assert_eq!((r.width(), r.height()), (3, 2));
    assert_eq!(r.pixel(0, 0), [1, 0, 0, 255]);
    assert_eq!(r.pixel(2, 1), [6, 0, 0, 255]);
}

#[test]
fn normalize_is_deterministic() {
    let bytes = png_bytes(32, 16, &vec![7u8; 32 * 16 * 4]);
    let a = normalize(&bytes, 4096).unwrap();
    let b = normalize(&bytes, 4096).unwrap();
    assert_eq!(a.rgba(), b.rgba());
    assert_eq!(a.luma(), b.luma());
}

#[test]
fn caps_max_dimension_with_triangle_filter() {
    let bytes = png_bytes(64, 32, &vec![200u8; 64 * 32 * 4]);
    let r = normalize(&bytes, 16).unwrap();
    assert_eq!(r.width(), 16);
    assert_eq!(r.height(), 8, "aspect preserved");
}

#[test]
fn exif_parser_reads_le_and_be_tiff_blocks() {
    // II (LE): header + one IFD entry {tag 274, type SHORT(3), count 1,
    // value 6 inline}.
    let le = {
        let mut t = Vec::new();
        t.extend_from_slice(b"II");
        t.extend_from_slice(&42u16.to_le_bytes());
        t.extend_from_slice(&8u32.to_le_bytes()); // IFD0 offset
        t.extend_from_slice(&1u16.to_le_bytes()); // entry count
        t.extend_from_slice(&274u16.to_le_bytes());
        t.extend_from_slice(&3u16.to_le_bytes());
        t.extend_from_slice(&1u32.to_le_bytes());
        t.extend_from_slice(&6u16.to_le_bytes());
        t.extend_from_slice(&0u16.to_le_bytes());
        t.extend_from_slice(&0u32.to_le_bytes()); // next IFD
        let mut jpeg = vec![0xFF, 0xD8, 0xFF, 0xE1];
        jpeg.extend_from_slice(&((t.len() as u16 + 8).to_be_bytes()));
        jpeg.extend_from_slice(b"Exif\0\0");
        jpeg.extend_from_slice(&t);
        jpeg
    };
    assert_eq!(exif_orientation(&le), Some(6));
    assert_eq!(parse_tiff_orientation(&le[12..]), Some(6));

    // MM (BE): value 8 stored big-endian in the value field.
    let mut t = Vec::new();
    t.extend_from_slice(b"MM");
    t.extend_from_slice(&42u16.to_be_bytes());
    t.extend_from_slice(&8u32.to_be_bytes());
    t.extend_from_slice(&1u16.to_be_bytes());
    t.extend_from_slice(&274u16.to_be_bytes());
    t.extend_from_slice(&3u16.to_be_bytes());
    t.extend_from_slice(&1u32.to_be_bytes());
    t.extend_from_slice(&8u16.to_be_bytes());
    t.extend_from_slice(&0u16.to_be_bytes());
    t.extend_from_slice(&0u32.to_be_bytes());
    assert_eq!(parse_tiff_orientation(&t), Some(8));
}

#[test]
fn exif_returns_none_for_png_and_orientationless_jpeg() {
    assert_eq!(exif_orientation(&png_bytes(2, 2, &vec![0; 16])), None);
    let bare = [0xFF, 0xD8, 0xFF, 0xD9];
    assert_eq!(exif_orientation(&bare), None);
}

/// 3×2 image: `A B C / D E F` as distinct red-level pixels.
fn grid() -> PixelBuf {
    let px: Vec<u8> = (1u8..=6).flat_map(|v| [v, 0, 0, 255]).collect();
    PixelBuf {
        width: 3,
        height: 2,
        rgba: px,
    }
}

fn reds(img: &PixelBuf) -> Vec<u8> {
    img.rgba.chunks(4).map(|p| p[0]).collect()
}

#[test]
fn orientation_transforms_match_spec() {
    let mut g = grid();
    apply_orientation(&mut g, 2); // mirror horizontally
    assert_eq!(reds(&g), vec![3, 2, 1, 6, 5, 4]);

    let mut g = grid();
    apply_orientation(&mut g, 3); // 180°
    assert_eq!(reds(&g), vec![6, 5, 4, 3, 2, 1]);

    let mut g = grid();
    apply_orientation(&mut g, 4); // mirror vertically
    assert_eq!(reds(&g), vec![4, 5, 6, 1, 2, 3]);

    let mut g = grid();
    apply_orientation(&mut g, 5); // transpose
    assert_eq!(reds(&g), vec![1, 4, 2, 5, 3, 6]);

    let mut g = grid();
    apply_orientation(&mut g, 6); // 90° CW
    assert_eq!(reds(&g), vec![4, 1, 5, 2, 6, 3]);

    let mut g = grid();
    apply_orientation(&mut g, 7); // transverse (anti-diagonal)
    assert_eq!(reds(&g), vec![6, 3, 5, 2, 4, 1]);

    let mut g = grid();
    apply_orientation(&mut g, 8); // 90° CCW
    assert_eq!(reds(&g), vec![3, 6, 2, 5, 1, 4]);
}

#[test]
fn a_turned_image_keeps_its_pixels_when_turned_back() {
    let mut g = grid();
    apply_orientation(&mut g, 6);
    assert_eq!((g.width, g.height), (2, 3));
    apply_orientation(&mut g, 8);
    assert_eq!((g.width, g.height), (3, 2));
    assert_eq!(reds(&g), reds(&grid()));
}

#[test]
fn garbage_is_no_sheet() {
    assert!(matches!(
        normalize(b"not an image", 4096),
        Err(iconforge::error::IsgError::Corrupt(_))
    ));
}

#[test]
fn a_capped_sheet_of_one_colour_keeps_it() {
    let bytes = png_bytes(64, 32, &vec![200u8; 64 * 32 * 4]);
    let r = normalize(&bytes, 16).unwrap();
    assert_eq!(r.pixel(3, 3), [200, 200, 200, 200]);
}

#[test]
fn only_the_built_in_decoders_are_asked() {
    let bytes = png_bytes(1, 1, &[9, 8, 7, 255]);
    image::hooks::register_format_detection_hook("other".into(), b"\x89PNG", None);
    let r = normalize(&bytes, 4096).unwrap();
    assert_eq!(r.pixel(0, 0), [9, 8, 7, 255]);
}

#[test]
fn a_cap_that_is_too_long_to_sample_is_refused() {
    let long = || PixelBuf {
        width: MAX_SAMPLED_SIDE + 2,
        height: 1,
        rgba: vec![7; 4 * (MAX_SAMPLED_SIDE as usize + 2)],
    };
    let refused = arrange(long(), None, MAX_SAMPLED_SIDE + 1);
    assert!(matches!(refused, Err(IsgError::TooLarge)));
    let small = arrange(long(), None, 4).unwrap();
    assert_eq!((small.width(), small.height()), (4, 1));
    assert_eq!(small.pixel(3, 0), [7, 7, 7, 7]);
    let whole = arrange(long(), None, MAX_SAMPLED_SIDE + 2).unwrap();
    assert_eq!(whole.width(), MAX_SAMPLED_SIDE + 2);
}
