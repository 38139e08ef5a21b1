use iconforge::background::{BackgroundKind, BackgroundModel};
use iconforge::geometry::Bbox;
use iconforge::mask::ForegroundMask;
use iconforge::profiles::TracePreset;
use iconforge::quantize::Layer;
use iconforge::raster::SheetRaster;
use iconforge::ratio::Ratio;
use iconforge::trace::{
    bw_crop, compose, fill_slots, path_slots, plan_trace, trace_icon, TraceError,
};
use kurbo::BezPath;

/// White 32×32 sheet with a black 8×8 square at (12, 12).
fn bw_sheet() -> SheetRaster {
    let mut rgba = vec![255u8; 32 * 32 * 4];
    for y in 12..20 {
        for x in 12..20 {
            let i = (y * 32 + x) * 4;
            rgba[i..i + 3].copy_from_slice(&[10, 10, 10]);
        }
    }
    SheetRaster::from_rgba(32, 32, rgba)
}

fn white_bg() -> BackgroundModel {
    BackgroundModel {
        kind: BackgroundKind::BorderConsensus,
        rgba: [255, 255, 255, 255],
        consensus: Ratio { num: 99, den: 100 },
    }
}

#[test]
fn empty_bbox_is_rejected() {
    let sheet = bw_sheet();
    let out = trace_icon(&sheet, Bbox::empty(), &white_bg(), TracePreset::Draft);
    assert_eq!(out, Err(TraceError::EmptyBbox));
}

#[test]
fn bbox_outside_sheet_is_rejected() {
    let sheet = bw_sheet();
    let err = trace_icon(
        &sheet,
        Bbox::new(30, 30, 8, 8).unwrap(),
        &white_bg(),
        TracePreset::Draft,
    )
    .unwrap_err();
    assert!(matches!(err, TraceError::TraceFailed(_)), "{err:?}");
}

#[test]
fn draft_traces_square_and_simplifies() {
    let sheet = bw_sheet();
    let out = trace_icon(
        &sheet,
        Bbox::new(8, 8, 16, 16).unwrap(),
        &white_bg(),
        TracePreset::Draft,
    )
    .unwrap();
    assert!(out.svg.contains("<path"), "vtracer output: {}", out.svg);
    assert!(out.svg.contains("d=\""), "vtracer output: {}", out.svg);
    // Every d must parse.
    let mut rest = out.svg.as_str();
    while let Some(pos) = rest.find("d=\"") {
        rest = &rest[pos + 3..];
        let end = rest.find('"').unwrap();
        BezPath::from_svg(&rest[..end]).expect("the path data parse");
        rest = &rest[end..];
    }
}

#[test]
fn tracing_is_deterministic() {
    let sheet = bw_sheet();
    let bbox = Bbox::new(8, 8, 16, 16).unwrap();
    let bg = white_bg();
    let a = trace_icon(&sheet, bbox, &bg, TracePreset::Draft).unwrap();
    let b = trace_icon(&sheet, bbox, &bg, TracePreset::Draft).unwrap();
    assert_eq!(a.svg, b.svg);
}

#[test]
fn colour_preset_quantizes_and_traces() {
    // 24×8 sheet: three 8×8 blocks (red, green, blue).
    let mut rgba = vec![255u8; 24 * 8 * 4];
    for (x0, c) in [(0, [255u8, 0, 0]), (8, [0, 255, 0]), (16, [0, 0, 255])] {
        for y in 0..8 {
            for x in x0..x0 + 8 {
                let i = (y * 24 + x) * 4;
                rgba[i..i + 3].copy_from_slice(&c);
            }
        }
    }
    let sheet = SheetRaster::from_rgba(24, 8, rgba);
    let bg = BackgroundModel {
        kind: BackgroundKind::KMeans,
        rgba: [255, 255, 255, 255],
        consensus: Ratio { num: 9, den: 10 },
    };
    let out = trace_icon(
        &sheet,
        Bbox::new(0, 0, 24, 8).unwrap(),
        &bg,
        TracePreset::Balanced,
    )
    .unwrap();
    assert!(
        out.palette.len() >= 2 && out.palette.len() <= 8,
        "palette {:?}",
        out.palette
    );
    assert!(out.svg.contains("<path"), "{}", out.svg);
    // The three pure hues must survive quantization verbatim.
    for c in [[255, 0, 0], [0, 255, 0], [0, 0, 255]] {
        assert!(
            out.palette.iter().any(|p| &p[..3] == &c[..]),
            "{c:?} missing from {:?}",
            out.palette
        );
    }
}

#[test]
fn pixel_preset_traces_lattice() {
    let sheet = bw_sheet();
    let out = trace_icon(
        &sheet,
        Bbox::new(8, 8, 16, 16).unwrap(),
        &white_bg(),
        TracePreset::Pixel,
    )
    .unwrap();
    assert!(out.svg.contains("<path"), "{}", out.svg);
}

#[test]
fn a_two_tone_plan_is_black_on_white() {
    let sheet = bw_sheet();
    let bbox = Bbox::new(8, 8, 16, 16).unwrap();
    let plan = plan_trace(&sheet, bbox, &white_bg(), TracePreset::Draft).unwrap();
    assert!(plan.palette.is_empty());
    assert_eq!(&plan.pixels[0..4], &[255, 255, 255, 255]);
    let i = (4 * 16 + 4) * 4;
    assert_eq!(&plan.pixels[i..i + 4], &[0, 0, 0, 255]);
    assert_eq!(plan.pixels, bw_crop(&sheet, bbox, 255_000));
    // White ink on black is ink all the same.
    let dark = bw_crop(&sheet, bbox, 10_000);
    assert_eq!(&dark[0..4], &[0, 0, 0, 255]);
    assert_eq!(&dark[i..i + 4], &[255, 255, 255, 255]);
}

#[test]
fn layers_are_painted_over_the_background() {
    let mut mask = ForegroundMask::new(2, 1);
    mask.set(1, 0, true);
    let layer = Layer {
        rgba: [1, 2, 3, 4],
        mask,
        area: 1,
    };
    assert_eq!(
        compose(&vec![layer], 2, 1, [9, 9, 9, 9]),
        vec![9, 9, 9, 9, 1, 2, 3, 4]
    );
}

#[test]
fn path_data_are_replaced_in_place() {
    let svg: Vec<char> = "<path d=\"M0\"/><path d=\"L1\" fill=\"x\"/>".chars().collect();
    let slots = path_slots(&svg).unwrap();
    assert_eq!(slots.len(), 2);
    let own: Vec<String> = slots
        .iter()
        .map(|s| svg[s.start..s.end].iter().collect())
        .collect();
    assert_eq!(own, vec!["M0", "L1"]);
    let same = fill_slots(&svg, &slots, &own);
    assert_eq!(same, svg.iter().collect::<String>());
    let new = fill_slots(&svg, &slots, &vec!["A".to_string(), "".to_string()]);
    assert_eq!(new, "<path d=\"A\"/><path d=\"\" fill=\"x\"/>");
    let open: Vec<char> = "<path d=\"M0".chars().collect();
    assert_eq!(path_slots(&open), Err(TraceError::UnparseableSvg));
}

#[test]
fn an_intricate_icon_is_refused() {
    let mut rgba = Vec::new();
    for k in 0..300u32 * 300 {
        let v = if (k % 300 + k / 300) % 2 == 0 { 0 } else { 255 };
        rgba.extend_from_slice(&[v, v, v, 255]);
    }
    let sheet = SheetRaster::from_rgba(300, 300, rgba);
    let out = trace_icon(
        &sheet,
        Bbox::new(0, 0, 300, 300).unwrap(),
        &white_bg(),
        TracePreset::Draft,
    );
    assert_eq!(
        out,
        Err(TraceError::TraceFailed(
            "too large or too intricate to trace".to_string()
        ))
    );
}

#[test]
fn trace_errors_say_what_is_wrong() {
    assert_eq!(
        TraceError::TraceFailed("bbox outside sheet".to_string()).message(),
        "trace failed: bbox outside sheet"
    );
    assert_eq!(TraceError::UnparseableSvg.message(), "unparseable svg");
}

#[test]
fn fine_stripes_are_traced_in_two_tones() {
    let mut rgba = Vec::new();
    for k in 0..300u32 * 300 {
        let v = if k % 2 == 0 { 0 } else { 255 };
        rgba.extend_from_slice(&[v, v, v, 255]);
    }
    let sheet = SheetRaster::from_rgba(300, 300, rgba);
    let out = trace_icon(
        &sheet,
        Bbox::from_parts(0, 0, 300, 300),
        &white_bg(),
        TracePreset::Draft,
    );
    assert!(out.is_ok(), "{out:?}");
}

#[test]
fn an_id_is_no_path_data() {
    let svg: Vec<char> = "<path id=\"a\" d=\"M0\"/>".chars().collect();
    let slots = path_slots(&svg).unwrap();
    let own: Vec<String> = slots
        .iter()
        .map(|s| svg[s.start..s.end].iter().collect())
        .collect();
    assert_eq!(own, vec!["M0"]);
}

/// Columns alternately dark and light, joined by a dark last row.
fn comb(w: u32, h: u32) -> SheetRaster {
    let mut rgba = Vec::new();
    for k in 0..w * h {
        let v = if k % w % 2 == 0 || k / w == h - 1 { 0 } else { 255 };
        rgba.extend_from_slice(&[v, v, v, 255]);
    }
    SheetRaster::from_rgba(w, h, rgba)
}

#[test]
fn an_outline_that_is_too_long_is_refused() {
    let trace = |w: u32, h: u32| {
        trace_icon(
            &comb(w, h),
            Bbox::from_parts(0, 0, w, h),
            &white_bg(),
            TracePreset::Draft,
        )
    };
    assert_eq!(
        trace(1001, 1002),
        Err(TraceError::TraceFailed(
            "too large or too intricate to trace".to_string()
        ))
    );
    let short = trace(101, 102);
    assert!(short.is_ok(), "{short:?}");
}
