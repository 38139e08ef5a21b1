use iconforge::background::{BackgroundKind, BackgroundModel};
use iconforge::emit::{emit_svg, validate, EmitError, IconVectors};
use iconforge::geometry::Bbox;
use iconforge::profiles::TracePreset;
use iconforge::raster::SheetRaster;
use iconforge::ratio::Ratio;
use iconforge::score::{compare_planes, score_svg, Score, ScoreError};
use iconforge::trace::{trace_icon, TraceError};
use iconforge::vectorize::{
    cache_step, vectorize_scored, CacheLookup, CacheStep, VectorizeError,
};

/// One, in billionths.
const FULL: i64 = 1_000_000_000;

/// Billionths as a number.
fn v(n: i64) -> f64 {
    n as f64 / FULL as f64
}

const SQUARE: &str = "<path d=\"M4,4L12,4L12,12L4,12Z\" fill=\"#0a0a0a\"/>";
const BG: [u8; 4] = [255, 255, 255, 255];

/// 16×16 white sheet with an 8×8 near-black square at (4, 4).
fn sheet_16() -> SheetRaster {
    let mut rgba = vec![255u8; 16 * 16 * 4];
    for y in 4..12usize {
        for x in 4..12 {
            let i = (y * 16 + x) * 4;
            rgba[i..i + 3].copy_from_slice(&[10, 10, 10]);
        }
    }
    SheetRaster::from_rgba(16, 16, rgba)
}

fn bg() -> BackgroundModel {
    BackgroundModel {
        kind: BackgroundKind::BorderConsensus,
        rgba: BG,
        consensus: Ratio { num: 1, den: 1 },
    }
}

fn doc_for(fragment: &str, w: u32, h: u32) -> String {
    let v = IconVectors {
        svg: fragment.to_string(),
        palette: Vec::new(),
    };
    emit_svg(&v, w, h, "mono-clean", false).unwrap()
}

fn crop_square_at4() -> Vec<u8> {
    sheet_16().crop_rgba(Bbox::new(0, 0, 16, 16).unwrap())
}

#[test]
fn identical_square_scores_near_perfect() {
    let doc = doc_for(SQUARE, 16, 16);
    let s = score_svg(&doc, &crop_square_at4(), &BG, 16, 16).unwrap();
    // The square is not wholly black, so the reference ink is 245, not 255.
    assert!(v(s.mae) < 0.02, "{s:?}");
    assert!(v(s.ssim) > 0.99, "{s:?}");
    assert!(v(s.iou) > 0.98, "{s:?}");
    assert!(v(s.composite) > 0.99, "{s:?}");
}

#[test]
fn blank_against_blank_is_perfect() {
    // An empty fragment cannot be emitted  …
    assert_eq!(
        emit_svg(
            &IconVectors {
                svg: String::new(),
                palette: Vec::new()
            },
            16,
            16,
            "mono-clean",
            false
        )
        .unwrap_err(),
        EmitError::EmptyFragment
    );
    // … but a path-free yet valid document scores a blank crop perfectly.
    let doc = "<svg xmlns=\"http://www.w3.org/2000/svg\" width=\"16\" height=\"16\" \
               viewBox=\"0 0 16 16\"><title>icon</title><desc>Icon Forge</desc></svg>";
    let crop = vec![255u8; 16 * 16 * 4];
    let s = score_svg(doc, &crop, &BG, 16, 16).unwrap();
    assert_eq!(s.mae, 0);
    assert_eq!(s.iou, FULL);
    assert_eq!(s.ssim, FULL);
    assert_eq!(s.composite, FULL);
}

#[test]
fn mismatched_ink_scores_low() {
    let doc = doc_for(SQUARE, 16, 16);
    // Reference ink is only a 4×4 square at (6, 6).
    let mut crop = vec![255u8; 16 * 16 * 4];
    for y in 6..10usize {
        for x in 6..10 {
            let i = (y * 16 + x) * 4;
            crop[i..i + 3].copy_from_slice(&[10, 10, 10]);
        }
    }
    let s = score_svg(&doc, &crop, &BG, 16, 16).unwrap();
    assert!(v(s.iou) < 0.5, "{s:?}");
    assert!(v(s.mae) > 0.05, "{s:?}");
    assert!(v(s.composite) < 0.9, "{s:?}");
}

#[test]
fn centroid_alignment_recovers_translation() {
    let shifted = doc_for("<path d=\"M0,0L8,0L8,8L0,8Z\" fill=\"#0a0a0a\"/>", 16, 16);
    // Reference square sits at (8..16); the render square at (0..8).
    let mut crop = vec![255u8; 16 * 16 * 4];
    for y in 8..16usize {
        for x in 8..16 {
            let i = (y * 16 + x) * 4;
            crop[i..i + 3].copy_from_slice(&[10, 10, 10]);
        }
    }
    let s = score_svg(&shifted, &crop, &BG, 16, 16).unwrap();
    assert!(v(s.iou) > 0.98, "{s:?}");
    assert!(v(s.mae) < 0.01, "{s:?}");
}

#[test]
fn composite_uses_the_documented_weights() {
    let s = Score::new(FULL / 2, FULL / 10 * 8, FULL / 10 * 4);
    // 0.5 * 0.8 + 0.3 * (1 - 0.5) + 0.2 * 0.4
    assert_eq!(s.composite, 630_000_000);
}

#[test]
fn score_svg_is_deterministic() {
    let doc = doc_for(SQUARE, 16, 16);
    let crop = crop_square_at4();
    let a = score_svg(&doc, &crop, &BG, 16, 16).unwrap();
    let b = score_svg(&doc, &crop, &BG, 16, 16).unwrap();
    assert_eq!(a.mae, b.mae);
    assert_eq!(a.ssim, b.ssim);
    assert_eq!(a.iou, b.iou);
    assert_eq!(a.composite, b.composite);
}

#[test]
fn bad_crop_dimensions_are_rejected() {
    let doc = doc_for(SQUARE, 16, 16);
    assert_eq!(
        score_svg(&doc, &[], &BG, 0, 16).unwrap_err(),
        ScoreError::SizeMismatch
    );
    assert_eq!(
        score_svg(&doc, &[0u8; 10], &BG, 16, 16).unwrap_err(),
        ScoreError::SizeMismatch
    );
}

#[test]
fn unparseable_doc_is_a_render_error() {
    let crop = crop_square_at4();
    assert!(matches!(
        score_svg("not an svg", &crop, &BG, 16, 16).unwrap_err(),
        ScoreError::Render(_)
    ));
}

#[test]
fn vectorize_scored_end_to_end_draft() {
    let sheet = sheet_16();
    let bbox = Bbox::new(4, 4, 8, 8).unwrap();
    let vectors = trace_icon(&sheet, bbox, &bg(), TracePreset::Draft);
    let icon = vectorize_scored(&sheet, bbox, &bg(), TracePreset::Draft, vectors).unwrap();
    assert!(icon.svg.starts_with("<svg xmlns="), "{}", icon.svg);
    assert!(icon.palette.is_empty(), "BW trace has no palette");
    assert!(v(icon.score.ssim) > 0.9, "{:?}", icon.score);
    assert!(v(icon.score.iou) > 0.9, "{:?}", icon.score);
    validate(&icon.svg).unwrap();
}

#[test]
fn a_plane_against_itself_is_perfect() {
    let plane: Vec<u8> = (0..20 * 13).map(|i| (i * 7 % 256) as u8).collect();
    let s = compare_planes(&plane, &plane, 20, 13);
    assert_eq!((s.mae, s.ssim, s.iou, s.composite), (0, FULL, FULL, FULL));
}

#[test]
fn a_failed_trace_is_handed_on() {
    let sheet = sheet_16();
    let none = Bbox::from_parts(0, 0, 0, 0);
    let vectors = trace_icon(&sheet, none, &bg(), TracePreset::Draft);
    let err = vectorize_scored(&sheet, none, &bg(), TracePreset::Draft, vectors).unwrap_err();
    assert_eq!(err, VectorizeError::Trace(TraceError::EmptyBbox));
    assert_eq!(err.message(), "trace failed: empty bounding box");
}

#[test]
fn outlines_without_a_path_are_no_icon() {
    let sheet = sheet_16();
    let bbox = Bbox::new(0, 0, 16, 16).unwrap();
    let empty = IconVectors {
        svg: String::new(),
        palette: Vec::new(),
    };
    let err = vectorize_scored(&sheet, bbox, &bg(), TracePreset::Draft, Ok(empty)).unwrap_err();
    assert_eq!(err, VectorizeError::Emit(EmitError::EmptyFragment));
    assert_eq!(err.message(), "emit failed: fragment has no paths");
}

#[test]
fn only_a_readable_payload_is_served() {
    let sheet = sheet_16();
    let bbox = Bbox::new(4, 4, 8, 8).unwrap();
    let vectors = trace_icon(&sheet, bbox, &bg(), TracePreset::Draft);
    let icon = vectorize_scored(&sheet, bbox, &bg(), TracePreset::Draft, vectors).unwrap();
    assert_eq!(
        cache_step(CacheLookup::Found(icon.clone())),
        CacheStep::Serve(icon)
    );
    assert_eq!(cache_step(CacheLookup::Missing), CacheStep::Compute);
    assert_eq!(cache_step(CacheLookup::Corrupt), CacheStep::Compute);
}

#[test]
fn score_errors_say_what_is_wrong() {
    assert_eq!(
        ScoreError::SizeMismatch.message(),
        "crop size does not match w×h"
    );
    assert_eq!(
        VectorizeError::Score(ScoreError::Render("x".to_string())).message(),
        "score failed: render failed: x"
    );
    assert_eq!(
        VectorizeError::Json("y".to_string()).message(),
        "payload serialization failed: y"
    );
    assert_eq!(
        VectorizeError::from(iconforge::error::IsgError::Cancelled).message(),
        "cache failed: cancelled"
    );
}

#[test]
fn a_stretch_that_is_too_large_leaves_the_canvas_blank() {
    let doc = "<svg xmlns=\"http://www.w3.org/2000/svg\" width=\"1e-40\" height=\"1e-40\">\
               <path d=\"M0,0L1,0L1,1Z\"/></svg>";
    let blank = "<svg xmlns=\"http://www.w3.org/2000/svg\" width=\"16\" height=\"16\"></svg>";
    let crop = crop_square_at4();
    assert_eq!(
        score_svg(doc, &crop, &BG, 16, 16),
        score_svg(blank, &crop, &BG, 16, 16)
    );
    assert!(score_svg(blank, &crop, &BG, 16, 16).is_ok());
}
