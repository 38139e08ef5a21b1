use iconforge::cascade::{CascadeCounts, CELL};
use iconforge::geometry::Bbox;
use iconforge::mask::ForegroundMask;
use iconforge::outliers::OUTLIER_Z;
use iconforge::quality::QualityFlag;
use iconforge::raster::SheetRaster;
use iconforge::review::{
    cell_canvas, cell_plane, ink_box, plane_digest, probe_box, review_sheet, upscale_nearest,
    Artwork, IconEvidence, ReviewError, ReviewInput, ReviewOptions, Shape, Subpath,
    MAX_REVIEW_SIDE,
};

#[test]
fn nearest_upscale_repeats_every_pixel() {
    let one = vec![1, 2, 3, 4];
    assert_eq!(
        upscale_nearest(&one, 1, 1, 2),
        vec![1, 2, 3, 4, 1, 2, 3, 4, 1, 2, 3, 4, 1, 2, 3, 4]
    );
    assert_eq!(upscale_nearest(&one, 1, 1, 1), one);
}

#[test]
fn a_zero_sided_plane_is_refused_rather_than_allocated() {
    assert_eq!(cell_canvas(0), Err(ReviewError::BadSide { side: 0 }));
    assert_eq!(
        cell_canvas(MAX_REVIEW_SIDE + 1),
        Err(ReviewError::BadSide {
            side: MAX_REVIEW_SIDE + 1
        })
    );
    assert_eq!(cell_canvas(CELL), Ok(128));
}

#[test]
fn an_empty_sheet_reviews_to_nothing_at_all() {
    let sheet = SheetRaster::from_rgba(4, 4, vec![255; 4 * 4 * 4]);
    let mask = ForegroundMask::new(4, 4);
    let report = review_sheet(
        &sheet,
        &mask,
        &Vec::new(),
        &Vec::new(),
        &ReviewOptions::default(),
    )
    .expect("an empty sheet is a legal review");
    assert!(report.icons.is_empty());
    assert!(report.clusters.is_empty());
    assert!(report.outliers.is_empty());
    assert_eq!(report.flagged, 0);
    assert_eq!(report.cascade, CascadeCounts::default());
}

#[test]
fn plane_digest_is_stable_and_content_addressed() {
    assert_eq!(plane_digest(&[0; 16]), plane_digest(&[0; 16]));
    assert_ne!(plane_digest(&[0; 16]), plane_digest(&[1; 16]));
}

#[test]
fn ink_boxes_are_tight() {
    let mut plane = vec![0u8; 8 * 4];
    assert_eq!(ink_box(&plane, 8, 4), None);
    plane[8 + 2] = 200;
    plane[2 * 8 + 5] = 200;
    assert_eq!(ink_box(&plane, 8, 4), Some((2, 1, 5, 2)));
}

#[test]
fn a_blank_cell_is_all_zero() {
    let blank = vec![0u8; 4 * 128 * 128];
    assert_eq!(probe_box(&blank, 64, &[255, 255, 255, 255]), None);
    assert_eq!(
        cell_plane(&blank, &blank, 64, &[255, 255, 255, 255]),
        vec![0u8; 64 * 64]
    );
}

const DOC: &str = "<svg xmlns=\"http://www.w3.org/2000/svg\" width=\"8\" height=\"8\" viewBox=\"0 0 8 8\"><path d=\"M0 0H8V8H0Z\" fill=\"#000000\"/></svg>";

fn black_sheet() -> (SheetRaster, ForegroundMask) {
    let mut rgba = vec![255u8; 16 * 8 * 4];
    let mut mask = ForegroundMask::new(16, 8);
    for y in 0..8usize {
        for x in 0..8usize {
            let i = (y * 16 + x) * 4;
            rgba[i..i + 3].copy_from_slice(&[0, 0, 0]);
            mask.set(x as u32, y as u32, true);
        }
    }
    (SheetRaster::from_rgba(16, 8, rgba), mask)
}

fn input(id: u32, bbox: Bbox) -> ReviewInput {
    ReviewInput {
        id,
        document: DOC.to_string(),
        bbox,
    }
}

fn evidence(artwork: Result<Artwork, String>, plane: Result<Vec<u8>, String>) -> IconEvidence {
    IconEvidence {
        artwork,
        stroke: 4000,
        solidity: 1000,
        plane,
    }
}

fn square(closed: bool) -> Result<Artwork, String> {
    Ok(Artwork {
        shapes: vec![Shape {
            fill: [0, 0, 0, 255],
            path: vec![Subpath { segs: 4, closed }],
        }],
    })
}

fn pass(bbox: Bbox, e: IconEvidence) -> Result<iconforge::review::ReviewReport, ReviewError> {
    let (sheet, mask) = black_sheet();
    review_sheet(
        &sheet,
        &mask,
        &vec![input(7, bbox)],
        &vec![e],
        &ReviewOptions::default(),
    )
}

#[test]
fn one_icon_is_scored_and_flagged() {
    let bbox = Bbox::new(0, 0, 8, 8).unwrap();
    let plane = vec![255u8; 64 * 64];
    let report = pass(bbox, evidence(square(false), Ok(plane))).expect("a pass");
    assert_eq!(report.icons.len(), 1);
    let icon = &report.icons[0];
    assert_eq!((icon.id, icon.node_count, icon.closed), (7, 4, false));
    assert_eq!((icon.ink_area, icon.colours), (64, 1));
    assert!(icon.score.composite > 990_000_000, "{:?}", icon.score);
    assert_eq!(icon.flags, vec![QualityFlag::OpenContour]);
    assert_eq!(report.flagged, 1);
    assert_eq!(report.flags_of(7), vec![QualityFlag::OpenContour]);
    assert!(!report.is_duplicate(7));
    assert_eq!(ReviewOptions::default().outlier_z, OUTLIER_Z);
}

#[test]
fn every_refusal_names_its_icon() {
    let inside = Bbox::new(0, 0, 8, 8).unwrap();
    let plane = || Ok(vec![255u8; 64 * 64]);
    let bad = pass(inside, evidence(Err("no path".to_string()), plane()));
    assert_eq!(
        bad,
        Err(ReviewError::BadArtwork {
            id: 7,
            reason: "no path".to_string()
        })
    );
    let off = Bbox::new(12, 0, 8, 8).unwrap();
    assert!(matches!(
        pass(off, evidence(square(true), plane())),
        Err(ReviewError::BadBbox { id: 7, .. })
    ));
    let blank = Bbox::new(8, 0, 8, 8).unwrap();
    assert_eq!(
        pass(blank, evidence(square(true), plane())),
        Err(ReviewError::NoInk { id: 7 })
    );
    assert!(matches!(
        pass(inside, evidence(square(true), Err("refused".to_string()))),
        Err(ReviewError::Render { id: 7, .. })
    ));
    let (sheet, _) = black_sheet();
    let other = ForegroundMask::new(4, 4);
    assert!(matches!(
        review_sheet(
            &sheet,
            &other,
            &Vec::new(),
            &Vec::new(),
            &ReviewOptions::default()
        ),
        Err(ReviewError::SizeMismatch { .. })
    ));
}

#[test]
fn a_document_the_renderer_rejects_names_its_icon() {
    let refused = resvg::usvg::Tree::from_str("not svg at all", &resvg::usvg::Options::default());
    let reason = refused.map(|_| ()).expect_err("no document").to_string();
    let (sheet, mask) = black_sheet();
    let bbox = Bbox::new(0, 0, 8, 8).unwrap();
    let error = review_sheet(
        &sheet,
        &mask,
        &vec![input(42, bbox)],
        &vec![evidence(square(true), Err(reason))],
        &ReviewOptions::default(),
    );
    assert!(matches!(error, Err(ReviewError::Render { id: 42, .. })));
}

#[test]
fn a_review_repeats_itself() {
    let bbox = Bbox::from_parts(0, 0, 8, 8);
    let plane = vec![255u8; 64 * 64];
    let first = pass(bbox, evidence(square(true), Ok(plane.clone()))).expect("a review");
    let second = pass(bbox, evidence(square(true), Ok(plane))).expect("a review");
    assert_eq!(first, second);
}

#[test]
fn bytes_behind_the_picture_are_not_read() {
    let pixels = vec![1, 2, 3, 4, 5, 6, 7, 8];
    let mut longer = pixels.clone();
    longer.extend_from_slice(&[9, 9, 9]);
    assert_eq!(upscale_nearest(&longer, 2, 1, 3), upscale_nearest(&pixels, 2, 1, 3));
    assert_eq!(upscale_nearest(&longer, 2, 1, 1), pixels);
}
