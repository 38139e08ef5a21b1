use iconforge::batch::IconVectorRow;
use iconforge::cascade::{CascadeCounts, CELL};
use iconforge::geometry::Bbox;
use iconforge::host::{
    host_inputs, host_review, restored_review_state, review_state_for, HostCluster, HostIcon,
    HostReview, ReviewState,
};
use iconforge::mask::ForegroundMask;
use iconforge::raster::SheetRaster;
use iconforge::review::{
    cell_canvas, cell_plane, probe_box, Artwork, IconEvidence, ReviewError, ReviewOptions, Shape,
    Subpath,
};
use iconforge::triage::{TriageAction, TriageLog};

/// The pixels of a part of a document, fitted into a square canvas.
fn render_area(
    tree: &resvg::usvg::Tree,
    canvas: u32,
    area: (f32, f32, f32, f32),
) -> Vec<u8> {
    let (x, y, w, h) = area;
    let scale = canvas as f32 / w.max(h);
    let tx = (canvas as f32 - w * scale) / 2.0 - x * scale;
    let ty = (canvas as f32 - h * scale) / 2.0 - y * scale;
    let mut pm = resvg::tiny_skia::Pixmap::new(canvas, canvas).expect("a pixmap");
    let t = resvg::tiny_skia::Transform::from_row(scale, 0.0, 0.0, scale, tx, ty);
    resvg::render(tree, t, &mut pm.as_mut());
    pm.data().to_vec()
}

/// The evidence cell of a document.
fn plane_of(document: &str) -> Result<Vec<u8>, String> {
    let bg = [255u8, 255, 255, 255];
    let tree = resvg::usvg::Tree::from_str(document, &resvg::usvg::Options::default())
        .map_err(|e| e.to_string())?;
    let (w, h) = (tree.size().width(), tree.size().height());
    let canvas = cell_canvas(CELL).expect("a legal side");
    let probe = render_area(&tree, canvas, (0.0, 0.0, w, h));
    let scale = canvas as f32 / w.max(h);
    let tx = (canvas as f32 - w * scale) / 2.0;
    let ty = (canvas as f32 - h * scale) / 2.0;
    let cell = match probe_box(&probe, CELL, &bg) {
        Some((x0, y0, x1, y1)) => {
            let (a, b) = ((x0 as f32 - tx) / scale, (y0 as f32 - ty) / scale);
            let (c, d) = ((x1 as f32 + 1.0 - tx) / scale, (y1 as f32 + 1.0 - ty) / scale);
            render_area(&tree, canvas, (a, b, c - a, d - b))
        }
        None => probe.clone(),
    };
    Ok(cell_plane(&probe, &cell, CELL, &bg))
}

/// One square, unless a path of the document cannot be read.
fn artwork_of(document: &str) -> Result<Artwork, String> {
    for part in document.split(" d=\"").skip(1) {
        let end = part.find('"').unwrap_or(part.len());
        kurbo::BezPath::from_svg(&part[..end]).map_err(|e| e.to_string())?;
    }
    Ok(Artwork {
        shapes: vec![Shape {
            fill: [0, 0, 0, 255],
            path: vec![Subpath {
                segs: 4,
                closed: true,
            }],
        }],
    })
}

/// What is known of an icon's drawing.
fn evidence_of(document: &str) -> IconEvidence {
    IconEvidence {
        artwork: artwork_of(document),
        stroke: 4000,
        solidity: 1000,
        plane: plane_of(document),
    }
}

/// A pass with the evidence of every icon.
fn review(
    sheet: &SheetRaster,
    mask: &ForegroundMask,
    icons: &Vec<HostIcon>,
) -> Result<HostReview, ReviewError> {
    let evidence: Vec<IconEvidence> = icons
        .iter()
        .map(|i| evidence_of(i.document.as_deref().unwrap_or("")))
        .collect();
    host_review(sheet, mask, icons, &evidence, &options())
}

const RECT: &str = "<svg xmlns=\"http://www.w3.org/2000/svg\" width=\"64\" height=\"64\" viewBox=\"0 0 64 64\"><rect x=\"4\" y=\"4\" width=\"56\" height=\"56\" fill=\"#000000\"/></svg>";
const SMALLER: &str = "<svg xmlns=\"http://www.w3.org/2000/svg\" width=\"64\" height=\"64\" viewBox=\"0 0 64 64\"><rect x=\"16\" y=\"16\" width=\"32\" height=\"32\" fill=\"#000000\"/></svg>";
/// A plus whose ink box is the same 56 × 56 square [`RECT`]'s is, so the two
/// fill the review's cell as *different* artwork.
const PLUS: &str = "<svg xmlns=\"http://www.w3.org/2000/svg\" width=\"64\" height=\"64\" viewBox=\"0 0 64 64\"><path d=\"M28 4 H36 V28 H60 V36 H36 V60 H28 V36 H4 V28 H28 Z\" fill=\"#000000\"/></svg>";

/// A white sheet with the mask set inside each given box.
fn sheet_and_mask(side: u32, ink: &[Bbox]) -> (SheetRaster, ForegroundMask) {
    let mut mask = ForegroundMask::new(side, side);
    for bbox in ink {
        for y in bbox.y..(bbox.y + bbox.h).min(side) {
            for x in bbox.x..(bbox.x + bbox.w).min(side) {
                mask.set(x, y, true);
            }
        }
    }
    let raster = SheetRaster::from_rgba(side, side, vec![255u8; (side * side * 4) as usize]);
    (raster, mask)
}

fn id(n: u8) -> [u8; 16] {
    let mut out = [0u8; 16];
    out[0] = n;
    out[15] = n.wrapping_mul(7);
    out
}

fn boxed(x: u32, y: u32) -> Bbox {
    Bbox::new(x, y, 32, 32).expect("legal box")
}

fn icon(n: u8, xy: (u32, u32), document: Option<&str>) -> HostIcon {
    HostIcon {
        id: id(n),
        bbox: Bbox::from_parts(xy.0, xy.1, 32, 32),
        document: document.map(str::to_string),
    }
}

fn options() -> ReviewOptions {
    ReviewOptions {
        background: [255, 255, 255, 255],
        ..ReviewOptions::default()
    }
}

#[test]
fn a_duplicate_cluster_comes_back_in_library_ids() {
    // Two pairs, each pair one document used twice, and the two documents
    // *different* artwork. Two sizes of one shape would not do: the review
    // fits its cell to the icon's ink box, so a 56 px square and a 32 px
    // square are one duplicate class by design and both pairs would merge.
    let boxes = [boxed(0, 0), boxed(32, 0), boxed(0, 32), boxed(32, 32)];
    let (sheet, mask) = sheet_and_mask(64, &boxes);
    let icons = vec![
        icon(1, (0, 0), Some(RECT)),
        icon(2, (32, 0), Some(RECT)),
        icon(3, (0, 32), Some(PLUS)),
        icon(4, (32, 32), Some(PLUS)),
    ];
    let review = review(&sheet, &mask, &icons).expect("a pass");
    assert_eq!(review.skipped, Vec::new());
    assert_eq!(review.icons.len(), 4);
    // The index is the icon's position in the row list, so the report can be
    // joined back to the rows it came from.
    for (position, entry) in review.icons.iter().enumerate() {
        assert_eq!(entry.index, position as u32);
        assert_eq!(entry.id, icons[position].id);
    }
    // Two documents, so two clusters, and every member is a real id.
    assert_eq!(review.clusters.len(), 2);
    let mut members: Vec<Vec<[u8; 16]>> = review
        .clusters
        .iter()
        .map(|cluster| cluster.members.clone())
        .collect();
    members.sort();
    assert_eq!(members, vec![vec![id(1), id(2)], vec![id(3), id(4)]]);
    for cluster in &review.clusters {
        assert!(
            cluster.members.contains(&cluster.keeper),
            "the keeper is a member: {cluster:?}"
        );
    }
    assert_eq!(review.duplicate_ids().len(), 4);
}

#[test]
fn a_skipped_row_does_not_renumber_the_rows_after_it() {
    // The rule the triage log depends on: icon 2 is refused, and icon 3 is
    // still icon 3 afterwards — otherwise every decision taken between two
    // passes would point at the wrong drawing.
    let boxes = [boxed(0, 0), boxed(32, 0), boxed(0, 32)];
    let (sheet, mask) = sheet_and_mask(64, &boxes);
    let icons = vec![
        icon(1, (0, 0), Some(RECT)),
        icon(2, (32, 0), None),
        icon(3, (0, 32), Some(SMALLER)),
    ];
    let review = review(&sheet, &mask, &icons).expect("a pass");
    let pairs: Vec<(u32, [u8; 16])> = review
        .icons
        .iter()
        .map(|entry| (entry.index, entry.id))
        .collect();
    assert_eq!(pairs, vec![(0, id(1)), (2, id(3))]);
    assert_eq!(review.skipped.len(), 1);
    assert_eq!(review.skipped[0].id, id(2));
}

#[test]
fn a_document_the_renderer_refuses_does_not_hide_the_others() {
    let boxes = [boxed(0, 0), boxed(32, 0), boxed(0, 32)];
    let (sheet, mask) = sheet_and_mask(64, &boxes);
    let icons = vec![
        icon(1, (0, 0), Some(RECT)),
        // A malformed `d`: the engine's parser refuses it, which is the one
        // refusal that cannot be seen without trying to render. (A document
        // that parses but draws nothing is *reviewed* — its cell is empty,
        // which is a fact about the artwork, not a broken row.)
        icon(2, (32, 0), Some(r#"<svg><path d="M 0 0 L"/></svg>"#)),
        icon(3, (0, 32), Some(SMALLER)),
    ];
    let review = review(&sheet, &mask, &icons).expect("a pass");
    assert_eq!(review.icons.len(), 2, "the other two are still reviewed");
    assert_eq!(review.skipped.len(), 1);
    assert_eq!(review.skipped[0].id, id(2));
    let indices: Vec<u32> = review.icons.iter().map(|entry| entry.index).collect();
    assert_eq!(indices, vec![0, 2]);
    assert_eq!(review.icons[1].id, id(3));
}

#[test]
fn a_box_off_the_sheet_or_without_ink_is_skipped() {
    let boxes = [boxed(0, 0)];
    let (sheet, mask) = sheet_and_mask(64, &boxes);
    let off = HostIcon {
        id: id(9),
        bbox: Bbox::from_parts(48, 0, 32, 32),
        document: Some(RECT.to_string()),
    };
    // (32, 32) is inside the raster but has no ink in the mask.
    let blank = icon(8, (32, 32), Some(RECT));
    let icons = vec![icon(1, (0, 0), Some(RECT)), off, blank];
    let review = review(&sheet, &mask, &icons).expect("a pass");
    assert_eq!(review.icons.len(), 1);
    assert_eq!(review.icons[0].id, id(1));
    let reasons: Vec<(&[u8; 16], &str)> = review
        .skipped
        .iter()
        .map(|skip| (&skip.id, skip.reason.as_str()))
        .collect();
    assert_eq!(reasons.len(), 2);
    assert!(reasons[0].1.contains("off the 64×64 sheet"), "{reasons:?}");
    assert!(reasons[1].1.contains("no ink"), "{reasons:?}");
}

#[test]
fn an_empty_box_is_skipped_without_moving_the_others() {
    // The library can hold a degenerate row; it must not shift the ids.
    let boxes = [boxed(0, 0), boxed(32, 0)];
    let (sheet, mask) = sheet_and_mask(64, &boxes);
    let degenerate = HostIcon {
        id: id(7),
        bbox: Bbox::from_parts(0, 0, 0, 0),
        document: Some(RECT.to_string()),
    };
    let icons = vec![
        icon(1, (0, 0), Some(RECT)),
        degenerate,
        icon(2, (32, 0), Some(SMALLER)),
    ];
    let review = review(&sheet, &mask, &icons).expect("a pass");
    assert_eq!(review.skipped.len(), 1);
    assert_eq!(review.skipped[0].id, id(7));
    assert!(
        review.skipped[0].reason.contains("is empty"),
        "{:?}",
        review.skipped
    );
    let indices: Vec<u32> = review.icons.iter().map(|entry| entry.index).collect();
    assert_eq!(indices, vec![0, 2]);
}

#[test]
fn an_empty_pass_reviews_nothing_and_says_why() {
    let (sheet, mask) = sheet_and_mask(64, &[]);
    let review = review(&sheet, &mask, &Vec::new()).expect("a pass");
    assert_eq!(review, HostReview::empty(Vec::new()));
}

#[test]
fn a_decision_names_the_library_state_it_puts_an_icon_in() {
    assert_eq!(
        review_state_for(TriageAction::Approve),
        ReviewState::Approved
    );
    assert_eq!(
        review_state_for(TriageAction::BulkApprove),
        ReviewState::Approved
    );
    assert_eq!(
        review_state_for(TriageAction::Reject),
        ReviewState::Rejected
    );
    assert_eq!(review_state_for(TriageAction::Flag), ReviewState::Flagged);
    assert_eq!(
        review_state_for(TriageAction::Duplicate),
        ReviewState::Duplicate
    );
    // Undo restores what was there before — and a first decision leaves
    // nothing behind but `pending`.
    assert_eq!(restored_review_state(None), ReviewState::Pending);
    let mut log = TriageLog::new();
    log.apply(0, TriageAction::Flag, 10);
    // The first decision on an icon replaces nothing, so undo leaves it
    // pending; the second one replaces the flag, so undo puts it back.
    let (_, nothing) = log.undo().expect("the log has one decision");
    assert_eq!(nothing.map(|d| d.action), None);
    log.apply(0, TriageAction::Flag, 20);
    log.apply(0, TriageAction::Reject, 30);
    let (_, replaced) = log.undo().expect("the log has two decisions");
    assert_eq!(replaced.map(|d| d.action), Some(TriageAction::Flag));
    assert_eq!(
        restored_review_state(replaced),
        ReviewState::Flagged,
        "undoing a second decision restores the first one's state"
    );
}

#[test]
fn every_row_becomes_one_input_in_row_order() {
    let row = |n: u8, w: u32| IconVectorRow {
        id: id(n),
        bbox: Bbox::from_parts(3, 4, w, 6),
        svg_key: String::new(),
        preset: "crisp".to_string(),
        mae: 0,
        ssim: 0,
        iou: 0,
    };
    let rows = [row(5, 2), row(1, 0), row(5, 2)];
    let documents = [Some(RECT.to_string()), None, Some("other".to_string())];
    let icons = host_inputs(&rows, &documents);
    assert_eq!(icons.len(), 3);
    for (i, icon) in icons.iter().enumerate() {
        assert_eq!(icon.id, rows[i].id);
        assert_eq!(icon.bbox, rows[i].bbox);
        assert_eq!(icon.document, documents[i]);
    }
}

#[test]
fn the_same_rows_are_reviewed_alike() {
    let boxes = [boxed(0, 0), boxed(32, 0)];
    let (sheet, mask) = sheet_and_mask(64, &boxes);
    let icons = vec![
        icon(1, (0, 0), Some(RECT)),
        icon(2, (32, 0), Some(r#"<svg><path d="M 0 0 L"/></svg>"#)),
    ];
    let first = review(&sheet, &mask, &icons).expect("a pass");
    let second = review(&sheet, &mask, &icons).expect("a pass");
    assert_eq!(first.skipped.len(), 1);
    assert_eq!(first, second);
}

#[test]
fn duplicate_ids_ascend_and_stand_once() {
    let of = |a: u8, b: u8| HostCluster {
        members: vec![id(a), id(b)],
        keeper: id(b),
    };
    let report = HostReview {
        icons: Vec::new(),
        skipped: Vec::new(),
        clusters: vec![of(9, 2), of(5, 2)],
        outliers: Vec::new(),
        flagged: 0,
        cascade: CascadeCounts::default(),
    };
    assert_eq!(report.duplicate_ids(), vec![id(2), id(5), id(9)]);
}
