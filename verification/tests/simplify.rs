use iconforge::simplify::{simplify_path, PathOp, Pt, Simplifier};
use iconforge::trace::{path_slots, simplify_outlines, TraceError};
use kurbo::{BezPath, PathEl, Point};

/// Limits in pixels and degrees.
#[derive(Clone, Copy)]
struct SimplifyParams {
    collinear_deg: f64,
    corner_turn_deg: f64,
    rdp_px: f64,
    vis_area_px2: f64,
    snap_px: f64,
}

impl Default for SimplifyParams {
    fn default() -> Self {
        SimplifyParams {
            collinear_deg: 0.5,
            corner_turn_deg: 60.0,
            rdp_px: 0.35,
            vis_area_px2: 0.4,
            snap_px: 0.15,
        }
    }
}

fn simplifier(p: &SimplifyParams) -> Simplifier {
    let cos = |deg: f64| (deg.to_radians().cos() * 1e9).round() as i64;
    let milli = |v: f64| (v * 1000.0).round() as u32;
    Simplifier {
        collinear_cos: cos(p.collinear_deg),
        corner_cos: cos(p.corner_turn_deg),
        rdp_px: milli(p.rdp_px),
        vis_area_px2: milli(p.vis_area_px2),
        snap_px: milli(p.snap_px),
    }
}

fn ops_of(d: &str) -> Result<Vec<PathOp>, TraceError> {
    let pt = |p: Point| Pt {
        x: (p.x * 100.0).round() as i64,
        y: (p.y * 100.0).round() as i64,
    };
    let path = BezPath::from_svg(d).map_err(|_| TraceError::UnparseableSvg)?;
    Ok(path
        .iter()
        .map(|el| match el {
            PathEl::MoveTo(p) => PathOp::Move(pt(p)),
            PathEl::LineTo(p) => PathOp::Line(pt(p)),
            PathEl::QuadTo(q, p) => PathOp::Quad(pt(q), pt(p)),
            PathEl::CurveTo(a, b, p) => PathOp::Cubic(pt(a), pt(b), pt(p)),
            PathEl::ClosePath => PathOp::Close,
        })
        .collect())
}

fn simplify_d(d: &str, p: &SimplifyParams) -> Result<String, TraceError> {
    Ok(simplify_path(&ops_of(d)?, &simplifier(p)))
}

#[test]
fn collinear_anchor_is_merged() {
    let d = "M0,0 L10,0 L20,0 L20,10 Z";
    let out = simplify_d(d, &SimplifyParams::default()).unwrap();
    assert_eq!(out, "M0.00,0.00 L20.00,0.00 L20.00,10.00 Z");
}

#[test]
fn corner_survives_rdp_even_with_huge_epsilon() {
    let d = "M0,0 L10,0 L10,10 Z";
    let p = SimplifyParams {
        rdp_px: 1000.0,
        vis_area_px2: 1000.0,
        ..SimplifyParams::default()
    };
    assert_eq!(simplify_d(d, &p).unwrap(), "M0.00,0.00 L10.00,0.00 L10.00,10.00 Z");
}

#[test]
fn rdp_drops_low_detail_midpoint() {
    let d = "M0,0 L5,0.10 L10,0 L10,10 Z";
    let out = simplify_d(d, &SimplifyParams::default()).unwrap();
    assert_eq!(out, "M0.00,0.00 L10.00,0.00 L10.00,10.00 Z");
}

#[test]
fn visvalingam_kills_jitter_rdp_cannot_see() {
    // All deviations are 0.05 px (below RDP eps 0.35) but the wiggle
    // chain has tiny triangle areas — Visvalingam removes them.
    let d = "M0,0 L4,0 L5,0.05 L6,0 L10,0 L10,10 Z";
    let p = SimplifyParams {
        collinear_deg: 0.0,
        rdp_px: 0.0,
        vis_area_px2: 0.4,
        snap_px: 0.0,
        ..SimplifyParams::default()
    };
    assert_eq!(simplify_d(d, &p).unwrap(), "M0.00,0.00 L10.00,0.00 L10.00,10.00 Z");
}

#[test]
fn axis_snap_within_tolerance() {
    let d = "M0.05,3.96 L10,10";
    let out = simplify_d(d, &SimplifyParams::default()).unwrap();
    assert_eq!(out, "M0.00,4.00 L10.00,10.00");
}

#[test]
fn disabled_passes_roundtrip_exactly() {
    let d = "M2.00,3.00 L8.00,3.00 L8.00,9.00 Z";
    let p = SimplifyParams {
        collinear_deg: 0.0,
        rdp_px: 0.0,
        vis_area_px2: 0.0,
        snap_px: 0.0,
        ..SimplifyParams::default()
    };
    assert_eq!(simplify_d(d, &p).unwrap(), d);
}

#[test]
fn quad_is_elevated_to_cubic() {
    let out = simplify_d("M0,0 Q5,5 10,0", &SimplifyParams::default()).unwrap();
    // Control points: p0 + 2/3(pq - p0) = (3.33, 3.33), p2 + 2/3(pq - p2).
    assert_eq!(out, "M0.00,0.00 C3.33,3.33 6.67,3.33 10.00,0.00");
}

#[test]
fn curve_anchors_are_never_removed() {
    let d = "M0,0 C1,1 2,1 3,0 L3,3 Z";
    let p = SimplifyParams {
        rdp_px: 1000.0,
        vis_area_px2: 1000.0,
        ..SimplifyParams::default()
    };
    assert_eq!(
        simplify_d(d, &p).unwrap(),
        "M0.00,0.00 C1.00,1.00 2.00,1.00 3.00,0.00 L3.00,3.00 Z"
    );
}

#[test]
fn relative_command_input_is_resolved() {
    // Relative commands are resolved; the 90° corner
    // at (15,10) is pinned and survives.
    let out = simplify_d("M10,10 l5,0 l0,5 Z", &SimplifyParams::default()).unwrap();
    assert_eq!(out, "M10.00,10.00 L15.00,10.00 L15.00,15.00 Z");
}

#[test]
fn unparseable_d_is_rejected() {
    let err = simplify_d("M not numbers", &SimplifyParams::default()).unwrap_err();
    assert_eq!(err, TraceError::UnparseableSvg);
}

#[test]
fn a_pass_that_is_off_keeps_every_anchor() {
    let d = "M0.00,0.00 L5.00,1.00 L10.00,0.00 L15.00,1.00 L20.00,0.00";
    let p = SimplifyParams {
        collinear_deg: 0.0,
        rdp_px: 0.0,
        vis_area_px2: 0.0,
        snap_px: 0.0,
        ..SimplifyParams::default()
    };
    assert_eq!(simplify_d(d, &p).unwrap(), d);
}

#[test]
fn the_farthest_anchor_stays() {
    let d = "M0,0 L5,0.2 L10,0.5 L15,0.2 L20,0";
    let p = SimplifyParams {
        vis_area_px2: 0.0,
        snap_px: 0.0,
        ..SimplifyParams::default()
    };
    assert_eq!(
        simplify_d(d, &p).unwrap(),
        "M0.00,0.00 L10.00,0.50 L20.00,0.00"
    );
}

#[test]
fn outlines_are_apart_and_negative_coordinates_are_written() {
    let out = simplify_d("M-1.5,-0.25 L3,4 M7,7 M0,0 L1,1", &SimplifyParams::default()).unwrap();
    assert_eq!(out, "M-1.50,-0.25 L3.00,4.00 M0.00,0.00 L1.00,1.00");
}

#[test]
fn every_outline_of_a_document_is_simplified() {
    let svg: Vec<char> = "<path d=\"M0,0 L10,0 L20,0\"/><path d=\"M1,1 L2,2\"/>"
        .chars()
        .collect();
    let slots = path_slots(&svg).unwrap();
    let paths: Vec<Vec<PathOp>> = slots
        .iter()
        .map(|s| ops_of(&svg[s.start..s.end].iter().collect::<String>()).unwrap())
        .collect();
    assert_eq!(
        simplify_outlines(&svg, &slots, &paths, &simplifier(&SimplifyParams::default())),
        "<path d=\"M0.00,0.00 L20.00,0.00\"/><path d=\"M1.00,1.00 L2.00,2.00\"/>"
    );
}
