//! Reviewing one sheet: quality flags, outliers and duplicates.
//!
//! What only a renderer or the artwork parser can tell of an icon comes in as
//! [`IconEvidence`]; the crops, the scores and every decision are made here.
use vstd::prelude::*;
use vstd::string::StringExecFns;
use crate::cascade;
use crate::cascade::{CascadeCounts, CELL};
use crate::cluster;
use crate::cluster::DupCluster;
use crate::counting;
use crate::digest;
use crate::dupes::{DupOptions, FULL, INK_THRESHOLD};
use crate::dupes;
use crate::geometry::Bbox;
use crate::hashes;
use crate::hashes::HashItem;
use crate::mask;
use crate::mask::ForegroundMask;
use crate::outliers;
use crate::outliers::{IconStat, OutlierFlag};
use crate::quality;
use crate::quality::{QualityFlag, QualityInput};
use crate::raster;
use crate::raster::SheetRaster;
use crate::score;
use crate::score::Score;
use crate::sorting;
use crate::sorting::SortKey;
use crate::split::Milli;
use crate::text;

verus! {

/// Supersampling of the normalised cell.
pub const SUPERSAMPLE: u32 = 2;

/// Scale at which the quality score is measured.
pub const QUALITY_CELL_SCALE: u32 = 2;

/// Longest side of a sheet that can be reviewed, in pixels.
pub const MAX_REVIEW_SIDE: u32 = 16384;

/// One icon to review.
#[derive(Clone, Debug, PartialEq, Eq)]
pub struct ReviewInput {
    /// The icon's id.
    pub id: u32,
    /// Its traced document.
    pub document: String,
    /// Its box on the sheet.
    pub bbox: Bbox,
}

/// How a review behaves.
#[derive(Clone, Debug, PartialEq, Eq)]
pub struct ReviewOptions {
    /// The sheet's background colour.
    pub background: [u8; 4],
    /// Bounds of the duplicate cascade.
    pub dupes: DupOptions,
    /// The z-score above which an outlier is reported, in thousandths.
    pub outlier_z: Milli,
}

impl Default for ReviewOptions {
    fn default() -> (r: ReviewOptions)
        ensures
            r.background@ == seq![255u8, 255u8, 255u8, 255u8],
            r.dupes == (DupOptions { iou_min: 920, hausdorff_max: 20, ssim_min: 970 }),
            r.outlier_z == outliers::OUTLIER_Z,
    {
        let r = ReviewOptions {
            background: [255, 255, 255, 255],
            dupes: DupOptions::default(),
            outlier_z: outliers::OUTLIER_Z,
        };
        assert(r.background@ =~= seq![255u8, 255u8, 255u8, 255u8]);
        r
    }
}

/// One subpath of an outline.
#[derive(Clone, Copy, Debug, PartialEq, Eq, Structural)]
pub struct Subpath {
    /// How many segments it has.
    pub segs: u32,
    /// It ends where it starts.
    pub closed: bool,
}

/// One filled shape.
#[derive(Clone, Debug, PartialEq, Eq)]
pub struct Shape {
    /// Fill colour, as red, green, blue and alpha.
    pub fill: [u8; 4],
    /// Its subpaths.
    pub path: Vec<Subpath>,
}

/// The parsed artwork of an icon.
#[derive(Clone, Debug, PartialEq, Eq)]
pub struct Artwork {
    /// Shapes in paint order.
    pub shapes: Vec<Shape>,
}

/// What the parser, the metrics and the renderer found of one icon.
#[derive(Debug, PartialEq, Eq)]
pub struct IconEvidence {
    /// The parsed artwork, or why the document does not parse.
    pub artwork: Result<Artwork, String>,
    /// Stroke weight, in thousandths of a pixel.
    pub stroke: u32,
    /// Ink area over hull area, in thousandths.
    pub solidity: Milli,
    /// The normalised cell, or why it could not be rendered.
    pub plane: Result<Vec<u8>, String>,
}

/// Everything the review knows about one icon.
#[derive(Clone, Debug, PartialEq, Eq)]
pub struct IconReview {
    /// The icon's id.
    pub id: u32,
    /// Score of the document against the sheet's own crop.
    pub score: Score,
    /// The quality flags it earned.
    pub flags: Vec<QualityFlag>,
    /// Segments of the outline.
    pub node_count: u32,
    /// Every subpath is closed.
    pub closed: bool,
    /// Distinct fill colours.
    pub colours: u32,
    /// Ink area in pixels.
    pub ink_area: u64,
    /// The numbers the outlier detector read.
    pub stat: IconStat,
    /// Difference hash of the cell.
    pub d_hash: u64,
    /// Average hash of the cell.
    pub a_hash: u64,
    /// Digest of the cell.
    pub digest: [u8; 32],
}

/// One sheet's review.
#[derive(Clone, Debug, PartialEq, Eq)]
pub struct ReviewReport {
    /// Every icon, in the order given.
    pub icons: Vec<IconReview>,
    /// Duplicate clusters.
    pub clusters: Vec<DupCluster>,
    /// Outliers.
    pub outliers: Vec<OutlierFlag>,
    /// Icons with at least one quality flag.
    pub flagged: usize,
    /// How many pairs came through each stage of the cascade.
    pub cascade: CascadeCounts,
}

/// Why a review could not run.
#[derive(Debug, PartialEq, Eq)]
pub enum ReviewError {
    /// The document does not parse as artwork.
    BadArtwork {
        /// Which icon.
        id: u32,
        /// The parser's reason.
        reason: String,
    },
    /// The raster and the mask have different sizes.
    SizeMismatch {
        /// Size of the raster.
        raster: (u32, u32),
        /// Size of the mask.
        mask: (u32, u32),
    },
    /// The side of the normalised cell is zero or too long.
    BadSide {
        /// The side asked for.
        side: u32,
    },
    /// The sheet is too long on a side.
    SheetTooLarge {
        /// Size of the sheet.
        side: (u32, u32),
    },
    /// The icon's box is not on the sheet.
    BadBbox {
        /// Which icon.
        id: u32,
        /// Its box.
        bbox: Bbox,
    },
    /// The box has no ink.
    NoInk {
        /// Which icon.
        id: u32,
    },
    /// The document could not be rendered.
    Render {
        /// Which icon.
        id: u32,
        /// The renderer's reason.
        reason: String,
    },
}

// ---- messages -----------------------------------------------------------------------

/// A box as text.
pub open spec fn box_text(b: Bbox) -> Seq<char> {
    "Bbox { x: "@ + text::decimal(b.x as nat) + ", y: "@ + text::decimal(b.y as nat) + ", w: "@
        + text::decimal(b.w as nat) + ", h: "@ + text::decimal(b.h as nat) + " }"@
}

/// Appends a box as text.
pub fn push_box(s: &mut String, b: Bbox)
    ensures
        final(s)@ == old(s)@ + box_text(b),
{
    let ghost s0 = s@;
    s.append("Bbox { x: ");
    text::push_decimal(s, b.x as u64);
    s.append(", y: ");
    text::push_decimal(s, b.y as u64);
    s.append(", w: ");
    text::push_decimal(s, b.w as u64);
    s.append(", h: ");
    text::push_decimal(s, b.h as u64);
    s.append(" }");
    assert(s@ =~= s0 + box_text(b));
}

/// The message of an error.
pub open spec fn message_of(e: ReviewError) -> Seq<char> {
    match e {
        ReviewError::BadArtwork { id, reason } => "icon "@ + text::decimal(id as nat) + ": "@ + reason@,
        ReviewError::SizeMismatch { raster, mask } => "raster "@ + text::decimal(raster.0 as nat) + "×"@
            + text::decimal(raster.1 as nat) + " and mask "@ + text::decimal(mask.0 as nat) + "×"@
            + text::decimal(mask.1 as nat)
            + " differ — they must come from one normalization"@,
        ReviewError::BadSide { side } => "cell side "@ + text::decimal(side as nat)
            + " is not a legal size"@,
        ReviewError::SheetTooLarge { side } => "sheet "@ + text::decimal(side.0 as nat) + "×"@
            + text::decimal(side.1 as nat) + " exceeds the review limit"@,
        ReviewError::BadBbox { id, bbox } => "icon "@ + text::decimal(id as nat) + ": box "@
            + box_text(bbox) + " is off the sheet"@,
        ReviewError::NoInk { id } => "icon "@ + text::decimal(id as nat) + ": no ink in its box"@,
        ReviewError::Render { id, reason } => "icon "@ + text::decimal(id as nat) + ": "@ + reason@,
    }
}

impl ReviewError {
    /// The error as text.
    pub fn message(&self) -> (r: String)
        ensures
            r@ == message_of(*self),
    {
        match self {
            ReviewError::BadArtwork { id, reason } => {
                let mut s = String::from_str("icon ");
                text::push_decimal(&mut s, *id as u64);
                s.append(": ");
                s.append(reason.as_str());
                assert(s@ =~= message_of(*self));
                s
            },
            ReviewError::SizeMismatch { raster, mask } => {
                let mut s = String::from_str("raster ");
                text::push_decimal(&mut s, raster.0 as u64);
                s.append("×");
                text::push_decimal(&mut s, raster.1 as u64);
                s.append(" and mask ");
                text::push_decimal(&mut s, mask.0 as u64);
                s.append("×");
                text::push_decimal(&mut s, mask.1 as u64);
                s.append(" differ — they must come from one normalization");
                assert(s@ =~= message_of(*self));
                s
            },
            ReviewError::BadSide { side } => {
                let mut s = String::from_str("cell side ");
                text::push_decimal(&mut s, *side as u64);
                s.append(" is not a legal size");
                assert(s@ =~= message_of(*self));
                s
            },
            ReviewError::SheetTooLarge { side } => {
                let mut s = String::from_str("sheet ");
                text::push_decimal(&mut s, side.0 as u64);
                s.append("×");
                text::push_decimal(&mut s, side.1 as u64);
                s.append(" exceeds the review limit");
                assert(s@ =~= message_of(*self));
                s
            },
            ReviewError::BadBbox { id, bbox } => {
                let mut s = String::from_str("icon ");
                text::push_decimal(&mut s, *id as u64);
                s.append(": box ");
                push_box(&mut s, *bbox);
                s.append(" is off the sheet");
                assert(s@ =~= message_of(*self));
                s
            },
            ReviewError::NoInk { id } => {
                let mut s = String::from_str("icon ");
                text::push_decimal(&mut s, *id as u64);
                s.append(": no ink in its box");
                assert(s@ =~= message_of(*self));
                s
            },
            ReviewError::Render { id, reason } => {
                let mut s = String::from_str("icon ");
                text::push_decimal(&mut s, *id as u64);
                s.append(": ");
                s.append(reason.as_str());
                assert(s@ =~= message_of(*self));
                s
            },
        }
    }
}

// ---- the normalised cell ------------------------------------------------------------

/// A side that a normalised cell can have.
pub open spec fn side_ok(side: u32) -> bool {
    0 < side && side <= MAX_REVIEW_SIDE
}

/// The side of the canvas that a cell is rendered on.
pub fn cell_canvas(side: u32) -> (r: Result<u32, ReviewError>)
    ensures
        r == (if side_ok(side) {
            Ok::<u32, ReviewError>((side * 2) as u32)
        } else {
            Err(ReviewError::BadSide { side })
        }),
{
    if side == 0 || side > MAX_REVIEW_SIDE {
        Err(ReviewError::BadSide { side })
    } else {
        Ok(side * SUPERSAMPLE)
    }
}

/// A premultiplied channel over the background.
pub open spec fn mixed(c: u8, b: u8, alpha: u8) -> int {
    c + (b * (255 - alpha)) / 255
}

/// The distance of a mixed channel from the background, at most 255.
pub open spec fn mixed_gap(c: u8, b: u8, alpha: u8) -> int {
    let m = mixed(c, b, alpha);
    let d = if m < b {
        b - m
    } else {
        m - b
    };
    if d > 255 {
        255
    } else {
        d
    }
}

/// The greatest distance of a pixel's colour channels from the background.
pub open spec fn cell_evidence(px: Seq<u8>, bg: Seq<u8>, i: int) -> int {
    let a = px[4 * i + 3];
    let r = mixed_gap(px[4 * i], bg[0], a);
    let g = mixed_gap(px[4 * i + 1], bg[1], a);
    let b = mixed_gap(px[4 * i + 2], bg[2], a);
    let m = if r < g {
        g
    } else {
        r
    };
    if m < b {
        b
    } else {
        m
    }
}

/// The ink evidence of a premultiplied render over a background.
pub open spec fn render_evidence(px: Seq<u8>, bg: Seq<u8>) -> Seq<u8> {
    Seq::new(px.len() / 4, |i: int| cell_evidence(px, bg, i) as u8)
}

fn mix_gap(c: u8, b: u8, alpha: u8) -> (r: u8)
    ensures
        r == mixed_gap(c, b, alpha),
{
    proof {
        let x = b as int;
        let y = 255 - alpha;
        assert(0 <= x * y <= 65025) by (nonlinear_arith)
            requires
                0 <= x <= 255,
                0 <= y <= 255,
        ;
    }
    let m: u32 = c as u32 + (b as u32 * (255 - alpha) as u32) / 255;
    let d: u32 = if m < b as u32 {
        b as u32 - m
    } else {
        m - b as u32
    };
    if d > 255 {
        255
    } else {
        d as u8
    }
}

/// The ink evidence of a premultiplied render over a background: a pixel that
/// shows nothing but the background is no ink.
pub fn evidence_plane(pixels: &[u8], background: &[u8; 4]) -> (r: Vec<u8>)
    ensures
        r@ == render_evidence(pixels@, background@),
{
    let n: usize = pixels.len() / 4;
    let mut out: Vec<u8> = Vec::new();
    let mut i: usize = 0;
    while i < n
        invariant
            i <= n,
            n == pixels@.len() / 4,
            pixels@.len() <= usize::MAX,
            out@.len() == i,
            forall|k: int| 0 <= k < i ==> #[trigger] out@[k] == cell_evidence(pixels@, background@, k),
        decreases n - i,
    {
        let a: u8 = pixels[4 * i + 3];
        let r: u8 = mix_gap(pixels[4 * i], background[0], a);
        let g: u8 = mix_gap(pixels[4 * i + 1], background[1], a);
        let b: u8 = mix_gap(pixels[4 * i + 2], background[2], a);
        let m: u8 = if r < g {
            g
        } else {
            r
        };
        out.push(
            if m < b {
                b
            } else {
                m
            },
        );
        i = i + 1;
    }
    assert(out@ =~= render_evidence(pixels@, background@));
    out
}

/// `b` is the tight box `(x0, y0, x1, y1)` around the ink of a plane, its last
/// column and row included.
pub open spec fn is_ink_box(plane: Seq<u8>, w: int, h: int, b: (u32, u32, u32, u32)) -> bool {
    &&& b.0 <= b.2 < w
    &&& b.1 <= b.3 < h
    &&& forall|x: int, y: int| #[trigger]
        dupes::ink_at(plane, w, h, x, y) ==> b.0 <= x <= b.2 && b.1 <= y <= b.3
    &&& exists|y: int| #[trigger] dupes::ink_at(plane, w, h, b.0 as int, y)
    &&& exists|y: int| #[trigger] dupes::ink_at(plane, w, h, b.2 as int, y)
    &&& exists|x: int| #[trigger] dupes::ink_at(plane, w, h, x, b.1 as int)
    &&& exists|x: int| #[trigger] dupes::ink_at(plane, w, h, x, b.3 as int)
}

/// The tight box around the ink of a plane; `None` where there is none.
pub fn ink_box(plane: &[u8], w: u32, h: u32) -> (r: Option<(u32, u32, u32, u32)>)
    requires
        w > 0,
        plane@.len() == w * h,
    ensures
        match r {
            Some(b) => is_ink_box(plane@, w as int, h as int, b),
            None => !dupes::has_ink(plane@, w as int, h as int),
        },
{
    let ghost iw = w as int;
    let ghost ih = h as int;
    let n: usize = plane.len();
    let mut found: bool = false;
    let mut x0: u32 = 0;
    let mut y0: u32 = 0;
    let mut x1: u32 = 0;
    let mut y1: u32 = 0;
    let mut i: usize = 0;
    while i < n
        invariant
            i <= n,
            n == plane@.len(),
            n == w * h,
            w > 0,
            iw == w,
            ih == h,
            found ==> x0 <= x1 && x1 < w && y0 <= y1 && y1 < h,
            forall|k: int|
                0 <= k < i && #[trigger] dupes::is_ink(plane@, k) ==> found && x0 <= k % iw <= x1 && y0
                    <= k / iw <= y1,
            found ==> exists|y: int| #[trigger] dupes::ink_at(plane@, iw, ih, x0 as int, y),
            found ==> exists|y: int| #[trigger] dupes::ink_at(plane@, iw, ih, x1 as int, y),
            found ==> exists|x: int| #[trigger] dupes::ink_at(plane@, iw, ih, x, y0 as int),
            found ==> exists|x: int| #[trigger] dupes::ink_at(plane@, iw, ih, x, y1 as int),
        decreases n - i,
    {
        if plane[i] >= INK_THRESHOLD {
            proof {
                mask::lemma_pixel_split(iw, ih, i as int);
                assert(dupes::ink_at(plane@, iw, ih, i as int % iw, i as int / iw));
                assert(0 <= i as int / iw < ih);
            }
            let x: u32 = (i % w as usize) as u32;
            let y: u32 = (i / w as usize) as u32;
            assert(dupes::ink_at(plane@, iw, ih, x as int, y as int));
            if !found {
                x0 = x;
                x1 = x;
                y0 = y;
                y1 = y;
                found = true;
            } else {
                if x < x0 {
                    x0 = x;
                }
                if x > x1 {
                    x1 = x;
                }
                if y < y0 {
                    y0 = y;
                }
                if y > y1 {
                    y1 = y;
                }
            }
        }
        i = i + 1;
    }
    if found {
        proof {
            assert forall|x: int, y: int| #[trigger] dupes::ink_at(plane@, iw, ih, x, y) implies x0 <= x
                <= x1 && y0 <= y <= y1 by {
                mask::lemma_pixel_in(iw, ih, x, y);
                let k = mask::pixel_at(iw, x, y);
                assert(dupes::is_ink(plane@, k));
                assert(k % iw == x && k / iw == y) by (nonlinear_arith)
                    requires
                        k == y * iw + x,
                        0 <= x < iw,
                ;
            }
        }
        Some((x0, y0, x1, y1))
    } else {
        proof {
            assert forall|x: int, y: int| !#[trigger] dupes::ink_at(plane@, iw, ih, x, y) by {
                if 0 <= x < iw && 0 <= y < ih {
                    mask::lemma_pixel_in(iw, ih, x, y);
                    let k = mask::pixel_at(iw, x, y);
                    if dupes::is_ink(plane@, k) {
                        assert(found);
                    }
                }
            }
        }
        None
    }
}

/// The cell of an icon whose probe has no ink.
pub open spec fn blank(n: int) -> Seq<u8> {
    Seq::new(n as nat, |i: int| 0u8)
}

/// The normalised cell from its two renders: blank where the probe shows no
/// ink, else the ink evidence of the fitted render, scaled down to the cell.
pub open spec fn cell_of(probe: Seq<u8>, cell: Seq<u8>, bg: Seq<u8>, side: int) -> Seq<u8> {
    if !dupes::has_ink(render_evidence(probe, bg), 2 * side, 2 * side) {
        blank(side * side)
    } else {
        hashes::scaled(render_evidence(cell, bg), 2 * side, 2 * side, side, side)
    }
}

/// A cell without ink.
fn blank_cell(side: u32) -> (r: Vec<u8>)
    requires
        side_ok(side),
    ensures
        r@ == blank(side * side),
{
    proof {
        assert(side * side <= 16384 * 16384) by (nonlinear_arith)
            requires
                0 <= side <= 16384,
        ;
    }
    let n: usize = side as usize * side as usize;
    let mut out: Vec<u8> = Vec::new();
    let mut i: usize = 0;
    while i < n
        invariant
            i <= n,
            out@.len() == i,
            forall|k: int| 0 <= k < i ==> #[trigger] out@[k] == 0,
        decreases n - i,
    {
        out.push(0);
        i = i + 1;
    }
    assert(out@ =~= blank(side * side));
    out
}

/// Where the ink of a probe render lies on its canvas; `None` where there is
/// none.
pub fn probe_box(probe: &[u8], side: u32, background: &[u8; 4]) -> (r: Option<(u32, u32, u32, u32)>)
    requires
        side_ok(side),
        probe@.len() == 16 * (side * side),
    ensures
        match r {
            Some(b) => is_ink_box(render_evidence(probe@, background@), 2 * side, 2 * side, b),
            None => !dupes::has_ink(render_evidence(probe@, background@), 2 * side, 2 * side),
        },
{
    let plane = evidence_plane(probe, background);
    proof {
        assert((2 * side) * (2 * side) == 4 * (side * side)) by (nonlinear_arith);
    }
    ink_box(plane.as_slice(), 2 * side, 2 * side)
}

/// Makes the normalised cell from its two renders, both on a canvas of twice
/// the cell's side.
pub fn cell_plane(probe: &[u8], cell: &[u8], side: u32, background: &[u8; 4]) -> (r: Vec<u8>)
    requires
        side_ok(side),
        probe@.len() == 16 * (side * side),
        cell@.len() == 16 * (side * side),
    ensures
        r@ == cell_of(probe@, cell@, background@, side as int),
{
    if probe_box(probe, side, background).is_none() {
        return blank_cell(side);
    }
    let plane = evidence_plane(cell, background);
    proof {
        assert((2 * side) * (2 * side) == 4 * (side * side)) by (nonlinear_arith);
    }
    match hashes::downscale_luma(plane.as_slice(), 2 * side, 2 * side, side, side) {
        Some(v) => v,
        None => blank_cell(side),
    }
}

/// The digest of a normalised plane.
pub fn plane_digest(plane: &[u8]) -> (r: [u8; 32])
    ensures
        r@ == digest::digest_of(plane@),
{
    digest::digest(plane)
}

// ---- upscaling ----------------------------------------------------------------------

/// Byte `k` of an RGBA image whose pixels are each repeated `f` times on both
/// sides.
pub open spec fn repeated_byte(rgba: Seq<u8>, w: int, f: int, k: int) -> u8 {
    let p = k / 4;
    let x = p % (w * f);
    let y = p / (w * f);
    rgba[raster::channel_at(w, x / f, y / f, k % 4)]
}

/// An RGBA image with every pixel repeated `f` times on both sides.
pub open spec fn repeated(rgba: Seq<u8>, w: int, h: int, f: int) -> Seq<u8> {
    Seq::new((4 * ((w * f) * (h * f))) as nat, |k: int| repeated_byte(rgba, w, f, k))
}

/// Repeats every pixel `factor` times on both sides.
pub fn upscale_nearest(rgba: &[u8], w: u32, h: u32, factor: u32) -> (r: Vec<u8>)
    requires
        rgba@.len() >= 4 * (w * h),
        w * factor <= u32::MAX,
        h * factor <= u32::MAX,
    ensures
        r@ == repeated(rgba@, w as int, h as int, factor as int),
{
    let tw: u32 = w * factor;
    let th: u32 = h * factor;
    let len: usize = rgba.len();
    let ghost goal = repeated(rgba@, w as int, h as int, factor as int);
    let mut out: Vec<u8> = Vec::new();
    let mut y: u32 = 0;
    proof {
        mask::lemma_row(tw as int, th as int, 0);
    }
    while y < th
        invariant
            y <= th,
            tw == w * factor,
            th == h * factor,
            len == rgba@.len(),
            len >= 4 * (w * h),
            goal == repeated(rgba@, w as int, h as int, factor as int),
            goal.len() == 4 * (tw * th),
            out@.len() == 4 * (y * tw),
            y * tw <= tw * th,
            y == th ==> y * tw == tw * th,
            forall|k: int| 0 <= k < out@.len() ==> #[trigger] out@[k] == goal[k],
        decreases th - y,
    {
        let mut x: u32 = 0;
        proof {
            mask::lemma_row(tw as int, th as int, y as int);
        }
        while x < tw
            invariant
                x <= tw,
                y < th,
                tw == w * factor,
                th == h * factor,
                len == rgba@.len(),
                len >= 4 * (w * h),
                goal == repeated(rgba@, w as int, h as int, factor as int),
                goal.len() == 4 * (tw * th),
                out@.len() == 4 * (y * tw + x),
                y * tw + tw <= tw * th,
                forall|k: int| 0 <= k < out@.len() ==> #[trigger] out@[k] == goal[k],
            decreases tw - x,
        {
            proof {
                assert(factor > 0) by {
                    if factor == 0 {
                        assert(w * factor == 0) by (nonlinear_arith)
                            requires
                                factor == 0,
                        ;
                    }
                }
                assert(x as int / factor as int + 1 <= w && 0 <= x as int / factor as int) by (nonlinear_arith)
                    requires
                        0 <= x < w * factor,
                        factor > 0,
                ;
                assert(y as int / factor as int + 1 <= h && 0 <= y as int / factor as int) by (nonlinear_arith)
                    requires
                        0 <= y < h * factor,
                        factor > 0,
                ;
                raster::lemma_channel_in(w as int, h as int, x as int / factor as int, y as int / factor as int, 3);
                let p = y * tw + x;
                assert(p % (tw as int) == x && p / (tw as int) == y) by (nonlinear_arith)
                    requires
                        p == y * tw + x,
                        0 <= x < tw,
                        0 <= y,
                ;
            }
            let sx: usize = (x / factor) as usize;
            let sy: usize = (y / factor) as usize;
            let at: usize = (sy * w as usize + sx) * 4;
            let ghost p = y * tw + x;
            assert(at == raster::channel_at(w as int, sx as int, sy as int, 0));
            out.push(rgba[at]);
            assert(goal[4 * p] == rgba@[at as int]);
            out.push(rgba[at + 1]);
            assert(goal[4 * p + 1] == rgba@[at + 1]);
            out.push(rgba[at + 2]);
            assert(goal[4 * p + 2] == rgba@[at + 2]);
            out.push(rgba[at + 3]);
            assert(goal[4 * p + 3] == rgba@[at + 3]);
            x = x + 1;
        }
        proof {
            mask::lemma_row(tw as int, th as int, y + 1);
            assert((y + 1) * tw == y * tw + tw) by (nonlinear_arith);
        }
        y = y + 1;
    }
    assert(out@ =~= goal);
    out
}

/// Every pixel becomes a block of its own colour, and repeating once changes
/// nothing.
pub proof fn pixels_become_blocks(rgba: Seq<u8>, w: int, h: int, f: int, x: int, y: int, c: int)
    requires
        1 <= f,
        rgba.len() >= 4 * (w * h),
        0 <= x < w * f,
        0 <= y < h * f,
        0 <= c < 4,
    ensures
        repeated(rgba, w, h, f).len() == 4 * ((w * f) * (h * f)),
        repeated(rgba, w, h, f)[raster::channel_at(w * f, x, y, c)] == rgba[raster::channel_at(
            w,
            x / f,
            y / f,
            c,
        )],
        f == 1 ==> repeated(rgba, w, h, f)[raster::channel_at(w, x, y, c)] == rgba[raster::channel_at(
            w,
            x,
            y,
            c,
        )],
{
    let tw = w * f;
    let th = h * f;
    let p = y * tw + x;
    assert(0 <= p < tw * th) by (nonlinear_arith)
        requires
            p == y * tw + x,
            0 <= x < tw,
            0 <= y < th,
    ;
    assert(p % tw == x && p / tw == y) by (nonlinear_arith)
        requires
            p == y * tw + x,
            0 <= x < tw,
            0 <= y,
    ;
    let k = raster::channel_at(tw, x, y, c);
    assert(k == 4 * p + c);
    assert(k / 4 == p && k % 4 == c);
    assert(0 <= k < 4 * (tw * th));
    assert(repeated(rgba, w, h, f)[k] == repeated_byte(rgba, w, f, k));
}

// ---- artwork ------------------------------------------------------------------------

/// The segments of the first `n` subpaths.
pub open spec fn path_nodes(path: Seq<Subpath>, n: int) -> int {
    counting::sum_below(|i: int| path[i].segs as int, n)
}

/// The segments of the first `n` shapes.
pub open spec fn shape_nodes(shapes: Seq<Shape>, n: int) -> int {
    counting::sum_below(|i: int| path_nodes(shapes[i].path@, shapes[i].path@.len() as int), n)
}

/// Every subpath is closed.
pub open spec fn path_closed(path: Seq<Subpath>) -> bool {
    forall|i: int| 0 <= i < path.len() ==> (#[trigger] path[i]).closed
}

/// Every subpath of every shape is closed.
pub open spec fn all_closed(shapes: Seq<Shape>) -> bool {
    forall|i: int| 0 <= i < shapes.len() ==> path_closed((#[trigger] shapes[i]).path@)
}

/// A count that stops at the largest `u32`.
pub open spec fn capped(n: int) -> int {
    if n > u32::MAX {
        u32::MAX as int
    } else {
        n
    }
}

proof fn nodes_grow(f: spec_fn(int) -> int, n: int)
    requires
        0 <= n,
        forall|i: int| 0 <= i < n ==> 0 <= #[trigger] f(i),
    ensures
        0 <= counting::sum_below(f, n),
    decreases n,
{
    if n > 0 {
        nodes_grow(f, n - 1);
        assert(0 <= f(n - 1));
    }
}

/// The segments of an outline, and whether every subpath is closed.
pub fn outline_stats(artwork: &Artwork) -> (r: (u32, bool))
    ensures
        r.0 == capped(shape_nodes(artwork.shapes@, artwork.shapes@.len() as int)),
        r.1 == all_closed(artwork.shapes@),
{
    let mut nodes: u32 = 0;
    let mut closed: bool = true;
    let ghost shapes = artwork.shapes@;
    let ghost f = |i: int| path_nodes(shapes[i].path@, shapes[i].path@.len() as int);
    let mut i: usize = 0;
    while i < artwork.shapes.len()
        invariant
            i <= shapes.len(),
            shapes == artwork.shapes@,
            f == (|i: int| path_nodes(shapes[i].path@, shapes[i].path@.len() as int)),
            nodes == capped(counting::sum_below(f, i as int)),
            0 <= counting::sum_below(f, i as int),
            closed == (forall|k: int| 0 <= k < i ==> path_closed((#[trigger] shapes[k]).path@)),
        decreases shapes.len() - i,
    {
        let ghost path = shapes[i as int].path@;
        let ghost g = |j: int| path[j].segs as int;
        let ghost base = counting::sum_below(f, i as int);
        let ghost closed0 = closed;
        let mut all: bool = true;
        let mut j: usize = 0;
        while j < artwork.shapes[i as usize].path.len()
            invariant
                i < shapes.len(),
                shapes == artwork.shapes@,
                path == shapes[i as int].path@,
                j <= path.len(),
                g == (|j: int| path[j].segs as int),
                0 <= base,
                nodes == capped(base + counting::sum_below(g, j as int)),
                0 <= counting::sum_below(g, j as int),
                all == (forall|k: int| 0 <= k < j ==> (#[trigger] path[k]).closed),
            decreases path.len() - j,
        {
            let s: Subpath = artwork.shapes[i].path[j];
            let sum: u64 = nodes as u64 + s.segs as u64;
            nodes = if sum > u32::MAX as u64 {
                u32::MAX
            } else {
                sum as u32
            };
            if !s.closed {
                all = false;
            }
            j = j + 1;
        }
        proof {
            assert(f(i as int) == path_nodes(path, path.len() as int));
            assert(path_nodes(path, path.len() as int) == counting::sum_below(g, path.len() as int));
            assert(all == path_closed(path));
        }
        if !all {
            closed = false;
        }
        i = i + 1;
    }
    proof {
        assert(shape_nodes(shapes, shapes.len() as int) == counting::sum_below(f, shapes.len() as int));
    }
    (nodes, closed)
}

/// A colour as one number, red first.
pub open spec fn colour_code(c: Seq<u8>) -> u32 {
    (0x100_0000 * c[0] + 0x1_0000 * c[1] + 0x100 * c[2] + c[3]) as u32
}

/// The fill colours of all shapes.
pub open spec fn fills_of(shapes: Seq<Shape>) -> Seq<u32> {
    Seq::new(shapes.len(), |i: int| colour_code(shapes[i].fill@))
}

/// `p` lists the colours of `codes`, ascending and each once.
pub open spec fn is_palette(codes: Seq<u32>, p: Seq<u32>) -> bool {
    &&& forall|i: int, j: int| 0 <= i < j < p.len() ==> #[trigger] p[i] < #[trigger] p[j]
    &&& forall|c: u32| #[trigger] p.contains(c) <==> codes.contains(c)
}

/// Codes have one palette.
pub proof fn palette_is_unique(codes: Seq<u32>, p: Seq<u32>, q: Seq<u32>)
    requires
        is_palette(codes, p),
        is_palette(codes, q),
    ensures
        p == q,
{
    let m = if p.len() < q.len() {
        p.len() as int
    } else {
        q.len() as int
    };
    palette_prefix(codes, p, q, m);
    if p.len() < q.len() {
        assert(q.contains(q[m]));
        assert(p.contains(q[m]));
        let k = choose|k: int| 0 <= k < p.len() && p[k] == q[m];
        assert(q[k] == p[k] && q[k] < q[m]);
    } else if q.len() < p.len() {
        assert(p.contains(p[m]));
        assert(q.contains(p[m]));
        let k = choose|k: int| 0 <= k < q.len() && q[k] == p[m];
        assert(p[k] == q[k] && p[k] < p[m]);
    }
    assert(p =~= q);
}

proof fn palette_prefix(codes: Seq<u32>, p: Seq<u32>, q: Seq<u32>, n: int)
    requires
        is_palette(codes, p),
        is_palette(codes, q),
        0 <= n <= p.len(),
        n <= q.len(),
    ensures
        forall|k: int| 0 <= k < n ==> #[trigger] p[k] == q[k],
    decreases n,
{
    if n > 0 {
        palette_prefix(codes, p, q, n - 1);
        let t = n - 1;
        assert(p.contains(p[t]) && q.contains(q[t]));
        assert(q.contains(p[t]) && p.contains(q[t]));
        let i = choose|i: int| 0 <= i < q.len() && q[i] == p[t];
        let j = choose|j: int| 0 <= j < p.len() && p[j] == q[t];
        if i < t {
            assert(p[i] == q[i] && p[i] < p[t]);
        } else if j < t {
            assert(p[j] == q[j] && q[j] < q[t]);
        } else if i > t && j > t {
            assert(q[t] < q[i] && p[t] < p[j]);
        }
    }
}

/// The distinct fill colours of an artwork, ascending.
fn palette(artwork: &Artwork) -> (r: Vec<u32>)
    ensures
        is_palette(fills_of(artwork.shapes@), r@),
        r@.len() <= artwork.shapes@.len(),
{
    let ghost codes = fills_of(artwork.shapes@);
    let n: usize = artwork.shapes.len();
    let mut keys: Vec<SortKey> = Vec::new();
    let mut i: usize = 0;
    while i < n
        invariant
            i <= n,
            n == artwork.shapes@.len(),
            codes == fills_of(artwork.shapes@),
            keys@.len() == i,
            forall|k: int| 0 <= k < i ==> #[trigger] keys@[k] == (codes[k] as u64, 0u64, 0u64, 0u64),
        decreases n - i,
    {
        let s = &artwork.shapes[i];
        let code: u32 = 0x100_0000 * s.fill[0] as u32 + 0x1_0000 * s.fill[1] as u32 + 0x100
            * s.fill[2] as u32 + s.fill[3] as u32;
        keys.push((code as u64, 0, 0, 0));
        i = i + 1;
    }
    let order = sorting::sort_order(&keys);
    let ghost ks = keys@;
    let ghost o = order@;
    let mut out: Vec<u32> = Vec::new();
    let mut t: usize = 0;
    while t < n
        invariant
            t <= n,
            n == codes.len(),
            ks == keys@,
            o == order@,
            ks.len() == n,
            sorting::is_order(ks, o, 0, n as int),
            forall|k: int| 0 <= k < n ==> #[trigger] ks[k] == (codes[k] as u64, 0u64, 0u64, 0u64),
            out@.len() <= t,
            forall|i: int, j: int| 0 <= i < j < out@.len() ==> #[trigger] out@[i] < #[trigger] out@[j],
            forall|k: int| 0 <= k < out@.len() ==> codes.contains(#[trigger] out@[k]),
            forall|k: int| 0 <= k < t ==> out@.contains(codes[(#[trigger] o[k]) as int]),
            t == 0 ==> out@.len() == 0,
            t > 0 ==> out@.len() > 0 && out@[out@.len() - 1] == codes[o[t - 1] as int],
        decreases n - t,
    {
        let code: u32 = keys[order[t]].0 as u32;
        let fresh: bool = out.len() == 0 || out[out.len() - 1] != code;
        let ghost out0 = out@;
        if fresh {
            out.push(code);
        }
        proof {
            let at = o[t as int] as int;
            assert(ks[at] == (codes[at] as u64, 0u64, 0u64, 0u64));
            assert(code == codes[at]);
            assert(codes.contains(codes[at]));
            if t > 0 {
                assert(sorting::pos_lt(ks, o[t - 1] as int, o[t as int] as int));
                assert(ks[o[t - 1] as int] == (codes[o[t - 1] as int] as u64, 0u64, 0u64, 0u64));
            }
            if fresh {
                assert(out@[out0.len() as int] == code);
                assert forall|c: u32| #[trigger] out0.contains(c) implies out@.contains(c) by {
                    let m = choose|m: int| 0 <= m < out0.len() && out0[m] == c;
                    assert(out@[m] == c);
                }
                assert forall|i: int, j: int| 0 <= i < j < out@.len() implies #[trigger] out@[i]
                    < #[trigger] out@[j] by {
                    if j == out0.len() {
                        let l = out0.len() - 1;
                        assert(out0[l] < code);
                        if i < l {
                            assert(out0[i] < out0[l]);
                        }
                    }
                }
            } else {
                assert(out@[out@.len() - 1] == code);
            }
        }
        t = t + 1;
    }
    proof {
        assert forall|c: u32| #[trigger] out@.contains(c) <==> codes.contains(c) by {
            if out@.contains(c) {
                let k = choose|k: int| 0 <= k < out@.len() && out@[k] == c;
                assert(codes.contains(out@[k]));
            }
            if codes.contains(c) {
                let k = choose|k: int| 0 <= k < codes.len() && codes[k] == c;
                assert(o.contains(k as usize));
                let m = choose|m: int| 0 <= m < o.len() && o[m] == k as usize;
                assert(out@.contains(codes[o[m] as int]));
            }
        }
    }
    out
}

/// Byte `k` of a colour's code, red first.
pub open spec fn code_byte(code: u32, k: int) -> u8 {
    if k == 0 {
        (code / 0x100_0000) as u8
    } else if k == 1 {
        ((code / 0x1_0000) % 0x100) as u8
    } else if k == 2 {
        ((code / 0x100) % 0x100) as u8
    } else {
        (code % 0x100) as u8
    }
}

/// The bytes of a palette.
pub open spec fn palette_bytes(p: Seq<u32>) -> Seq<u8> {
    Seq::new(4 * p.len(), |i: int| code_byte(p[i / 4], i % 4))
}

/// The first eight bytes of a digest as one number, most significant first.
pub open spec fn leading_number(d: Seq<u8>) -> u64 {
    (0x100_0000_0000_0000 * d[0] + 0x1_0000_0000_0000 * d[1] + 0x100_0000_0000 * d[2] + 0x1_0000_0000
        * d[3] + 0x100_0000 * d[4] + 0x1_0000 * d[5] + 0x100 * d[6] + d[7]) as u64
}

/// The hash of a palette.
pub open spec fn palette_hash_of(p: Seq<u32>) -> u64 {
    leading_number(digest::digest_of(palette_bytes(p)))
}

/// Hashes a palette.
fn hash_palette(p: &Vec<u32>) -> (r: u64)
    ensures
        r == palette_hash_of(p@),
{
    let mut bytes: Vec<u8> = Vec::new();
    let mut i: usize = 0;
    while i < p.len()
        invariant
            i <= p@.len(),
            bytes@.len() == 4 * i,
            forall|k: int| 0 <= k < 4 * i ==> #[trigger] bytes@[k] == palette_bytes(p@)[k],
        decreases p@.len() - i,
    {
        let c: u32 = p[i];
        bytes.push((c / 0x100_0000) as u8);
        bytes.push(((c / 0x1_0000) % 0x100) as u8);
        bytes.push(((c / 0x100) % 0x100) as u8);
        bytes.push((c % 0x100) as u8);
        i = i + 1;
    }
    assert(bytes@ =~= palette_bytes(p@));
    let d: [u8; 32] = digest::digest(bytes.as_slice());
    0x100_0000_0000_0000 * d[0] as u64 + 0x1_0000_0000_0000 * d[1] as u64 + 0x100_0000_0000
        * d[2] as u64 + 0x1_0000_0000 * d[3] as u64 + 0x100_0000 * d[4] as u64 + 0x1_0000
        * d[5] as u64 + 0x100 * d[6] as u64 + d[7] as u64
}

// ---- one icon -----------------------------------------------------------------------

/// Pixels of a box that are ink.
pub open spec fn box_ink(m: ForegroundMask, b: Bbox) -> spec_fn(int) -> bool {
    |k: int| m.ink(b.x + k % (b.w as int), b.y + k / (b.w as int))
}

/// How much ink a box holds.
pub open spec fn ink_in(m: ForegroundMask, b: Bbox) -> int {
    counting::count_below(box_ink(m, b), b.w * b.h)
}

/// Counts the ink in a box.
pub fn count_ink(m: &ForegroundMask, b: Bbox) -> (r: u64)
    requires
        m.wf(),
        b.fits(u32::MAX as int, u32::MAX as int),
    ensures
        r == ink_in(*m, b),
        r <= b.w * b.h,
{
    let ghost f = box_ink(*m, b);
    let mut n: u64 = 0;
    let mut k: u64 = 0;
    proof {
        assert(b.w * b.h <= 0xffff_ffff * 0xffff_ffff) by (nonlinear_arith)
            requires
                b.w <= 0xffff_ffff,
                b.h <= 0xffff_ffff,
        ;
    }
    let area: u64 = b.w as u64 * b.h as u64;
    while k < area
        invariant
            k <= area,
            area == b.w * b.h,
            m.wf(),
            b.fits(u32::MAX as int, u32::MAX as int),
            f == box_ink(*m, b),
            n == counting::count_below(f, k as int),
            n <= k,
        decreases area - k,
    {
        proof {
            assert(0 <= k as int / b.w as int && k as int / b.w as int + 1 <= b.h) by (nonlinear_arith)
                requires
                    0 <= k < b.w * b.h,
                    b.w > 0,
            ;
        }
        let x: u32 = b.x + (k % b.w as u64) as u32;
        let y: u32 = b.y + (k / b.w as u64) as u32;
        if m.get(x, y) {
            n = n + 1;
        }
        k = k + 1;
    }
    n
}

/// The d-hash of a cell; zero for a plane of another size.
pub open spec fn is_cell_d_hash(plane: Seq<u8>, v: u64) -> bool {
    if hashes::can_scale(plane, 64, 64, 9, 8) {
        hashes::is_d_hash(hashes::scaled(plane, 64, 64, 9, 8), v)
    } else {
        v == 0
    }
}

/// The a-hash of a cell; zero for a plane of another size.
pub open spec fn is_cell_a_hash(plane: Seq<u8>, v: u64) -> bool {
    if hashes::can_scale(plane, 64, 64, 8, 8) {
        hashes::is_a_hash(hashes::scaled(plane, 64, 64, 8, 8), v)
    } else {
        v == 0
    }
}

/// The numbers the outlier detector reads of an icon.
pub open spec fn is_stat(item: ReviewInput, ev: IconEvidence, ink: int, nodes: u32, p: Seq<u32>, s: IconStat) -> bool {
    &&& s.id == item.id
    &&& quality::is_root(1_000_000 * ink, s.ink_size as int)
    &&& s.stroke == ev.stroke
    &&& s.node_count == nodes
    &&& s.colours == p.len()
    &&& s.solidity == ev.solidity
    &&& s.fill_ratio == (1000 * ink) / (item.bbox.w * item.bbox.h)
    &&& s.palette == palette_hash_of(p)
}

/// `v` is the review of an icon with this artwork, score and cell.
pub open spec fn is_review(
    m: ForegroundMask,
    item: ReviewInput,
    ev: IconEvidence,
    art: Artwork,
    plane: Seq<u8>,
    score: Score,
    v: IconReview,
) -> bool {
    let ink = ink_in(m, item.bbox);
    &&& v.id == item.id
    &&& v.score == score
    &&& v.node_count == capped(shape_nodes(art.shapes@, art.shapes@.len() as int))
    &&& v.closed == all_closed(art.shapes@)
    &&& v.ink_area == ink
    &&& v.flags@ == quality::flags_of(
        QualityInput {
            id: item.id,
            composite: score.composite,
            node_count: v.node_count,
            ink_area: v.ink_area,
            closed: v.closed,
        },
    )
    &&& exists|p: Seq<u32>| #[trigger]
        is_palette(fills_of(art.shapes@), p) && is_stat(item, ev, ink, v.node_count, p, v.stat)
    &&& v.colours == v.stat.colours
    &&& is_cell_d_hash(plane, v.d_hash)
    &&& is_cell_a_hash(plane, v.a_hash)
    &&& v.digest@ == digest::digest_of(plane)
}

/// The icon's score: its document against its own pixels, at twice the size.
pub open spec fn is_icon_score(
    sheet: SheetRaster,
    item: ReviewInput,
    bg: Seq<u8>,
    r: Result<Score, score::ScoreError>,
) -> bool {
    exists|crop: Seq<u8>| #[trigger]
        sheet.is_crop(item.bbox, crop) && score::is_scoring(
            item.document@,
            repeated(crop, item.bbox.w as int, item.bbox.h as int, 2),
            bg,
            (item.bbox.w * 2) as u32,
            (item.bbox.h * 2) as u32,
            r,
        )
}

/// The icon is refused with this error, or reviewed, given its score. A box off
/// the sheet is refused first, then bad artwork, a box without ink, a document
/// that cannot be scored and a cell that cannot be rendered.
pub open spec fn is_outcome_with(
    sheet: SheetRaster,
    m: ForegroundMask,
    item: ReviewInput,
    ev: IconEvidence,
    score: Result<Score, score::ScoreError>,
    r: Result<IconReview, ReviewError>,
) -> bool {
    if !item.bbox.fits(sheet.width as int, sheet.height as int) {
        r == Err::<IconReview, ReviewError>(ReviewError::BadBbox { id: item.id, bbox: item.bbox })
    } else {
        match ev.artwork {
            Err(reason) => refuses_artwork(r, item.id, reason@),
            Ok(art) => if ink_in(m, item.bbox) == 0 {
                r == Err::<IconReview, ReviewError>(ReviewError::NoInk { id: item.id })
            } else {
                match score {
                    Err(e) => refuses_render(r, item.id, score::message_of(e)),
                    Ok(s) => match ev.plane {
                        Err(reason) => refuses_render(r, item.id, reason@),
                        Ok(plane) => r is Ok && is_review(m, item, ev, art, plane@, s, r->Ok_0),
                    },
                }
            },
        }
    }
}

/// The refusal of an icon's artwork.
pub open spec fn refuses_artwork(r: Result<IconReview, ReviewError>, of: u32, why: Seq<char>) -> bool {
    match r {
        Err(ReviewError::BadArtwork { id, reason }) => id == of && reason@ == why,
        _ => false,
    }
}

/// The refusal of an icon's render.
pub open spec fn refuses_render(r: Result<IconReview, ReviewError>, of: u32, why: Seq<char>) -> bool {
    match r {
        Err(ReviewError::Render { id, reason }) => id == of && reason@ == why,
        _ => false,
    }
}

/// The icon is refused with this error, or reviewed.
pub open spec fn is_outcome(
    sheet: SheetRaster,
    m: ForegroundMask,
    item: ReviewInput,
    ev: IconEvidence,
    bg: Seq<u8>,
    r: Result<IconReview, ReviewError>,
) -> bool {
    exists|score: Result<Score, score::ScoreError>| #[trigger]
        is_outcome_with(sheet, m, item, ev, score, r) && (reaches_score(sheet, m, item, ev)
            ==> is_icon_score(sheet, item, bg, score))
}

/// Nothing refuses the icon before it is scored.
pub open spec fn reaches_score(sheet: SheetRaster, m: ForegroundMask, item: ReviewInput, ev: IconEvidence) -> bool {
    item.bbox.fits(sheet.width as int, sheet.height as int) && ev.artwork is Ok && ink_in(
        m,
        item.bbox,
    ) > 0
}

/// The sheet and its mask can be reviewed together.
pub open spec fn sheet_ok(sheet: SheetRaster, m: ForegroundMask) -> bool {
    &&& sheet.wf()
    &&& m.wf()
    &&& sheet.width == m.width
    &&& sheet.height == m.height
    &&& sheet.width <= MAX_REVIEW_SIDE
    &&& sheet.height <= MAX_REVIEW_SIDE
}

/// Copies a text.
pub fn copy_text(s: &String) -> (r: String)
    ensures
        r@ == s@,
{
    let mut out = String::from_str("");
    out.append(s.as_str());
    proof {
        reveal_strlit("");
        assert(out@ =~= s@);
    }
    out
}

/// Whether a box lies on a sheet and is not empty.
pub fn box_fits(b: Bbox, w: u32, h: u32) -> (r: bool)
    ensures
        r == b.fits(w as int, h as int),
{
    b.w > 0 && b.h > 0 && b.x as u64 + b.w as u64 <= w as u64 && b.y as u64 + b.h as u64 <= h as u64
}

/// Reviews one icon.
pub fn review_icon(
    sheet: &SheetRaster,
    m: &ForegroundMask,
    item: &ReviewInput,
    ev: &IconEvidence,
    background: &[u8; 4],
) -> (r: Result<IconReview, ReviewError>)
    requires
        sheet_ok(*sheet, *m),
        ev.artwork is Ok ==> ev.artwork->Ok_0.shapes@.len() <= u32::MAX,
    ensures
        is_outcome(*sheet, *m, *item, *ev, background@, r),
{
    let b: Bbox = item.bbox;
    let ghost any: Result<Score, score::ScoreError> = Err(score::ScoreError::SizeMismatch);
    if !box_fits(b, sheet.width, sheet.height) {
        let r = Err(ReviewError::BadBbox { id: item.id, bbox: b });
        assert(is_outcome_with(*sheet, *m, *item, *ev, any, r));
        return r;
    }
    let art: &Artwork = match &ev.artwork {
        Ok(a) => a,
        Err(reason) => {
            let r = Err(ReviewError::BadArtwork { id: item.id, reason: copy_text(reason) });
            assert(is_outcome_with(*sheet, *m, *item, *ev, any, r));
            return r;
        },
    };
    let ink: u64 = count_ink(m, b);
    if ink == 0 {
        let r = Err(ReviewError::NoInk { id: item.id });
        assert(is_outcome_with(*sheet, *m, *item, *ev, any, r));
        return r;
    }
    let crop = sheet.crop_rgba(b);
    proof {
        area_fits(b, sheet.width as int, sheet.height as int);
    }
    let big = upscale_nearest(crop.as_slice(), b.w, b.h, QUALITY_CELL_SCALE);
    let scored = score::score_svg(
        item.document.as_str(),
        big.as_slice(),
        background,
        b.w * QUALITY_CELL_SCALE,
        b.h * QUALITY_CELL_SCALE,
    );
    assert(is_icon_score(*sheet, *item, background@, scored)) by {
        assert(sheet.is_crop(item.bbox, crop@));
    }
    let s: Score = match &scored {
        Ok(s) => *s,
        Err(e) => {
            let r = Err(ReviewError::Render { id: item.id, reason: e.message() });
            assert(is_outcome_with(*sheet, *m, *item, *ev, scored, r));
            return r;
        },
    };
    let plane: &Vec<u8> = match &ev.plane {
        Ok(p) => p,
        Err(reason) => {
            let r = Err(ReviewError::Render { id: item.id, reason: copy_text(reason) });
            assert(is_outcome_with(*sheet, *m, *item, *ev, scored, r));
            return r;
        },
    };
    let (node_count, closed): (u32, bool) = outline_stats(art);
    let colours_list = palette(art);
    let colours: u32 = colours_list.len() as u32;
    let area: u64 = b.w as u64 * b.h as u64;
    let size: u64 = quality::root(1_000_000 * ink as u128);
    proof {
        size_fits(ink as int, size as int);
        share_fits(ink as int, area as int);
    }
    let stat = IconStat {
        id: item.id,
        ink_size: size as u32,
        stroke: ev.stroke,
        node_count,
        colours,
        solidity: ev.solidity,
        fill_ratio: ((1000 * ink) / area) as u32,
        palette: hash_palette(&colours_list),
    };
    let flags = quality::flags(
        &QualityInput { id: item.id, composite: s.composite, node_count, ink_area: ink, closed },
    );
    let d_hash: u64 = match hashes::d_hash(plane.as_slice(), CELL, CELL) {
        Some(v) => v,
        None => 0,
    };
    let a_hash: u64 = match hashes::a_hash(plane.as_slice(), CELL, CELL) {
        Some(v) => v,
        None => 0,
    };
    let v = IconReview {
        id: item.id,
        score: s,
        flags,
        node_count,
        closed,
        colours,
        ink_area: ink,
        stat,
        d_hash,
        a_hash,
        digest: plane_digest(plane.as_slice()),
    };
    proof {
        assert(is_palette(fills_of(art.shapes@), colours_list@) && is_stat(
            *item,
            *ev,
            ink as int,
            node_count,
            colours_list@,
            stat,
        ));
        assert(is_review(*m, *item, *ev, *art, plane@, s, v));
    }
    let r = Ok(v);
    assert(is_outcome_with(*sheet, *m, *item, *ev, scored, r));
    r
}

proof fn area_fits(b: Bbox, w: int, h: int)
    requires
        b.fits(w, h),
        w <= 16384,
        h <= 16384,
    ensures
        b.w * 2 <= u32::MAX,
        b.h * 2 <= u32::MAX,
        (b.w * 2) * (b.h * 2) <= u32::MAX,
        0 < b.w * b.h <= 0x1000_0000,
{
    let x = b.w as int;
    let y = b.h as int;
    assert(0 < x * y <= 0x1000_0000) by (nonlinear_arith)
        requires
            0 < x <= 16384,
            0 < y <= 16384,
    ;
    assert((x * 2) * (y * 2) == 4 * (x * y)) by (nonlinear_arith);
}

proof fn size_fits(ink: int, size: int)
    requires
        0 <= ink <= 0x1000_0000,
        quality::is_root(1_000_000 * ink, size),
    ensures
        size <= u32::MAX,
{
    if size > u32::MAX {
        assert(size * size >= 0xffff_ffff * 0xffff_ffff) by (nonlinear_arith)
            requires
                size >= 0xffff_ffff,
        ;
    }
}

proof fn share_fits(ink: int, area: int)
    requires
        0 <= ink <= area,
        0 < area,
    ensures
        0 <= (1000 * ink) / area <= 1000,
{
    assert(0 <= (1000 * ink) / area <= 1000) by (nonlinear_arith)
        requires
            0 <= ink <= area,
            0 < area,
    ;
}

// ---- one sheet ----------------------------------------------------------------------

/// What the cascade reads of the reviewed icons.
pub open spec fn hash_items(icons: Seq<IconReview>) -> Seq<HashItem> {
    Seq::new(
        icons.len(),
        |i: int|
            HashItem {
                id: icons[i].id,
                d: icons[i].d_hash,
                a: icons[i].a_hash,
                digest: icons[i].digest,
            },
    )
}

/// The composite scores of the reviewed icons.
pub open spec fn composites(icons: Seq<IconReview>) -> Seq<i64> {
    Seq::new(icons.len(), |i: int| icons[i].score.composite)
}

/// The numbers of the reviewed icons.
pub open spec fn stats_of(icons: Seq<IconReview>) -> Seq<IconStat> {
    Seq::new(icons.len(), |i: int| icons[i].stat)
}

/// The cell of an icon; empty where there is none.
pub open spec fn plane_in(ev: IconEvidence) -> Seq<u8> {
    match ev.plane {
        Ok(p) => p@,
        Err(_) => Seq::empty(),
    }
}

/// The cells of all icons.
pub open spec fn planes_in(evidence: Seq<IconEvidence>) -> Seq<Seq<u8>> {
    Seq::new(evidence.len(), |i: int| plane_in(evidence[i]))
}

/// The icon has a quality flag.
pub open spec fn has_flag(icons: Seq<IconReview>) -> spec_fn(int) -> bool {
    |i: int| icons[i].flags@.len() > 0
}

/// `report` is the review of a sheet all of whose icons are accepted.
pub open spec fn is_report(
    sheet: SheetRaster,
    m: ForegroundMask,
    items: Seq<ReviewInput>,
    evidence: Seq<IconEvidence>,
    o: ReviewOptions,
    report: ReviewReport,
) -> bool {
    let icons = report.icons@;
    &&& icons.len() == items.len()
    &&& forall|i: int|
        0 <= i < items.len() ==> is_outcome(
            sheet,
            m,
            items[i],
            evidence[i],
            o.background@,
            Ok(#[trigger] icons[i]),
        )
    &&& report.flagged == counting::count_below(has_flag(icons), icons.len() as int)
    &&& cascade::is_cascade(
        hash_items(icons),
        planes_in(evidence),
        composites(icons),
        o.dupes,
        report.clusters@,
        report.cascade,
    )
    &&& outliers::is_scan(stats_of(icons), o.outlier_z as int, report.outliers@)
}

/// Icon `k` is the first to be refused, with this error.
pub open spec fn is_first_refusal(
    sheet: SheetRaster,
    m: ForegroundMask,
    items: Seq<ReviewInput>,
    evidence: Seq<IconEvidence>,
    bg: Seq<u8>,
    k: int,
    e: ReviewError,
) -> bool {
    &&& 0 <= k < items.len()
    &&& is_outcome(sheet, m, items[k], evidence[k], bg, Err(e))
    &&& forall|i: int| 0 <= i < k ==> is_accepted(sheet, m, #[trigger] items[i], evidence[i], bg)
}

/// Some review of the icon exists.
pub open spec fn is_accepted(sheet: SheetRaster, m: ForegroundMask, item: ReviewInput, ev: IconEvidence, bg: Seq<u8>) -> bool {
    exists|v: IconReview| #[trigger] is_outcome(sheet, m, item, ev, bg, Ok(v))
}

/// `r` is the review of a sheet.
pub open spec fn is_sheet_review(
    sheet: SheetRaster,
    m: ForegroundMask,
    items: Seq<ReviewInput>,
    evidence: Seq<IconEvidence>,
    o: ReviewOptions,
    r: Result<ReviewReport, ReviewError>,
) -> bool {
    if sheet.width != m.width || sheet.height != m.height {
        r == Err::<ReviewReport, ReviewError>(
            ReviewError::SizeMismatch {
                raster: (sheet.width, sheet.height),
                mask: (m.width, m.height),
            },
        )
    } else if sheet.width > MAX_REVIEW_SIDE || sheet.height > MAX_REVIEW_SIDE {
        r == Err::<ReviewReport, ReviewError>(
            ReviewError::SheetTooLarge { side: (sheet.width, sheet.height) },
        )
    } else {
        match r {
            Ok(report) => is_report(sheet, m, items, evidence, o, report),
            Err(e) => exists|k: int| #[trigger]
                is_first_refusal(sheet, m, items, evidence, o.background@, k, e),
        }
    }
}

/// What the cascade reads of the reviewed icons.
fn hash_items_of(icons: &Vec<IconReview>) -> (r: Vec<HashItem>)
    ensures
        r@ == hash_items(icons@),
{
    let mut out: Vec<HashItem> = Vec::new();
    let mut i: usize = 0;
    while i < icons.len()
        invariant
            i <= icons@.len(),
            out@.len() == i,
            forall|k: int| 0 <= k < i ==> #[trigger] out@[k] == hash_items(icons@)[k],
        decreases icons@.len() - i,
    {
        let v = &icons[i];
        out.push(HashItem { id: v.id, d: v.d_hash, a: v.a_hash, digest: v.digest });
        i = i + 1;
    }
    assert(out@ =~= hash_items(icons@));
    out
}

fn composites_of(icons: &Vec<IconReview>) -> (r: Vec<i64>)
    ensures
        r@ == composites(icons@),
{
    let mut out: Vec<i64> = Vec::new();
    let mut i: usize = 0;
    while i < icons.len()
        invariant
            i <= icons@.len(),
            out@.len() == i,
            forall|k: int| 0 <= k < i ==> #[trigger] out@[k] == icons@[k].score.composite,
        decreases icons@.len() - i,
    {
        out.push(icons[i].score.composite);
        i = i + 1;
    }
    assert(out@ =~= composites(icons@));
    out
}

fn stats_list(icons: &Vec<IconReview>) -> (r: Vec<IconStat>)
    ensures
        r@ == stats_of(icons@),
{
    let mut out: Vec<IconStat> = Vec::new();
    let mut i: usize = 0;
    while i < icons.len()
        invariant
            i <= icons@.len(),
            out@.len() == i,
            forall|k: int| 0 <= k < i ==> #[trigger] out@[k] == icons@[k].stat,
        decreases icons@.len() - i,
    {
        out.push(icons[i].stat);
        i = i + 1;
    }
    assert(out@ =~= stats_of(icons@));
    out
}

fn planes_list(evidence: &Vec<IconEvidence>, picks: &Vec<usize>) -> (r: Vec<Vec<u8>>)
    requires
        picks_fit(picks@, evidence@.len() as int),
    ensures
        r@.len() == picks@.len(),
        cascade::planes_of(r@) == planes_in(picked(evidence@, picks@)),
{
    let mut out: Vec<Vec<u8>> = Vec::new();
    let mut i: usize = 0;
    while i < picks.len()
        invariant
            i <= picks@.len(),
            picks_fit(picks@, evidence@.len() as int),
            out@.len() == i,
            forall|k: int| 0 <= k < i ==> (#[trigger] out@[k])@ == plane_in(evidence@[picks@[k] as int]),
        decreases picks@.len() - i,
    {
        assert(picks@[i as int] < evidence@.len());
        let p = match &evidence[picks[i]].plane {
            Ok(p) => raster::copy_bytes(p),
            Err(_) => Vec::new(),
        };
        out.push(p);
        i = i + 1;
    }
    assert(cascade::planes_of(out@) =~= planes_in(picked(evidence@, picks@)));
    out
}

/// The entries at some positions.
pub open spec fn picked<A>(s: Seq<A>, picks: Seq<usize>) -> Seq<A> {
    Seq::new(picks.len(), |t: int| s[picks[t] as int])
}

/// All positions lie below `n`.
pub open spec fn picks_fit(picks: Seq<usize>, n: int) -> bool {
    forall|t: int| 0 <= t < picks.len() ==> (#[trigger] picks[t]) < n
}

/// No artwork has more shapes than can be counted.
pub open spec fn shapes_fit(evidence: Seq<IconEvidence>) -> bool {
    forall|i: int|
        0 <= i < evidence.len() && (#[trigger] evidence[i]).artwork is Ok
            ==> evidence[i].artwork->Ok_0.shapes@.len() <= u32::MAX
}

/// Reviews the icons of a sheet at the positions `picks`.
pub fn review_picked(
    sheet: &SheetRaster,
    m: &ForegroundMask,
    items: &Vec<ReviewInput>,
    evidence: &Vec<IconEvidence>,
    picks: &Vec<usize>,
    options: &ReviewOptions,
) -> (r: Result<ReviewReport, ReviewError>)
    requires
        sheet.wf(),
        m.wf(),
        evidence@.len() == items@.len(),
        picks@.len() <= u32::MAX,
        picks_fit(picks@, items@.len() as int),
        shapes_fit(evidence@),
    ensures
        is_sheet_review(
            *sheet,
            *m,
            picked(items@, picks@),
            picked(evidence@, picks@),
            *options,
            r,
        ),
{
    if sheet.width != m.width || sheet.height != m.height {
        return Err(
            ReviewError::SizeMismatch {
                raster: (sheet.width, sheet.height),
                mask: (m.width, m.height),
            },
        );
    }
    if sheet.width > MAX_REVIEW_SIDE || sheet.height > MAX_REVIEW_SIDE {
        return Err(ReviewError::SheetTooLarge { side: (sheet.width, sheet.height) });
    }
    let ghost bg = options.background@;
    let ghost its = picked(items@, picks@);
    let ghost evs = picked(evidence@, picks@);
    let mut icons: Vec<IconReview> = Vec::new();
    let mut flagged: usize = 0;
    let mut i: usize = 0;
    while i < picks.len()
        invariant
            i <= picks@.len(),
            sheet_ok(*sheet, *m),
            evidence@.len() == items@.len(),
            picks_fit(picks@, items@.len() as int),
            shapes_fit(evidence@),
            bg == options.background@,
            its == picked(items@, picks@),
            evs == picked(evidence@, picks@),
            icons@.len() == i,
            forall|k: int|
                0 <= k < i ==> is_outcome(*sheet, *m, its[k], evs[k], bg, Ok(#[trigger] icons@[k])),
            flagged == counting::count_below(has_flag(icons@), i as int),
            flagged <= i,
        decreases picks@.len() - i,
    {
        let at: usize = picks[i];
        assert(picks@[i as int] < items@.len());
        assert(its[i as int] == items@[at as int] && evs[i as int] == evidence@[at as int]);
        assert(evidence@[at as int].artwork is Ok ==> evidence@[at as int].artwork->Ok_0.shapes@.len()
            <= u32::MAX);
        match review_icon(sheet, m, &items[at], &evidence[at], &options.background) {
            Err(e) => {
                proof {
                    assert forall|k: int| 0 <= k < i implies is_accepted(
                        *sheet,
                        *m,
                        #[trigger] its[k],
                        evs[k],
                        bg,
                    ) by {
                        assert(is_outcome(*sheet, *m, its[k], evs[k], bg, Ok(icons@[k])));
                    }
                    assert(is_first_refusal(*sheet, *m, its, evs, bg, i as int, e));
                }
                return Err(e);
            },
            Ok(v) => {
                let ghost icons0 = icons@;
                if v.flags.len() > 0 {
                    flagged = flagged + 1;
                }
                icons.push(v);
                proof {
                    counting::count_ext(has_flag(icons0), has_flag(icons@), i as int);
                    assert forall|k: int| 0 <= k < i + 1 implies is_outcome(
                        *sheet,
                        *m,
                        its[k],
                        evs[k],
                        bg,
                        Ok(#[trigger] icons@[k]),
                    ) by {
                        if k < i {
                            assert(icons@[k] == icons0[k]);
                        }
                    }
                }
            },
        }
        i = i + 1;
    }
    let hashed = hash_items_of(&icons);
    let planes = planes_list(evidence, picks);
    let scores = composites_of(&icons);
    let (clusters, counts): (Vec<DupCluster>, CascadeCounts) = cascade::duplicate_cascade(
        hashed.as_slice(),
        &planes,
        scores.as_slice(),
        &options.dupes,
    );
    let stats = stats_list(&icons);
    let found = outliers::scan(stats.as_slice(), options.outlier_z);
    Ok(ReviewReport { icons, clusters, outliers: found, flagged, cascade: counts })
}

/// Reviews one sheet. `evidence` runs parallel to `items`; of an icon whose box
/// is off the sheet nothing in it is read.
pub fn review_sheet(
    sheet: &SheetRaster,
    m: &ForegroundMask,
    items: &Vec<ReviewInput>,
    evidence: &Vec<IconEvidence>,
    options: &ReviewOptions,
) -> (r: Result<ReviewReport, ReviewError>)
    requires
        sheet.wf(),
        m.wf(),
        evidence@.len() == items@.len(),
        items@.len() <= u32::MAX,
        shapes_fit(evidence@),
    ensures
        is_sheet_review(*sheet, *m, items@, evidence@, *options, r),
{
    let mut picks: Vec<usize> = Vec::new();
    let mut i: usize = 0;
    while i < items.len()
        invariant
            i <= items@.len(),
            picks@.len() == i,
            forall|t: int| 0 <= t < i ==> #[trigger] picks@[t] == t,
        decreases items@.len() - i,
    {
        picks.push(i);
        i = i + 1;
    }
    assert(picked(items@, picks@) =~= items@);
    assert(picked(evidence@, picks@) =~= evidence@);
    review_picked(sheet, m, items, evidence, &picks, options)
}

impl ReviewReport {
    /// The quality flags of the first icon with this id.
    pub open spec fn flags_at(&self, id: u32) -> Seq<QualityFlag> {
        flags_from(self.icons@, id, 0)
    }

    /// The quality flags of one icon; none where the id is unknown.
    pub fn flags_of(&self, id: u32) -> (r: Vec<QualityFlag>)
        ensures
            r@ == self.flags_at(id),
    {
        let mut i: usize = 0;
        while i < self.icons.len()
            invariant
                i <= self.icons@.len(),
                flags_from(self.icons@, id, 0) == flags_from(self.icons@, id, i as int),
            decreases self.icons@.len() - i,
        {
            if self.icons[i].id == id {
                return copy_flags(&self.icons[i].flags);
            }
            i = i + 1;
        }
        Vec::new()
    }

    /// The icon is a member of some cluster.
    pub open spec fn is_member(&self, id: u32) -> bool {
        exists|i: int| 0 <= i < self.clusters@.len() && (#[trigger] self.clusters@[i]).members@.contains(id)
    }

    /// Whether the icon is a member of a duplicate cluster.
    pub fn is_duplicate(&self, id: u32) -> (r: bool)
        ensures
            r == self.is_member(id),
    {
        let mut i: usize = 0;
        while i < self.clusters.len()
            invariant
                i <= self.clusters@.len(),
                forall|k: int| 0 <= k < i ==> !(#[trigger] self.clusters@[k]).members@.contains(id),
            decreases self.clusters@.len() - i,
        {
            let members = &self.clusters[i].members;
            let mut j: usize = 0;
            while j < members.len()
                invariant
                    i < self.clusters@.len(),
                    members@ == self.clusters@[i as int].members@,
                    j <= members@.len(),
                    forall|k: int| 0 <= k < j ==> #[trigger] members@[k] != id,
                decreases members@.len() - j,
            {
                if members[j] == id {
                    assert(self.clusters@[i as int].members@.contains(id)) by {
                        assert(members@[j as int] == id);
                    }
                    return true;
                }
                j = j + 1;
            }
            i = i + 1;
        }
        false
    }
}

/// The flags of the first icon with this id, from position `i` on.
pub open spec fn flags_from(icons: Seq<IconReview>, id: u32, i: int) -> Seq<QualityFlag>
    decreases icons.len() - i,
{
    if i < 0 || i >= icons.len() {
        Seq::empty()
    } else if icons[i].id == id {
        icons[i].flags@
    } else {
        flags_from(icons, id, i + 1)
    }
}

/// Copies a list of flags.
pub fn copy_flags(v: &Vec<QualityFlag>) -> (r: Vec<QualityFlag>)
    ensures
        r@ == v@,
{
    let mut out: Vec<QualityFlag> = Vec::new();
    let mut i: usize = 0;
    while i < v.len()
        invariant
            i <= v@.len(),
            out@.len() == i,
            forall|k: int| 0 <= k < i ==> #[trigger] out@[k] == v@[k],
        decreases v@.len() - i,
    {
        out.push(v[i]);
        i = i + 1;
    }
    assert(out@ =~= v@);
    out
}

// ---- one outcome --------------------------------------------------------------------

/// Two reviews that hold the same.
pub open spec fn same_review(a: IconReview, b: IconReview) -> bool {
    &&& a.id == b.id
    &&& a.score == b.score
    &&& a.flags@ == b.flags@
    &&& a.node_count == b.node_count
    &&& a.closed == b.closed
    &&& a.colours == b.colours
    &&& a.ink_area == b.ink_area
    &&& a.stat == b.stat
    &&& a.d_hash == b.d_hash
    &&& a.a_hash == b.a_hash
    &&& a.digest == b.digest
}

/// Two inputs that hold the same.
pub open spec fn same_input(a: ReviewInput, b: ReviewInput) -> bool {
    a.id == b.id && a.bbox == b.bbox && a.document@ == b.document@
}

/// Two errors that say the same.
pub open spec fn same_error(a: ReviewError, b: ReviewError) -> bool {
    match (a, b) {
        (ReviewError::BadArtwork { id: i, reason: r }, ReviewError::BadArtwork { id: j, reason: s }) => i
            == j && r@ == s@,
        (ReviewError::Render { id: i, reason: r }, ReviewError::Render { id: j, reason: s }) => i == j
            && r@ == s@,
        _ => a == b,
    }
}

proof fn reviews_are_unique(
    m: ForegroundMask,
    item: ReviewInput,
    other: ReviewInput,
    ev: IconEvidence,
    art: Artwork,
    plane: Seq<u8>,
    score: Score,
    a: IconReview,
    b: IconReview,
)
    requires
        same_input(item, other),
        is_review(m, item, ev, art, plane, score, a),
        is_review(m, other, ev, art, plane, score, b),
    ensures
        same_review(a, b),
{
    let ink = ink_in(m, item.bbox);
    let fills = fills_of(art.shapes@);
    let p = choose|p: Seq<u32>| #[trigger]
        is_palette(fills, p) && is_stat(item, ev, ink, a.node_count, p, a.stat);
    let q = choose|p: Seq<u32>| #[trigger]
        is_palette(fills, p) && is_stat(other, ev, ink, b.node_count, p, b.stat);
    palette_is_unique(fills, p, q);
    quality::root_is_unique(1_000_000 * ink, a.stat.ink_size as int, b.stat.ink_size as int);
    if hashes::can_scale(plane, 64, 64, 9, 8) {
        hashes::d_hash_is_unique(hashes::scaled(plane, 64, 64, 9, 8), a.d_hash, b.d_hash);
    }
    if hashes::can_scale(plane, 64, 64, 8, 8) {
        hashes::a_hash_is_unique(hashes::scaled(plane, 64, 64, 8, 8), a.a_hash, b.a_hash);
    }
    assert(a.digest =~= b.digest);
}

/// An icon whose document stands alone has one review, or one refusal.
pub proof fn icon_review_is_determined(
    sheet: SheetRaster,
    m: ForegroundMask,
    item: ReviewInput,
    other: ReviewInput,
    ev: IconEvidence,
    bg: Seq<u8>,
    a: Result<IconReview, ReviewError>,
    b: Result<IconReview, ReviewError>,
)
    requires
        same_input(item, other),
        score::stands_alone(item.document@),
        is_outcome(sheet, m, item, ev, bg, a),
        is_outcome(sheet, m, other, ev, bg, b),
    ensures
        match (a, b) {
            (Ok(v), Ok(w)) => same_review(v, w),
            (Err(d), Err(e)) => same_error(d, e),
            _ => false,
        },
{
    let s = choose|score: Result<Score, score::ScoreError>| #[trigger]
        is_outcome_with(sheet, m, item, ev, score, a) && (reaches_score(sheet, m, item, ev)
            ==> is_icon_score(sheet, item, bg, score));
    let t = choose|score: Result<Score, score::ScoreError>| #[trigger]
        is_outcome_with(sheet, m, other, ev, score, b) && (reaches_score(sheet, m, other, ev)
            ==> is_icon_score(sheet, other, bg, score));
    counting::count_bounds(box_ink(m, item.bbox), item.bbox.w * item.bbox.h);
    if reaches_score(sheet, m, item, ev) {
        let w = (item.bbox.w * 2) as u32;
        let h = (item.bbox.h * 2) as u32;
        let c = choose|crop: Seq<u8>| #[trigger]
            sheet.is_crop(item.bbox, crop) && score::is_scoring(
                item.document@,
                repeated(crop, item.bbox.w as int, item.bbox.h as int, 2),
                bg,
                w,
                h,
                s,
            );
        let d = choose|crop: Seq<u8>| #[trigger]
            sheet.is_crop(other.bbox, crop) && score::is_scoring(
                other.document@,
                repeated(crop, other.bbox.w as int, other.bbox.h as int, 2),
                bg,
                w,
                h,
                t,
            );
        raster::crop_is_unique(sheet, item.bbox, c, d);
        score::scoring_is_determined(
            item.document@,
            repeated(c, item.bbox.w as int, item.bbox.h as int, 2),
            bg,
            w,
            h,
            s,
            t,
        );
        if s is Ok && ev.plane is Ok {
            reviews_are_unique(
                m,
                item,
                other,
                ev,
                ev.artwork->Ok_0,
                ev.plane->Ok_0@,
                s->Ok_0,
                a->Ok_0,
                b->Ok_0,
            );
        }
    }
}

/// An icon whose document stands alone is not both accepted and refused.
proof fn never_both(
    sheet: SheetRaster,
    m: ForegroundMask,
    item: ReviewInput,
    other: ReviewInput,
    ev: IconEvidence,
    bg: Seq<u8>,
    e: ReviewError,
)
    requires
        same_input(item, other),
        score::stands_alone(item.document@),
        is_outcome(sheet, m, item, ev, bg, Err(e)),
    ensures
        !is_accepted(sheet, m, other, ev, bg),
{
    if is_accepted(sheet, m, other, ev, bg) {
        let v = choose|v: IconReview| #[trigger] is_outcome(sheet, m, other, ev, bg, Ok(v));
        icon_review_is_determined(sheet, m, item, other, ev, bg, Err(e), Ok(v));
    }
}

/// Lists of inputs that hold the same, whose documents stand alone.
pub open spec fn same_inputs(items: Seq<ReviewInput>, others: Seq<ReviewInput>) -> bool {
    &&& items.len() == others.len()
    &&& forall|i: int|
        0 <= i < items.len() ==> same_input(#[trigger] items[i], others[i]) && score::stands_alone(
            items[i].document@,
        )
}

/// The first refusal of a sheet whose documents stand alone is one icon's, with
/// one error.
pub proof fn first_refusals_agree(
    sheet: SheetRaster,
    m: ForegroundMask,
    items: Seq<ReviewInput>,
    others: Seq<ReviewInput>,
    evidence: Seq<IconEvidence>,
    bg: Seq<u8>,
    i: int,
    d: ReviewError,
    j: int,
    e: ReviewError,
)
    requires
        same_inputs(items, others),
        is_first_refusal(sheet, m, items, evidence, bg, i, d),
        is_first_refusal(sheet, m, others, evidence, bg, j, e),
    ensures
        i == j,
        same_error(d, e),
{
    assert(same_input(items[i], others[i]) && same_input(items[j], others[j]));
    if i < j {
        never_both(sheet, m, items[i], others[i], evidence[i], bg, d);
    } else if j < i {
        never_both(sheet, m, others[j], items[j], evidence[j], bg, e);
    } else {
        icon_review_is_determined(sheet, m, items[i], others[i], evidence[i], bg, Err(d), Err(e));
    }
}

/// No icon of a sheet that has a report is refused.
pub proof fn reported_is_not_refused(
    sheet: SheetRaster,
    m: ForegroundMask,
    items: Seq<ReviewInput>,
    others: Seq<ReviewInput>,
    evidence: Seq<IconEvidence>,
    o: ReviewOptions,
    report: ReviewReport,
    j: int,
    e: ReviewError,
)
    requires
        same_inputs(items, others),
        is_report(sheet, m, items, evidence, o, report),
    ensures
        !is_first_refusal(sheet, m, others, evidence, o.background@, j, e),
{
    if is_first_refusal(sheet, m, others, evidence, o.background@, j, e) {
        assert(same_input(items[j], others[j]));
        let v = report.icons@[j];
        assert(is_outcome(sheet, m, items[j], evidence[j], o.background@, Ok(v)));
        never_both(sheet, m, others[j], items[j], evidence[j], o.background@, e);
    }
}

/// Two reports that hold the same.
pub open spec fn same_report(a: ReviewReport, b: ReviewReport) -> bool {
    &&& a.icons@.len() == b.icons@.len()
    &&& forall|i: int| 0 <= i < a.icons@.len() ==> same_review(#[trigger] a.icons@[i], b.icons@[i])
    &&& a.clusters@.len() == b.clusters@.len()
    &&& forall|i: int|
        0 <= i < a.clusters@.len() ==> cluster::same_cluster(#[trigger] a.clusters@[i], b.clusters@[i])
    &&& a.outliers@ == b.outliers@
    &&& a.flagged == b.flagged
    &&& a.cascade == b.cascade
}

/// Accepted icons whose documents stand alone have one report.
pub proof fn reports_are_unique(
    sheet: SheetRaster,
    m: ForegroundMask,
    items: Seq<ReviewInput>,
    others: Seq<ReviewInput>,
    evidence: Seq<IconEvidence>,
    o: ReviewOptions,
    a: ReviewReport,
    b: ReviewReport,
)
    requires
        same_inputs(items, others),
        is_report(sheet, m, items, evidence, o, a),
        is_report(sheet, m, others, evidence, o, b),
    ensures
        same_report(a, b),
{
    let x = a.icons@;
    let y = b.icons@;
    let n = items.len() as int;
    assert forall|i: int| 0 <= i < n implies same_review(#[trigger] x[i], y[i]) by {
        assert(same_input(items[i], others[i]));
        icon_review_is_determined(
            sheet,
            m,
            items[i],
            others[i],
            evidence[i],
            o.background@,
            Ok(x[i]),
            Ok(y[i]),
        );
    }
    assert forall|i: int| 0 <= i < n implies #[trigger] has_flag(x)(i) == has_flag(y)(i) by {
        assert(same_review(x[i], y[i]));
    }
    counting::count_ext(has_flag(x), has_flag(y), n);
    assert(hash_items(x) =~= hash_items(y));
    assert(composites(x) =~= composites(y));
    assert(stats_of(x) =~= stats_of(y));
    cascade::cascade_is_determined(
        hash_items(x),
        planes_in(evidence),
        composites(x),
        o.dupes,
        a.clusters@,
        a.cascade,
        b.clusters@,
        b.cascade,
    );
    assert(x.len() == a.icons.len() && a.outliers@.len() == a.outliers.len());
    outliers::scan_is_determined(stats_of(x), o.outlier_z as int, a.outliers@, b.outliers@);
}

/// A sheet whose documents stand alone has one review, or one error.
pub proof fn review_is_determined(
    sheet: SheetRaster,
    m: ForegroundMask,
    items: Seq<ReviewInput>,
    evidence: Seq<IconEvidence>,
    o: ReviewOptions,
    a: Result<ReviewReport, ReviewError>,
    b: Result<ReviewReport, ReviewError>,
)
    requires
        forall|i: int| 0 <= i < items.len() ==> score::stands_alone((#[trigger] items[i]).document@),
        is_sheet_review(sheet, m, items, evidence, o, a),
        is_sheet_review(sheet, m, items, evidence, o, b),
    ensures
        match (a, b) {
            (Ok(v), Ok(w)) => same_report(v, w),
            (Err(d), Err(e)) => same_error(d, e),
            _ => false,
        },
{
    let bg = o.background@;
    assert(same_inputs(items, items));
    if sheet.width == m.width && sheet.height == m.height && sheet.width <= MAX_REVIEW_SIDE
        && sheet.height <= MAX_REVIEW_SIDE {
        if a is Ok && b is Ok {
            reports_are_unique(sheet, m, items, items, evidence, o, a->Ok_0, b->Ok_0);
        } else if a is Err && b is Err {
            let i = choose|k: int| #[trigger]
                is_first_refusal(sheet, m, items, evidence, bg, k, a->Err_0);
            let j = choose|k: int| #[trigger]
                is_first_refusal(sheet, m, items, evidence, bg, k, b->Err_0);
            first_refusals_agree(sheet, m, items, items, evidence, bg, i, a->Err_0, j, b->Err_0);
        } else if a is Ok {
            let j = choose|k: int| #[trigger]
                is_first_refusal(sheet, m, items, evidence, bg, k, b->Err_0);
            reported_is_not_refused(sheet, m, items, items, evidence, o, a->Ok_0, j, b->Err_0);
        } else {
            let i = choose|k: int| #[trigger]
                is_first_refusal(sheet, m, items, evidence, bg, k, a->Err_0);
            reported_is_not_refused(sheet, m, items, items, evidence, o, b->Ok_0, i, a->Err_0);
        }
    }
}

// ---- what a review says -------------------------------------------------------------

/// The evidence of a rendered pixel is its greatest distance from the background
/// over the three colours, once it is laid over it: no colour is farther, and one
/// is as far. What is clear shows the background, and what is opaque shows itself.
pub proof fn rendered_evidence_is_the_farthest_colour(px: Seq<u8>, bg: Seq<u8>, i: int)
    requires
        0 <= i,
        4 * i + 3 < px.len(),
        bg.len() == 4,
    ensures
        render_evidence(px, bg).len() == px.len() / 4,
        px[4 * i + 3] == 0 && px[4 * i] == 0 && px[4 * i + 1] == 0 && px[4 * i + 2] == 0 ==> render_evidence(
            px,
            bg,
        )[i] == 0,
        px[4 * i + 3] == 255 ==> {
            &&& forall|c: int|
                0 <= c < 3 ==> #[trigger] bg[c] - px[4 * i + c] <= render_evidence(px, bg)[i] && px[4 * i + c]
                    - bg[c] <= render_evidence(px, bg)[i]
            &&& exists|c: int|
                0 <= c < 3 && (#[trigger] bg[c] - px[4 * i + c] == render_evidence(px, bg)[i] || px[4 * i + c]
                    - bg[c] == render_evidence(px, bg)[i])
        },
        forall|c: int|
            0 <= c < 3 ==> {
                let shown = px[4 * i + c] + (#[trigger] bg[c] * (255 - px[4 * i + 3])) / 255;
                render_evidence(px, bg)[i] == 255 || (shown - bg[c] <= render_evidence(px, bg)[i] && bg[c] - shown
                    <= render_evidence(px, bg)[i])
            },
{
    let a = px[4 * i + 3];
    let e = render_evidence(px, bg)[i];
    assert((bg[0] * 255) / 255 == bg[0] && (bg[1] * 255) / 255 == bg[1] && (bg[2] * 255) / 255 == bg[2]);
    assert((bg[0] * 0) / 255 == 0 && (bg[1] * 0) / 255 == 0 && (bg[2] * 0) / 255 == 0);
    let r = mixed_gap(px[4 * i + 0], bg[0], a);
    let g = mixed_gap(px[4 * i + 1], bg[1], a);
    let b = mixed_gap(px[4 * i + 2], bg[2], a);
    assert(e == r || e == g || e == b);
    assert(e >= r && e >= g && e >= b);
    if a == 255 {
        let c0 = bg[0] - px[4 * i + 0];
        let c1 = bg[1] - px[4 * i + 1];
        let c2 = bg[2] - px[4 * i + 2];
        assert(e == c0 || e == -c0 || e == c1 || e == -c1 || e == c2 || e == -c2);
    }
    assert forall|c: int| 0 <= c < 3 implies ({
        let shown = px[4 * i + c] + (#[trigger] bg[c] * (255 - px[4 * i + 3])) / 255;
        e == 255 || (shown - bg[c] <= e && bg[c] - shown <= e)
    }) by {
        assert(c == 0 || c == 1 || c == 2);
    }
}

/// The ink box is the least box round the pixels from half intensity on.
pub proof fn ink_box_is_least(plane: Seq<u8>, w: int, h: int, b: (u32, u32, u32, u32), x: int, y: int)
    requires
        is_ink_box(plane, w, h, b),
        0 <= x < w,
        0 <= y < h,
    ensures
        plane[y * w + x] >= 128 ==> b.0 <= x <= b.2 && b.1 <= y <= b.3,
        exists|v: int| 0 <= v < h && #[trigger] plane[v * w + b.0] >= 128,
        exists|v: int| 0 <= v < h && #[trigger] plane[v * w + b.2] >= 128,
        exists|u: int| 0 <= u < w && #[trigger] plane[b.1 * w + u] >= 128,
        exists|u: int| 0 <= u < w && #[trigger] plane[b.3 * w + u] >= 128,
{
    if plane[y * w + x] >= 128 {
        assert(dupes::ink_at(plane, w, h, x, y));
    }
    let v0 = choose|v: int| #[trigger] dupes::ink_at(plane, w, h, b.0 as int, v);
    assert(plane[v0 * w + b.0] >= 128);
    let v2 = choose|v: int| #[trigger] dupes::ink_at(plane, w, h, b.2 as int, v);
    assert(plane[v2 * w + b.2] >= 128);
    let u1 = choose|u: int| #[trigger] dupes::ink_at(plane, w, h, u, b.1 as int);
    assert(plane[b.1 * w + u1] >= 128);
    let u3 = choose|u: int| #[trigger] dupes::ink_at(plane, w, h, u, b.3 as int);
    assert(plane[b.3 * w + u3] >= 128);
}

/// A review measures the icon's own box and artwork: the ink in the box, the
/// segments of all subpaths, whether all are closed, and how many colours there
/// are; and the flags go by those.
pub proof fn review_measures_its_icon(
    m: ForegroundMask,
    item: ReviewInput,
    ev: IconEvidence,
    art: Artwork,
    plane: Seq<u8>,
    score: Score,
    v: IconReview,
)
    requires
        is_review(m, item, ev, art, plane, score, v),
        item.bbox.w > 0,
        item.bbox.h > 0,
    ensures
        v.id == item.id,
        v.score == score,
        v.ink_area == counting::count_below(
            |k: int| m.ink(item.bbox.x + k % (item.bbox.w as int), item.bbox.y + k / (item.bbox.w as int)),
            item.bbox.w * item.bbox.h,
        ),
        v.closed == (forall|i: int, j: int|
            0 <= i < art.shapes@.len() && 0 <= j < art.shapes@[i].path@.len() ==> (#[trigger] art.shapes@[i].path@[j]).closed),
        v.flags@.contains(QualityFlag::LowQuality) == (score.composite < 800_000_000),
        v.flags@.contains(QualityFlag::OverComplex) == (v.ink_area > 0 && v.node_count * v.node_count > 16 * v.ink_area),
        v.flags@.contains(QualityFlag::OpenContour) == !v.closed,
        v.stat.id == item.id,
        v.stat.node_count == v.node_count,
        v.stat.colours == v.colours,
        v.stat.stroke == ev.stroke,
        v.stat.solidity == ev.solidity,
        v.stat.fill_ratio * (item.bbox.w * item.bbox.h) <= 1000 * v.ink_area < (v.stat.fill_ratio + 1) * (
        item.bbox.w * item.bbox.h),
        v.stat.ink_size * v.stat.ink_size <= 1_000_000 * v.ink_area < (v.stat.ink_size + 1) * (v.stat.ink_size + 1),
{
    let n = item.bbox.w * item.bbox.h;
    let f = |k: int| m.ink(item.bbox.x + k % (item.bbox.w as int), item.bbox.y + k / (item.bbox.w as int));
    counting::count_ext(f, box_ink(m, item.bbox), n);
    assert(n > 0) by (nonlinear_arith)
        requires
            n == item.bbox.w * item.bbox.h,
            item.bbox.w > 0,
            item.bbox.h > 0,
    ;
    counting::quotient_sides(1000 * v.ink_area, n);
    quality::flags_name_each_fault(
        QualityInput {
            id: item.id,
            composite: score.composite,
            node_count: v.node_count,
            ink_area: v.ink_area,
            closed: v.closed,
        },
        v.flags@,
    );
    if all_closed(art.shapes@) {
        assert forall|i: int, j: int|
            0 <= i < art.shapes@.len() && 0 <= j < art.shapes@[i].path@.len() implies (
        #[trigger] art.shapes@[i].path@[j]).closed by {
            assert(path_closed(art.shapes@[i].path@));
        }
    }
    if forall|i: int, j: int|
        0 <= i < art.shapes@.len() && 0 <= j < art.shapes@[i].path@.len() ==> (#[trigger] art.shapes@[i].path@[j]).closed {
        assert forall|i: int| 0 <= i < art.shapes@.len() implies path_closed((#[trigger] art.shapes@[i]).path@) by {
            assert forall|j: int| 0 <= j < art.shapes@[i].path@.len() implies (
            #[trigger] art.shapes@[i].path@[j]).closed by {
            }
        }
    }
}

/// A node count counts every segment of every subpath, up to what it can hold.
pub proof fn nodes_count_all_segments(
    m: ForegroundMask,
    item: ReviewInput,
    ev: IconEvidence,
    art: Artwork,
    plane: Seq<u8>,
    score: Score,
    v: IconReview,
)
    requires
        is_review(m, item, ev, art, plane, score, v),
    ensures
        ({
            let all = counting::sum_below(
                |i: int|
                    counting::sum_below(
                        |j: int| art.shapes@[i].path@[j].segs as int,
                        art.shapes@[i].path@.len() as int,
                    ),
                art.shapes@.len() as int,
            );
            if all <= 0xffff_ffff {
                v.node_count == all
            } else {
                v.node_count == 0xffff_ffffu32
            }
        }),
{
    let shapes = art.shapes@;
    let n = shapes.len() as int;
    let f = |i: int|
        counting::sum_below(|j: int| shapes[i].path@[j].segs as int, shapes[i].path@.len() as int);
    let g = |i: int| path_nodes(shapes[i].path@, shapes[i].path@.len() as int);
    assert forall|i: int| 0 <= i < n implies #[trigger] f(i) == g(i) by {
        counting::sum_ext(
            |j: int| shapes[i].path@[j].segs as int,
            |j: int| shapes[i].path@[j].segs as int,
            shapes[i].path@.len() as int,
        );
    }
    counting::sum_ext(f, g, n);
}

/// A colour's number tells its four bytes apart, red first.
pub proof fn colour_numbers_hold_their_bytes(c: Seq<u8>, k: int)
    requires
        c.len() == 4,
        0 <= k < 4,
    ensures
        code_byte(colour_code(c), k) == c[k],
{
}

/// The palette bytes are the bytes of its colours, one after the other.
pub proof fn palette_bytes_are_the_fills(shapes: Seq<Shape>, p: Seq<u32>, i: int)
    requires
        is_palette(fills_of(shapes), p),
        0 <= i < p.len(),
    ensures
        palette_bytes(p).len() == 4 * p.len(),
        exists|s: int|
            0 <= s < shapes.len() && (#[trigger] shapes[s]).fill@[0] == palette_bytes(p)[4 * i] && shapes[s].fill@[1]
                == palette_bytes(p)[4 * i + 1] && shapes[s].fill@[2] == palette_bytes(p)[4 * i + 2]
                && shapes[s].fill@[3] == palette_bytes(p)[4 * i + 3],
{
    assert(p.contains(p[i]));
    assert(fills_of(shapes).contains(p[i]));
    let s = choose|s: int| 0 <= s < fills_of(shapes).len() && fills_of(shapes)[s] == p[i];
    let c = shapes[s].fill@;
    colour_numbers_hold_their_bytes(c, 0);
    colour_numbers_hold_their_bytes(c, 1);
    colour_numbers_hold_their_bytes(c, 2);
    colour_numbers_hold_their_bytes(c, 3);
    assert((4 * i) / 4 == i && (4 * i + 1) / 4 == i && (4 * i + 2) / 4 == i && (4 * i + 3) / 4 == i);
    assert((4 * i) % 4 == 0 && (4 * i + 1) % 4 == 1 && (4 * i + 2) % 4 == 2 && (4 * i + 3) % 4 == 3);
}

/// The flags that are looked up by an id are those of the first icon with it, and
/// none where no icon has it.
pub proof fn flags_are_those_of_the_icon(icons: Seq<IconReview>, id: u32, i: int, k: int)
    requires
        0 <= i <= k <= icons.len(),
        forall|j: int| i <= j < k ==> (#[trigger] icons[j]).id != id,
        k < icons.len() ==> icons[k].id == id,
    ensures
        k < icons.len() ==> flags_from(icons, id, i) == icons[k].flags@,
        k == icons.len() ==> flags_from(icons, id, i).len() == 0,
    decreases k - i,
{
    if i < k {
        flags_are_those_of_the_icon(icons, id, i + 1, k);
    }
}

} // verus!
