//! Tracing one icon: what is handed to the tracer, and what is done with the
//! outlines that come back.
//!
//! Colour presets trace the quantized layers painted over the background, so
//! that the tracer meets exactly the palette. Two-tone presets trace the pixels
//! that differ from the background's luma, whatever its polarity.
use vstd::prelude::*;
use crate::background::BackgroundModel;
use crate::counting;
use crate::emit;
use crate::emit::IconVectors;
use crate::geometry::Bbox;
use crate::mask;
use crate::profiles;
use crate::profiles::{Clustering, FitMode, Hierarchical, TraceConfig, TracePreset};
use crate::quantize;
use crate::quantize::{Layer, QuantizeParams};
use crate::raster;
use crate::raster::SheetRaster;
use crate::simplify;
use crate::simplify::{PathOp, Simplifier};
use crate::text;

verus! {

/// Luma that a pixel must differ by to be ink, in thousandths.
pub const BW_DEVIATION: u32 = 32_000;

/// Most regions or holes that the tracer can number.
pub const MAX_STARTS: usize = 65_534;

/// The most steps along one outline before the tracer gives up.
pub const MAX_STEPS: usize = 1_000_000;

/// The longest side whose square the tracer can hold twice.
pub const MAX_SIDE: u32 = 32_767;

/// The most pixels whose channels the tracer can add up.
pub const MAX_AREA: u32 = 16_843_009;

/// Why an icon could not be traced.
#[derive(Clone, Debug, PartialEq, Eq)]
pub enum TraceError {
    /// The box covers nothing.
    EmptyBbox,
    /// The box is off the sheet, or the tracer failed.
    TraceFailed(String),
    /// The traced outlines cannot be read.
    UnparseableSvg,
}

/// The message of an error.
pub open spec fn message_of(e: TraceError) -> Seq<char> {
    match e {
        TraceError::EmptyBbox => "empty bounding box"@,
        TraceError::TraceFailed(m) => "trace failed: "@ + m@,
        TraceError::UnparseableSvg => "unparseable svg"@,
    }
}

impl TraceError {
    /// The error as text.
    pub fn message(&self) -> (r: String)
        ensures
            r@ == message_of(*self),
    {
        match self {
            TraceError::EmptyBbox => String::from_str("empty bounding box"),
            TraceError::TraceFailed(m) => {
                let mut s = String::from_str("trace failed: ");
                s.append(m.as_str());
                s
            },
            TraceError::UnparseableSvg => String::from_str("unparseable svg"),
        }
    }
}

// ---- painting -----------------------------------------------------------------------

/// The colour of a pixel after the first `n` layers were painted.
pub open spec fn paint_at(layers: Seq<Layer>, bg: Seq<u8>, n: int, x: int, y: int) -> Seq<u8>
    decreases n,
{
    if n <= 0 {
        bg
    } else if layers[n - 1].mask.ink(x, y) {
        layers[n - 1].rgba@
    } else {
        paint_at(layers, bg, n - 1, x, y)
    }
}

/// `out` are the layers painted over the background.
pub open spec fn is_composed(layers: Seq<Layer>, w: int, h: int, bg: Seq<u8>, out: Seq<u8>) -> bool {
    &&& out.len() == 4 * (w * h)
    &&& forall|x: int, y: int, c: int|
        0 <= x < w && 0 <= y < h && 0 <= c < 4 ==> out[#[trigger] raster::channel_at(w, x, y, c)]
            == paint_at(layers, bg, layers.len() as int, x, y)[c]
}

/// The layers fit the crop.
pub open spec fn layers_fit(layers: Seq<Layer>, w: int, h: int) -> bool {
    forall|i: int|
        0 <= i < layers.len() ==> (#[trigger] layers[i]).mask.wf() && layers[i].mask.width == w
            && layers[i].mask.height == h
}

fn paint_pixel(layers: &Vec<Layer>, bg: &[u8; 4], x: u32, y: u32, w: u32, h: u32) -> (r: [u8; 4])
    requires
        layers_fit(layers@, w as int, h as int),
        x < w,
        y < h,
    ensures
        r@ == paint_at(layers@, bg@, layers@.len() as int, x as int, y as int),
{
    let mut out: [u8; 4] = *bg;
    let mut i: usize = 0;
    while i < layers.len()
        invariant
            layers_fit(layers@, w as int, h as int),
            x < w,
            y < h,
            i <= layers@.len(),
            out@ == paint_at(layers@, bg@, i as int, x as int, y as int),
        decreases layers@.len() - i,
    {
        assert(layers@[i as int].mask.wf());
        if layers[i].mask.get(x, y) {
            out = layers[i].rgba;
        }
        i = i + 1;
    }
    out
}

/// Paints the layers over the background colour.
pub fn compose(layers: &Vec<Layer>, w: u32, h: u32, bg: [u8; 4]) -> (r: Vec<u8>)
    requires
        layers_fit(layers@, w as int, h as int),
        w * h <= mask::MAX_PIXELS,
    ensures
        is_composed(layers@, w as int, h as int, bg@, r@),
{
    let mut out: Vec<u8> = Vec::new();
    let mut y: u32 = 0;
    while y < h
        invariant
            layers_fit(layers@, w as int, h as int),
            y <= h,
            out@.len() == 4 * (w * y),
            forall|i: int, j: int, c: int|
                0 <= i < w && 0 <= j < y && 0 <= c < 4 ==> out@[#[trigger] raster::channel_at(
                    w as int,
                    i,
                    j,
                    c,
                )] == paint_at(layers@, bg@, layers@.len() as int, i, j)[c],
        decreases h - y,
    {
        let mut x: u32 = 0;
        while x < w
            invariant
                layers_fit(layers@, w as int, h as int),
                x <= w,
                y < h,
                out@.len() == 4 * (w * y + x),
                forall|i: int, j: int, c: int|
                    0 <= i < w && 0 <= j <= y && (j < y || i < x) && 0 <= c < 4
                        ==> out@[#[trigger] raster::channel_at(w as int, i, j, c)] == paint_at(
                        layers@,
                        bg@,
                        layers@.len() as int,
                        i,
                        j,
                    )[c],
            decreases w - x,
        {
            let p: [u8; 4] = paint_pixel(layers, &bg, x, y, w, h);
            let ghost before = out@;
            out.push(p[0]);
            out.push(p[1]);
            out.push(p[2]);
            out.push(p[3]);
            proof {
                let wi = w as int;
                assert(wi * y == y * wi) by (nonlinear_arith);
                assert forall|i: int, j: int, c: int|
                    0 <= i < w && 0 <= j <= y && (j < y || i < x + 1) && 0 <= c
                        < 4 implies out@[#[trigger] raster::channel_at(wi, i, j, c)] == paint_at(
                    layers@,
                    bg@,
                    layers@.len() as int,
                    i,
                    j,
                )[c] by {
                    mask::lemma_pixel_order(wi, i, j, x as int, y as int);
                    if j < y || i < x {
                        mask::lemma_pixel_in(wi, y + 1, i, j);
                        assert(raster::channel_at(wi, i, j, c) < before.len());
                        assert(out@[raster::channel_at(wi, i, j, c)] == before[raster::channel_at(
                            wi,
                            i,
                            j,
                            c,
                        )]);
                    } else {
                        assert(raster::channel_at(wi, i, j, c) == before.len() + c);
                        assert(out@[before.len() + c] == p@[c]);
                    }
                }
            }
            x = x + 1;
        }
        proof {
            let wi = w as int;
            assert(wi * (y + 1) == wi * y + wi) by (nonlinear_arith);
        }
        y = y + 1;
    }
    out
}

/// The two-tone value of a luma: black where it is far enough from the
/// background's.
pub open spec fn tone(luma: int, bg: int) -> u8 {
    if luma - bg >= BW_DEVIATION || bg - luma >= BW_DEVIATION {
        0
    } else {
        255
    }
}

/// `out` is the two-tone crop of a box: opaque, black ink on white.
pub open spec fn is_two_tone(sheet: SheetRaster, b: Bbox, bg: int, out: Seq<u8>) -> bool {
    &&& out.len() == 4 * (b.w * b.h)
    &&& forall|x: int, y: int, c: int|
        0 <= x < b.w && 0 <= y < b.h && 0 <= c < 4 ==> out[#[trigger] raster::channel_at(
            b.w as int,
            x,
            y,
            c,
        )] == (if c == 3 {
            255
        } else {
            tone(sheet.luma@[mask::pixel_at(sheet.width as int, b.x + x, b.y + y)] as int, bg)
        })
}

/// Binarizes a box against a background luma, given in thousandths.
pub fn bw_crop(sheet: &SheetRaster, bbox: Bbox, bg_luma: u32) -> (r: Vec<u8>)
    requires
        sheet.wf(),
        bbox.right() <= sheet.width,
        bbox.bottom() <= sheet.height,
        bg_luma <= 255_000,
    ensures
        is_two_tone(*sheet, bbox, bg_luma as int, r@),
{
    let mut out: Vec<u8> = Vec::new();
    let mut y: u32 = 0;
    while y < bbox.h
        invariant
            sheet.wf(),
            bbox.right() <= sheet.width,
            bbox.bottom() <= sheet.height,
            bg_luma <= 255_000,
            y <= bbox.h,
            out@.len() == 4 * (bbox.w * y),
            forall|i: int, j: int, c: int|
                0 <= i < bbox.w && 0 <= j < y && 0 <= c < 4 ==> out@[#[trigger] raster::channel_at(
                    bbox.w as int,
                    i,
                    j,
                    c,
                )] == (if c == 3 {
                    255
                } else {
                    tone(
                        sheet.luma@[mask::pixel_at(sheet.width as int, bbox.x + i, bbox.y + j)] as int,
                        bg_luma as int,
                    )
                }),
        decreases bbox.h - y,
    {
        let row: Vec<u32> = sheet.luma_row(bbox.y + y);
        let mut x: u32 = 0;
        while x < bbox.w
            invariant
                sheet.wf(),
                bbox.right() <= sheet.width,
                bbox.bottom() <= sheet.height,
                bg_luma <= 255_000,
                x <= bbox.w,
                y < bbox.h,
                row@.len() == sheet.width,
                forall|k: int|
                    0 <= k < sheet.width ==> #[trigger] row@[k] == sheet.luma@[(bbox.y + y)
                        * sheet.width + k],
                out@.len() == 4 * (bbox.w * y + x),
                forall|i: int, j: int, c: int|
                    0 <= i < bbox.w && 0 <= j <= y && (j < y || i < x) && 0 <= c < 4
                        ==> out@[#[trigger] raster::channel_at(bbox.w as int, i, j, c)] == (if c
                        == 3 {
                        255
                    } else {
                        tone(
                            sheet.luma@[mask::pixel_at(
                                sheet.width as int,
                                bbox.x + i,
                                bbox.y + j,
                            )] as int,
                            bg_luma as int,
                        )
                    }),
            decreases bbox.w - x,
        {
            let v: u32 = row[(bbox.x + x) as usize];
            let d: u32 = if v >= bg_luma {
                v - bg_luma
            } else {
                bg_luma - v
            };
            let c: u8 = if d >= BW_DEVIATION {
                0
            } else {
                255
            };
            let ghost before = out@;
            out.push(c);
            out.push(c);
            out.push(c);
            out.push(255);
            proof {
                let wi = bbox.w as int;
                assert(wi * y == y * wi) by (nonlinear_arith);
                assert(v == sheet.luma@[mask::pixel_at(
                    sheet.width as int,
                    bbox.x + x,
                    bbox.y + y,
                )]);
                assert forall|i: int, j: int, q: int|
                    0 <= i < bbox.w && 0 <= j <= y && (j < y || i < x + 1) && 0 <= q
                        < 4 implies out@[#[trigger] raster::channel_at(wi, i, j, q)] == (if q == 3 {
                    255
                } else {
                    tone(
                        sheet.luma@[mask::pixel_at(sheet.width as int, bbox.x + i, bbox.y + j)] as int,
                        bg_luma as int,
                    )
                }) by {
                    mask::lemma_pixel_order(wi, i, j, x as int, y as int);
                    if j < y || i < x {
                        mask::lemma_pixel_in(wi, y + 1, i, j);
                        assert(raster::channel_at(wi, i, j, q) < before.len());
                        assert(out@[raster::channel_at(wi, i, j, q)] == before[raster::channel_at(
                            wi,
                            i,
                            j,
                            q,
                        )]);
                    } else {
                        assert(raster::channel_at(wi, i, j, q) == before.len() + q);
                    }
                }
            }
            x = x + 1;
        }
        proof {
            let wi = bbox.w as int;
            assert(wi * (y + 1) == wi * y + wi) by (nonlinear_arith);
        }
        y = y + 1;
    }
    out
}

// ---- the plan -----------------------------------------------------------------------

/// What the tracer is given.
#[derive(Clone, Debug, PartialEq, Eq)]
pub struct TracePlan {
    /// RGBA pixels of the crop.
    pub pixels: Vec<u8>,
    /// Its palette, in paint order; none for two tones.
    pub palette: Vec<[u8; 4]>,
    /// The tracer's setup.
    pub config: TraceConfig,
}

/// The quantizer of a preset.
pub open spec fn quantizer_of(p: TracePreset) -> QuantizeParams {
    match profiles::palette_of(p) {
        Some(k) => QuantizeParams { k_max: k, ..quantize::default_quantize_params() },
        None => quantize::default_quantize_params(),
    }
}

/// The palette of some layers.
pub open spec fn palette_of(layers: Seq<Layer>) -> Seq<[u8; 4]> {
    Seq::new(layers.len(), |i: int| layers[i].rgba)
}

/// A colour plan: the layers of the crop over the background.
pub open spec fn is_colour_plan(
    sheet: SheetRaster,
    b: Bbox,
    bg: Seq<u8>,
    p: TracePreset,
    crop: Seq<u8>,
    layers: Seq<Layer>,
    plan: TracePlan,
) -> bool {
    &&& sheet.is_crop(b, crop)
    &&& quantize::is_quantized(crop, b.w, b.h, quantizer_of(p), layers)
    &&& plan.palette@ == palette_of(layers)
    &&& is_composed(layers, b.w as int, b.h as int, bg, plan.pixels@)
}

/// The plan for a box that lies on the sheet.
pub open spec fn is_plan(sheet: SheetRaster, b: Bbox, bg: Seq<u8>, p: TracePreset, plan: TracePlan) -> bool {
    let colour = profiles::palette_of(p) is Some;
    &&& plan.config == profiles::config_of(p, colour)
    &&& if colour {
        exists|crop: Seq<u8>, layers: Seq<Layer>| #[trigger]
            is_colour_plan(sheet, b, bg, p, crop, layers, plan)
    } else {
        plan.palette@.len() == 0 && is_two_tone(
            sheet,
            b,
            raster::luma_of(bg[0], bg[1], bg[2]) as int,
            plan.pixels@,
        )
    }
}

/// Whether a box can be traced: it covers something, on the sheet.
pub open spec fn box_verdict(sheet: SheetRaster, b: Bbox) -> Option<TraceVerdict> {
    if b.w == 0 || b.h == 0 {
        Some(TraceVerdict::Empty)
    } else if b.right() > sheet.width || b.bottom() > sheet.height {
        Some(TraceVerdict::Outside)
    } else {
        None
    }
}

/// Why a box cannot be traced.
#[derive(Clone, Copy, Debug, PartialEq, Eq, Structural)]
pub enum TraceVerdict {
    /// It covers nothing.
    Empty,
    /// It is not on the sheet.
    Outside,
}

/// `e` is what a box that cannot be traced is answered.
pub open spec fn is_refusal(v: TraceVerdict, e: TraceError) -> bool {
    match v {
        TraceVerdict::Empty => e is EmptyBbox,
        TraceVerdict::Outside => e is TraceFailed && (e->TraceFailed_0)@ == "bbox outside sheet"@,
    }
}

/// The layers that quantization gives fit the crop.
proof fn quantized_fit(crop: Seq<u8>, w: u32, h: u32, p: QuantizeParams, layers: Seq<Layer>)
    requires
        quantize::is_quantized(crop, w, h, p, layers),
    ensures
        layers_fit(layers, w as int, h as int),
{
    if !quantize::is_blank(crop, w, h, p) {
        let colours = quantize::colours_of(crop, p);
        let tags = choose|tags: Seq<int>| #[trigger]
            quantize::are_layers(crop, w, h, p, colours, colours.len() as int, tags, layers);
        assert forall|i: int| 0 <= i < layers.len() implies (#[trigger] layers[i]).mask.wf()
            && layers[i].mask.width == w && layers[i].mask.height == h by {
            assert(0 <= tags[i]);
        }
    }
}

fn list_palette(layers: &Vec<Layer>) -> (r: Vec<[u8; 4]>)
    ensures
        r@ == palette_of(layers@),
{
    let mut out: Vec<[u8; 4]> = Vec::new();
    let mut i: usize = 0;
    while i < layers.len()
        invariant
            i <= layers@.len(),
            out@.len() == i,
            forall|k: int| 0 <= k < i ==> #[trigger] out@[k] == layers@[k].rgba,
        decreases layers@.len() - i,
    {
        out.push(layers[i].rgba);
        i = i + 1;
    }
    assert(out@ =~= palette_of(layers@));
    out
}

/// What the tracer is given for an icon.
pub fn plan_trace(sheet: &SheetRaster, bbox: Bbox, bg: &BackgroundModel, preset: TracePreset) -> (r: Result<
    TracePlan,
    TraceError,
>)
    requires
        sheet.wf(),
    ensures
        match r {
            Ok(plan) => box_verdict(*sheet, bbox) is None && is_plan(
                *sheet,
                bbox,
                bg.rgba@,
                preset,
                plan,
            ) && plan.pixels@.len() == 4 * (bbox.w * bbox.h),
            Err(e) => box_verdict(*sheet, bbox) is Some && is_refusal(
                box_verdict(*sheet, bbox)->0,
                e,
            ),
        },
{
    if bbox.is_empty() {
        return Err(TraceError::EmptyBbox);
    }
    if bbox.x as u64 + bbox.w as u64 > sheet.width as u64 || bbox.y as u64 + bbox.h as u64
        > sheet.height as u64 {
        return Err(TraceError::TraceFailed(String::from_str("bbox outside sheet")));
    }
    proof {
        assert(bbox.w * bbox.h <= sheet.width * sheet.height) by (nonlinear_arith)
            requires
                0 <= bbox.w <= sheet.width,
                0 <= bbox.h <= sheet.height,
        ;
    }
    let prof = profiles::profile(preset);
    let config = prof.vtracer_config();
    match prof.k {
        Some(k) => {
            let crop = sheet.crop_rgba(bbox);
            let qp = QuantizeParams::with_k_cap(k);
            let layers = quantize::quantize_crop(crop.as_slice(), bbox.w, bbox.h, &qp);
            proof {
                quantized_fit(crop@, bbox.w, bbox.h, qp, layers@);
            }
            let palette = list_palette(&layers);
            let pixels = compose(&layers, bbox.w, bbox.h, bg.rgba);
            let plan = TracePlan { pixels, palette, config };
            assert(is_colour_plan(*sheet, bbox, bg.rgba@, preset, crop@, layers@, plan));
            Ok(plan)
        },
        None => {
            let luma: u32 = 299 * bg.rgba[0] as u32 + 587 * bg.rgba[1] as u32 + 114 * bg.rgba[2] as u32;
            let pixels = bw_crop(sheet, bbox, luma);
            Ok(TracePlan { pixels, palette: Vec::new(), config })
        },
    }
}

// ---- the tracer ---------------------------------------------------------------------

/// Two pixels are alike.
pub open spec fn alike(pixels: Seq<u8>, i: int, j: int) -> bool {
    &&& pixels[4 * i] == pixels[4 * j]
    &&& pixels[4 * i + 1] == pixels[4 * j + 1]
    &&& pixels[4 * i + 2] == pixels[4 * j + 2]
    &&& pixels[4 * i + 3] == pixels[4 * j + 3]
}

/// No region and no hole starts at pixel number `k`. In two tones it is like its
/// neighbour to the left or above. In colour it is like the one between these
/// and like one of them, and, where regions are cut out of each other, like both
/// and like the two above these.
pub open spec fn settled(pixels: Seq<u8>, w: int, c: TraceConfig, k: int) -> bool {
    let left = k % w > 0 && alike(pixels, k, k - 1);
    let above = k >= w && alike(pixels, k, k - w);
    if c.clustering is Binary {
        left || above
    } else {
        &&& k % w > 0
        &&& k >= w
        &&& alike(pixels, k, k - w - 1)
        &&& if c.hierarchical is Cutout {
            left && above && k >= 2 * w && alike(pixels, k, k - 2 * w) && alike(
                pixels,
                k,
                k - 2 * w - 1,
            )
        } else {
            left || above
        }
    }
}

/// Pixel number `k` lies in one region with its neighbour to the left, however
/// the regions come to be.
pub open spec fn joins_left(pixels: Seq<u8>, w: int, c: TraceConfig, k: int) -> bool {
    settled(pixels, w, c, k) && k % w > 0 && alike(pixels, k, k - 1)
}

/// Pixel number `k` lies in one region with its neighbour above, however the
/// regions come to be.
pub open spec fn joins_above(pixels: Seq<u8>, w: int, c: TraceConfig, k: int) -> bool {
    settled(pixels, w, c, k) && k >= w && alike(pixels, k, k - w)
}

/// The number of pixel sides that can be part of an outline. Left and upper sides
/// are counted pixel by pixel; the right and the lower edge of the crop are left
/// over.
pub open spec fn outline_sides(pixels: Seq<u8>, w: int, h: int, c: TraceConfig) -> int {
    counting::count_below(|k: int| !joins_left(pixels, w, c, k), w * h) + counting::count_below(
        |k: int| !joins_above(pixels, w, c, k),
        w * h,
    ) + w + h
}

/// The number of pixels where a region or a hole can start.
pub open spec fn unsettled(pixels: Seq<u8>, w: int, h: int, c: TraceConfig) -> int {
    counting::count_below(|k: int| !settled(pixels, w, c, k), w * h)
}

/// A crop is within what the tracer can count: the sums of a region's colours
/// and the squares of its sides in 32 bits, its regions and holes in sixteen, and
/// the steps along one outline up to a limit of its own.
pub open spec fn can_trace(pixels: Seq<u8>, w: int, h: int, c: TraceConfig) -> bool {
    &&& w <= MAX_SIDE
    &&& h <= MAX_SIDE
    &&& w * h <= MAX_AREA
    &&& unsettled(pixels, w, h, c) + w + h <= MAX_STARTS
    &&& outline_sides(pixels, w, h, c) <= MAX_STEPS
}

fn same_pixel(pixels: &Vec<u8>, i: usize, j: usize) -> (r: bool)
    requires
        4 * i + 3 < pixels@.len() <= 4 * MAX_AREA,
        4 * j + 3 < pixels@.len(),
    ensures
        r == alike(pixels@, i as int, j as int),
{
    pixels[4 * i] == pixels[4 * j] && pixels[4 * i + 1] == pixels[4 * j + 1] && pixels[4 * i + 2]
        == pixels[4 * j + 2] && pixels[4 * i + 3] == pixels[4 * j + 3]
}

fn is_settled(pixels: &Vec<u8>, w: usize, c: &TraceConfig, k: usize) -> (r: bool)
    requires
        0 < w <= MAX_SIDE,
        4 * k + 3 < pixels@.len() <= 4 * MAX_AREA,
    ensures
        r == settled(pixels@, w as int, *c, k as int),
{
    let inner: bool = k % w > 0;
    let below: bool = k >= w;
    proof {
        if k == 0 {
            assert(k as int % w as int == 0) by (nonlinear_arith)
                requires
                    k == 0,
                    w > 0,
            ;
        }
    }
    let left: bool = inner && same_pixel(pixels, k, k - 1);
    let above: bool = below && same_pixel(pixels, k, k - w);
    if c.clustering == Clustering::Binary {
        return left || above;
    }
    if !inner || !below {
        return false;
    }
    assert(k != w) by (nonlinear_arith)
        requires
            k % w != 0,
            w > 0,
    ;
    if !same_pixel(pixels, k, k - w - 1) {
        return false;
    }
    if c.hierarchical != Hierarchical::Cutout {
        return left || above;
    }
    assert(k != 2 * w) by (nonlinear_arith)
        requires
            k % w != 0,
            w > 0,
    ;
    left && above && k >= 2 * w && same_pixel(pixels, k, k - 2 * w) && same_pixel(
        pixels,
        k,
        k - 2 * w - 1,
    )
}

/// Whether a pixel starts no region, and joins its neighbours to the left and
/// above.
fn joins(pixels: &Vec<u8>, w: usize, c: &TraceConfig, k: usize) -> (r: (bool, bool, bool))
    requires
        0 < w <= MAX_SIDE,
        4 * k + 3 < pixels@.len() <= 4 * MAX_AREA,
    ensures
        r.0 == settled(pixels@, w as int, *c, k as int),
        r.1 == joins_left(pixels@, w as int, *c, k as int),
        r.2 == joins_above(pixels@, w as int, *c, k as int),
{
    let still = is_settled(pixels, w, c, k);
    if !still {
        return (false, false, false);
    }
    let inner: bool = k % w > 0;
    proof {
        if k == 0 {
            assert(k as int % w as int == 0) by (nonlinear_arith)
                requires
                    k == 0,
                    w > 0,
            ;
        }
    }
    (still, inner && same_pixel(pixels, k, k - 1), k >= w && same_pixel(pixels, k, k - w))
}

/// Whether a crop is within what the tracer can count.
fn check_size(pixels: &Vec<u8>, w: u32, h: u32, c: &TraceConfig) -> (r: bool)
    requires
        0 < w,
        pixels@.len() == 4 * (w * h),
    ensures
        r == can_trace(pixels@, w as int, h as int, *c),
{
    if w > MAX_SIDE || h > MAX_SIDE {
        return false;
    }
    proof {
        assert(0 <= w * h <= MAX_SIDE * MAX_SIDE) by (nonlinear_arith)
            requires
                0 <= w <= MAX_SIDE,
                0 <= h <= MAX_SIDE,
        ;
    }
    if w as u64 * h as u64 > MAX_AREA as u64 {
        return false;
    }
    let wu: usize = w as usize;
    let n: usize = (w as u64 * h as u64) as usize;
    let ghost f = |k: int| !settled(pixels@, w as int, *c, k);
    let ghost fl = |k: int| !joins_left(pixels@, w as int, *c, k);
    let ghost fa = |k: int| !joins_above(pixels@, w as int, *c, k);
    let mut count: usize = 0;
    let mut left: usize = 0;
    let mut above: usize = 0;
    let mut k: usize = 0;
    while k < n
        invariant
            0 < wu == w <= MAX_SIDE,
            pixels@.len() == 4 * n,
            n == w * h <= MAX_AREA,
            k <= n,
            count <= k,
            left <= k,
            above <= k,
            f == (|k: int| !settled(pixels@, w as int, *c, k)),
            fl == (|k: int| !joins_left(pixels@, w as int, *c, k)),
            fa == (|k: int| !joins_above(pixels@, w as int, *c, k)),
            count == counting::count_below(f, k as int),
            left == counting::count_below(fl, k as int),
            above == counting::count_below(fa, k as int),
        decreases n - k,
    {
        let (still, with_left, with_above) = joins(pixels, wu, c, k);
        assert(f(k as int) == !still);
        assert(fl(k as int) == !with_left);
        assert(fa(k as int) == !with_above);
        if !still {
            count = count + 1;
        }
        if !with_left {
            left = left + 1;
        }
        if !with_above {
            above = above + 1;
        }
        k = k + 1;
    }
    let sides: u64 = w as u64 + h as u64;
    count as u64 + sides <= MAX_STARTS as u64 && left as u64 + above as u64 + sides <= MAX_STEPS as u64
}

/// No pixel is wholly transparent.
pub open spec fn is_opaque(pixels: Seq<u8>) -> bool {
    forall|i: int| 0 <= i && 4 * i + 3 < pixels.len() ==> #[trigger] pixels[4 * i + 3] != 0
}

/// The tracer finds outlines: it is set to two tones, or it needs no key colour
/// to stand for transparent pixels.
pub open spec fn finds_outlines(pixels: Seq<u8>, w: int, c: TraceConfig) -> bool {
    c.clustering is Binary || (w >= 3 && is_opaque(pixels))
}

/// The outlines depend on the pixels and the setup alone: no key colour is drawn
/// and no angle is measured.
pub open spec fn is_steady(pixels: Seq<u8>, w: int, c: TraceConfig) -> bool {
    c.mode !is Spline && finds_outlines(pixels, w, c)
}

/// How the tracer calls the kinds of regions.
pub open spec fn kind_name(c: Clustering) -> Seq<char> {
    match c {
        Clustering::Binary => "binary"@,
        Clustering::ColorCluster => "color"@,
    }
}

/// How the tracer calls the ways in which regions relate.
pub open spec fn order_name(o: Hierarchical) -> Seq<char> {
    match o {
        Hierarchical::Stacked => "stacked"@,
        Hierarchical::Cutout => "cutout"@,
    }
}

/// What `vtracer::convert` writes for a crop whose outlines are not fitted with
/// splines. Such outlines do not depend on the thresholds of the spline fitter.
pub uninterp spec fn outlines_of(
    pixels: Seq<u8>,
    w: u32,
    h: u32,
    kind: Seq<char>,
    order: Seq<char>,
    polygon: bool,
    speckle: u32,
    precision: i32,
) -> Seq<char>;

/// Calls `vtracer::convert` on an RGBA crop. In two tones, or where no pixel is
/// transparent, it succeeds; without splines the text is then named
/// [`outlines_of`]. Nothing else is claimed: a key colour for transparent pixels
/// may be drawn at random, and splines go by angles whose precision is left to
/// the machine.
#[verifier::external_body]
fn convert(pixels: Vec<u8>, w: u32, h: u32, kind: &str, order: &str, c: &TraceConfig) -> (r: Result<
    String,
    String,
>)
    requires
        0 < w,
        0 < h,
        pixels@.len() == 4 * (w * h),
        can_trace(pixels@, w as int, h as int, *c),
        kind@ == kind_name(c.clustering),
        order@ == order_name(c.hierarchical),
        1 <= c.color_precision <= 8,
        1 <= c.max_iterations,
        c.filter_speckle <= 0xffff,
    ensures
        finds_outlines(pixels@, w as int, *c) ==> r is Ok,
        is_steady(pixels@, w as int, *c) ==> r->Ok_0@ == outlines_of(
            pixels@,
            w,
            h,
            kind@,
            order@,
            c.mode is Polygon,
            c.filter_speckle,
            c.color_precision,
        ),
{
    let img = vtracer::ColorImage { pixels, width: w as usize, height: h as usize };
    let mut cfg = vtracer::Config::default();
    cfg.color_mode = kind.parse()?;
    cfg.hierarchical = order.parse()?;
    cfg.mode = match c.mode {
        FitMode::Polygon => visioncortex::PathSimplifyMode::Polygon,
        FitMode::Spline => visioncortex::PathSimplifyMode::Spline,
        FitMode::Pixel => visioncortex::PathSimplifyMode::None,
    };
    cfg.filter_speckle = c.filter_speckle as usize;
    cfg.color_precision = c.color_precision;
    cfg.corner_threshold = c.corner_threshold;
    cfg.length_threshold = c.length_threshold.into();
    cfg.max_iterations = c.max_iterations as usize;
    Ok(vtracer::convert(img, cfg)?.to_string())
}

/// `r` is what tracing a plan gives.
pub open spec fn is_traced(plan: TracePlan, w: u32, h: u32, r: Result<IconVectors, TraceError>) -> bool {
    let p = plan.pixels@;
    let c = plan.config;
    let fits = can_trace(p, w as int, h as int, c);
    match r {
        Ok(icon) => fits && icon.palette == plan.palette && (is_steady(p, w as int, c)
            ==> icon.svg@ == outlines_of(
            p,
            w,
            h,
            kind_name(c.clustering),
            order_name(c.hierarchical),
            c.mode is Polygon,
            c.filter_speckle,
            c.color_precision,
        )),
        Err(e) => e is TraceFailed && if fits {
            !finds_outlines(p, w as int, c)
        } else {
            (e->TraceFailed_0)@ == "too large or too intricate to trace"@
        },
    }
}

/// Traces an icon. The outlines are as the tracer gives them; where it fails,
/// its own words are handed on. The local threshold that some presets ask for is
/// not one of the tracer's, so they are traced with the global one.
pub fn trace_icon(sheet: &SheetRaster, bbox: Bbox, bg: &BackgroundModel, preset: TracePreset) -> (r: Result<
    IconVectors,
    TraceError,
>)
    requires
        sheet.wf(),
    ensures
        match box_verdict(*sheet, bbox) {
            Some(v) => r is Err && is_refusal(v, r->Err_0),
            None => exists|plan: TracePlan| #[trigger]
                is_plan(*sheet, bbox, bg.rgba@, preset, plan) && is_traced(plan, bbox.w, bbox.h, r),
        },
{
    let plan = match plan_trace(sheet, bbox, bg, preset) {
        Err(e) => {
            return Err(e);
        },
        Ok(plan) => plan,
    };
    let ghost p = plan;
    assert(is_plan(*sheet, bbox, bg.rgba@, preset, p));
    let c = plan.config;
    if !check_size(&plan.pixels, bbox.w, bbox.h, &c) {
        let r = Err(TraceError::TraceFailed(String::from_str("too large or too intricate to trace")));
        assert(is_traced(p, bbox.w, bbox.h, r));
        return r;
    }
    let kind = match c.clustering {
        Clustering::Binary => "binary",
        Clustering::ColorCluster => "color",
    };
    let order = match c.hierarchical {
        Hierarchical::Stacked => "stacked",
        Hierarchical::Cutout => "cutout",
    };
    let TracePlan { pixels, palette, config } = plan;
    let r = match convert(pixels, bbox.w, bbox.h, kind, order, &c) {
        Err(m) => Err(TraceError::TraceFailed(m)),
        Ok(svg) => Ok(IconVectors { svg, palette }),
    };
    assert(is_traced(p, bbox.w, bbox.h, r));
    r
}

/// There is one two-tone crop of a box.
proof fn two_tone_is_one(sheet: SheetRaster, b: Bbox, bg: int, p: Seq<u8>, q: Seq<u8>)
    requires
        b.w > 0,
        is_two_tone(sheet, b, bg, p),
        is_two_tone(sheet, b, bg, q),
    ensures
        p == q,
{
    let w = b.w as int;
    let h = b.h as int;
    assert forall|i: int| 0 <= i < p.len() implies p[i] == q[i] by {
        let k = i / 4;
        mask::lemma_pixel_split(w, h, k);
        let j = raster::channel_at(w, k % w, k / w, i % 4);
        assert(j == i);
        assert(p[j] == q[j]);
    }
    assert(p =~= q);
}

/// Tracing a draft twice gives the same outlines.
pub proof fn drafts_repeat(
    sheet: SheetRaster,
    b: Bbox,
    bg: Seq<u8>,
    plan1: TracePlan,
    plan2: TracePlan,
    icon1: IconVectors,
    icon2: IconVectors,
)
    requires
        sheet.wf(),
        box_verdict(sheet, b) is None,
        is_plan(sheet, b, bg, TracePreset::Draft, plan1),
        is_plan(sheet, b, bg, TracePreset::Draft, plan2),
        is_traced(plan1, b.w, b.h, Ok(icon1)),
        is_traced(plan2, b.w, b.h, Ok(icon2)),
    ensures
        icon1.svg@ == icon2.svg@,
        icon1.palette@ == icon2.palette@,
{
    let luma = raster::luma_of(bg[0], bg[1], bg[2]) as int;
    two_tone_is_one(sheet, b, luma, plan1.pixels@, plan2.pixels@);
    assert(icon1.palette@ =~= icon2.palette@);
}

// ---- outlines -----------------------------------------------------------------------

/// Where the path data of the `d` attributes stand, from `i` on: between a `d="`
/// that no longer name ends in and the next quote. `None` where a quote is
/// missing.
pub open spec fn slots_from(s: Seq<char>, i: int) -> Option<Seq<(int, int)>>
    decreases s.len() - i,
    when 0 <= i <= s.len()
{
    match emit::first_free(s, "d=\""@, i) {
        None => Some(Seq::empty()),
        Some(k) => if k < i || k + 3 > s.len() {
            None
        } else {
            match text::find_from(s, "\""@, k + 3) {
                None => None,
                Some(e) => if e < k + 3 || e > s.len() {
                    None
                } else {
                    match slots_from(s, e) {
                        None => None,
                        Some(rest) => Some(seq![(k + 3, e)] + rest),
                    }
                },
            }
        },
    }
}

/// The text with each slot from number `n` on replaced, from `i` on.
pub open spec fn filled(s: Seq<char>, slots: Seq<(int, int)>, texts: Seq<Seq<char>>, n: int, i: int) -> Seq<char>
    decreases slots.len() - n,
{
    if n < 0 || n >= slots.len() {
        s.subrange(i, s.len() as int)
    } else {
        s.subrange(i, slots[n].0) + texts[n] + filled(s, slots, texts, n + 1, slots[n].1)
    }
}

/// A stretch of a text.
#[derive(Clone, Copy, Debug, PartialEq, Eq, Structural)]
pub struct Slot {
    /// Where it starts.
    pub start: usize,
    /// The position behind its end.
    pub end: usize,
}

/// The slots as pairs.
pub open spec fn pairs(v: Seq<Slot>) -> Seq<(int, int)> {
    Seq::new(v.len(), |i: int| (v[i].start as int, v[i].end as int))
}

/// The slots lie one behind the other in a text of this length.
pub open spec fn in_order(v: Seq<(int, int)>, from: int, len: int) -> bool {
    &&& forall|i: int| 0 <= i < v.len() ==> from <= (#[trigger] v[i]).0 <= v[i].1 <= len
    &&& forall|i: int, j: int| 0 <= i < j < v.len() ==> (#[trigger] v[i]).1 <= (#[trigger] v[j]).0
}

/// The path data of a document. Its slots are listed in the order in which they
/// stand.
pub fn path_slots(svg: &Vec<char>) -> (r: Result<Vec<Slot>, TraceError>)
    ensures
        match r {
            Ok(v) => slots_from(svg@, 0) == Some(pairs(v@)) && in_order(
                pairs(v@),
                0,
                svg@.len() as int,
            ),
            Err(e) => slots_from(svg@, 0) is None && e is UnparseableSvg,
        },
{
    let open = text::chars_of("d=\"");
    let quote = text::chars_of("\"");
    proof {
        reveal_strlit("d=\"");
        reveal_strlit("\"");
    }
    let n: usize = svg.len();
    let mut out: Vec<Slot> = Vec::new();
    let mut at: usize = 0;
    loop
        invariant
            n == svg@.len(),
            at <= n,
            open@ == "d=\""@,
            open@.len() == 3,
            quote@ == "\""@,
            quote@.len() == 1,
            in_order(pairs(out@), 0, at as int),
            slots_from(svg@, 0) == (match slots_from(svg@, at as int) {
                None => None,
                Some(rest) => Some(pairs(out@) + rest),
            }),
        decreases n - at,
    {
        let k: usize = match emit::find_free(svg, &open, at) {
            None => {
                assert(pairs(out@) + Seq::<(int, int)>::empty() =~= pairs(out@));
                return Ok(out);
            },
            Some(k) => k,
        };
        let e: usize = match text::find(svg, &quote, k + 3) {
            None => {
                return Err(TraceError::UnparseableSvg);
            },
            Some(e) => e,
        };
        let ghost before = pairs(out@);
        out.push(Slot { start: k + 3, end: e });
        proof {
            let one = seq![(k + 3, e as int)];
            assert(pairs(out@) =~= before + one);
            match slots_from(svg@, e as int) {
                None => {},
                Some(rest) => {
                    assert(before + (one + rest) =~= (before + one) + rest);
                },
            }
        }
        at = e;
    }
}

/// The views of some texts.
pub open spec fn views(v: Seq<String>) -> Seq<Seq<char>> {
    Seq::new(v.len(), |i: int| v[i]@)
}

/// Replaces each slot by the text for it.
pub fn fill_slots(svg: &Vec<char>, slots: &Vec<Slot>, texts: &Vec<String>) -> (r: String)
    requires
        in_order(pairs(slots@), 0, svg@.len() as int),
        texts@.len() == slots@.len(),
    ensures
        r@ == filled(svg@, pairs(slots@), views(texts@), 0, 0),
{
    let ghost ps = pairs(slots@);
    let ghost ts = views(texts@);
    let mut out: Vec<char> = Vec::new();
    let mut at: usize = 0;
    let mut i: usize = 0;
    while i < slots.len()
        invariant
            ps == pairs(slots@),
            ts == views(texts@),
            in_order(ps, 0, svg@.len() as int),
            texts@.len() == slots@.len(),
            i <= slots@.len(),
            at <= svg@.len(),
            i < slots@.len() ==> at <= slots@[i as int].start,
            out@ + filled(svg@, ps, ts, i as int, at as int) == filled(svg@, ps, ts, 0, 0),
        decreases slots@.len() - i,
    {
        let s = slots[i];
        assert(ps[i as int] == (s.start as int, s.end as int));
        let lead = text::part(svg, at, s.start);
        let body = text::chars_of(texts[i].as_str());
        let ghost before = out@;
        text::extend(&mut out, &lead);
        text::extend(&mut out, &body);
        proof {
            let rest = filled(svg@, ps, ts, i + 1, s.end as int);
            assert(ts[i as int] == body@);
            assert(out@ + rest =~= before + (lead@ + body@ + rest));
            if i + 1 < slots@.len() {
                assert(ps[i as int].1 <= ps[i + 1].0);
            }
        }
        at = s.end;
        i = i + 1;
    }
    let tail = text::part(svg, at, svg.len());
    text::extend(&mut out, &tail);
    text::string_of(&out)
}

/// What each of some paths is simplified to.
pub open spec fn simplified_texts(paths: Seq<Vec<PathOp>>, p: Simplifier) -> Seq<Seq<char>> {
    Seq::new(
        paths.len(),
        |i: int|
            simplify::path_text(
                simplify::all_simplified(simplify::parsed(paths[i]@), p),
                simplify::parsed(paths[i]@).len() as int,
            ),
    )
}

/// Simplifies the outlines of a document; `paths` are what its slots hold.
pub fn simplify_outlines(svg: &Vec<char>, slots: &Vec<Slot>, paths: &Vec<Vec<PathOp>>, p: &Simplifier) -> (r:
    String)
    requires
        in_order(pairs(slots@), 0, svg@.len() as int),
        paths@.len() == slots@.len(),
        forall|i: int, j: int|
            0 <= i < paths@.len() && 0 <= j < paths@[i]@.len() ==> simplify::op_ok(
                #[trigger] paths@[i]@[j],
            ),
        simplify::simplifier_ok(*p),
    ensures
        r@ == filled(svg@, pairs(slots@), simplified_texts(paths@, *p), 0, 0),
{
    let mut texts: Vec<String> = Vec::new();
    let mut i: usize = 0;
    while i < paths.len()
        invariant
            i <= paths@.len(),
            forall|i: int, j: int|
                0 <= i < paths@.len() && 0 <= j < paths@[i]@.len() ==> simplify::op_ok(
                    #[trigger] paths@[i]@[j],
                ),
            simplify::simplifier_ok(*p),
            texts@.len() == i,
            forall|k: int| 0 <= k < i ==> (#[trigger] texts@[k])@ == simplified_texts(paths@, *p)[k],
        decreases paths@.len() - i,
    {
        texts.push(simplify::simplify_path(&paths[i], p));
        i = i + 1;
    }
    assert(views(texts@) =~= simplified_texts(paths@, *p));
    fill_slots(svg, slots, &texts)
}

/// Filling each slot with what stands there gives the document back.
pub proof fn own_data_fills_back(s: Seq<char>, slots: Seq<(int, int)>, texts: Seq<Seq<char>>, n: int, i: int)
    requires
        in_order(slots, 0, s.len() as int),
        texts.len() == slots.len(),
        forall|k: int|
            0 <= k < slots.len() ==> #[trigger] texts[k] == s.subrange(slots[k].0, slots[k].1),
        0 <= n <= slots.len(),
        0 <= i <= s.len(),
        n < slots.len() ==> i <= slots[n].0,
    ensures
        filled(s, slots, texts, n, i) == s.subrange(i, s.len() as int),
    decreases slots.len() - n,
{
    if n < slots.len() {
        assert(slots[n].0 <= slots[n].1 <= s.len());
        if n + 1 < slots.len() {
            assert(slots[n].1 <= slots[n + 1].0);
        }
        own_data_fills_back(s, slots, texts, n + 1, slots[n].1);
        assert(texts[n] == s.subrange(slots[n].0, slots[n].1));
        assert(s.subrange(i, slots[n].0) + s.subrange(slots[n].0, slots[n].1) + s.subrange(
            slots[n].1,
            s.len() as int,
        ) =~= s.subrange(i, s.len() as int));
    }
}

// ---- what is traced -----------------------------------------------------------------

/// A two-tone crop is black where the sheet's luma is at least thirty-two levels
/// from the background's, and white elsewhere, and opaque throughout.
pub proof fn two_tones_tell_ink_from_ground(sheet: SheetRaster, b: Bbox, bg: Seq<u8>, out: Seq<u8>, x: int, y: int)
    requires
        sheet.wf(),
        b.fits(sheet.width as int, sheet.height as int),
        bg.len() == 4,
        is_two_tone(sheet, b, raster::luma_of(bg[0], bg[1], bg[2]) as int, out),
        0 <= x < b.w,
        0 <= y < b.h,
    ensures
        ({
            let k = (b.y + y) * sheet.width + (b.x + x);
            let there = 299 * sheet.rgba@[4 * k] + 587 * sheet.rgba@[4 * k + 1] + 114 * sheet.rgba@[4 * k + 2];
            let ground = 299 * bg[0] + 587 * bg[1] + 114 * bg[2];
            let at = 4 * (y * b.w + x);
            &&& out[at + 3] == 255
            &&& out[at] == out[at + 1] == out[at + 2]
            &&& out[at] == 0 || out[at] == 255
            &&& (out[at] == 0) == (there - ground >= 32_000 || ground - there >= 32_000)
        }),
{
    let k = mask::pixel_at(sheet.width as int, b.x + x, b.y + y);
    mask::lemma_pixel_in(sheet.width as int, sheet.height as int, b.x + x, b.y + y);
    let w = b.w as int;
    assert(out[raster::channel_at(w, x, y, 0)] == tone(
        sheet.luma@[k] as int,
        raster::luma_of(bg[0], bg[1], bg[2]) as int,
    ));
    assert(out[raster::channel_at(w, x, y, 1)] == out[raster::channel_at(w, x, y, 0)]);
    assert(out[raster::channel_at(w, x, y, 2)] == out[raster::channel_at(w, x, y, 0)]);
    assert(out[raster::channel_at(w, x, y, 3)] == 255);
}

proof fn topmost_paint(layers: Seq<Layer>, bg: Seq<u8>, n: int, x: int, y: int, t: int)
    requires
        0 <= t < n <= layers.len(),
        layers[t].mask.ink(x, y),
        forall|j: int| t < j < n ==> !(#[trigger] layers[j]).mask.ink(x, y),
    ensures
        paint_at(layers, bg, n, x, y) == layers[t].rgba@,
    decreases n,
{
    if t < n - 1 {
        assert(!layers[n - 1].mask.ink(x, y));
        topmost_paint(layers, bg, n - 1, x, y, t);
    }
}

proof fn no_paint(layers: Seq<Layer>, bg: Seq<u8>, n: int, x: int, y: int)
    requires
        n <= layers.len(),
        forall|j: int| 0 <= j < n ==> !(#[trigger] layers[j]).mask.ink(x, y),
    ensures
        paint_at(layers, bg, n, x, y) == bg,
    decreases n,
{
    if n > 0 {
        assert(!layers[n - 1].mask.ink(x, y));
        no_paint(layers, bg, n - 1, x, y);
    }
}

/// A composed pixel has the colour of the topmost layer that inks it, and that of
/// the background where none does.
pub proof fn topmost_layer_shows(
    layers: Seq<Layer>,
    w: int,
    h: int,
    bg: Seq<u8>,
    out: Seq<u8>,
    x: int,
    y: int,
    c: int,
    t: int,
)
    requires
        is_composed(layers, w, h, bg, out),
        0 <= x < w,
        0 <= y < h,
        0 <= c < 4,
    ensures
        0 <= t < layers.len() && layers[t].mask.ink(x, y) && (forall|j: int|
            t < j < layers.len() ==> !(#[trigger] layers[j]).mask.ink(x, y)) ==> out[4 * (y * w + x) + c]
            == layers[t].rgba@[c],
        (forall|j: int| 0 <= j < layers.len() ==> !(#[trigger] layers[j]).mask.ink(x, y)) ==> out[4 * (y * w + x) + c]
            == bg[c],
{
    let n = layers.len() as int;
    assert(out[raster::channel_at(w, x, y, c)] == paint_at(layers, bg, n, x, y)[c]);
    if 0 <= t < n && layers[t].mask.ink(x, y) && (forall|j: int|
        t < j < n ==> !(#[trigger] layers[j]).mask.ink(x, y)) {
        topmost_paint(layers, bg, n, x, y, t);
    }
    if forall|j: int| 0 <= j < n ==> !(#[trigger] layers[j]).mask.ink(x, y) {
        no_paint(layers, bg, n, x, y);
    }
}

/// A slot is the value of a `d` attribute: `d="` stands before it, a quote behind it
/// and none inside; and the name is not the end of a longer one.
pub proof fn slots_are_path_data(s: Seq<char>, i: int, slots: Seq<(int, int)>, n: int)
    requires
        0 <= i <= s.len(),
        slots_from(s, i) == Some(slots),
        0 <= n < slots.len(),
    ensures
        ({
            let (a, b) = slots[n];
            &&& i + 3 <= a <= b < s.len()
            &&& s[a - 3] == 'd' && s[a - 2] == '=' && s[a - 1] == '"'
            &&& s[b] == '"'
            &&& forall|k: int| a <= k < b ==> #[trigger] s[k] != '"'
            &&& a > 3 ==> s[a - 4] != '-' && !('a' <= s[a - 4] <= 'z') && !('A' <= s[a - 4] <= 'Z') && !('0' <= s[a
                - 4] <= '9')
        }),
    decreases n,
{
    let needle = "d=\""@;
    let quote = "\""@;
    reveal_strlit("d=\"");
    reveal_strlit("\"");
    emit::free_is_first(s, needle, i);
    let a = emit::first_free(s, needle, i)->0 + 3;
    text::found_stands(s, quote, a);
    let b = text::find_from(s, quote, a)->0;
    let rest = slots_from(s, b)->0;
    assert(slots == seq![(a, b)] + rest);
    if n == 0 {
        assert(slots[0] == (a, b));
        assert(emit::stands_free(s, needle, a - 3));
        let head = s.subrange(a - 3, a - 3 + needle.len());
        assert(head == needle);
        assert(head[0] == s[a - 3] && head[1] == s[a - 2] && head[2] == s[a - 1]);
        assert(text::matches_at(s, quote, b));
        assert(s.subrange(b, b + 1)[0] == s[b]);
        assert forall|k: int| a <= k < b implies #[trigger] s[k] != '"' by {
            assert(!text::matches_at(s, quote, k));
            if s[k] == '"' {
                assert(s.subrange(k, k + 1) =~= quote);
            }
        }
    } else {
        assert(slots[n] == rest[n - 1]);
        slots_are_path_data(s, b, rest, n - 1);
    }
}

} // verus!
