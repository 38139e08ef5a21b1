//! From traced outlines to a scored icon, and what the cache makes of it.
use vstd::prelude::*;
use crate::background::BackgroundModel;
use crate::emit;
use crate::emit::{EmitError, IconVectors};
use crate::error;
use crate::error::IsgError;
use crate::geometry::Bbox;
use crate::profiles;
use crate::profiles::TracePreset;
use crate::raster::SheetRaster;
use crate::score;
use crate::score::{Score, ScoreError};
use crate::trace;
use crate::trace::TraceError;

verus! {

/// A finished icon.
#[derive(Clone, Debug, PartialEq, Eq)]
pub struct ScoredIcon {
    /// The document.
    pub svg: String,
    /// The palette, in paint order.
    pub palette: Vec<[u8; 4]>,
    /// How well the document shows the crop.
    pub score: Score,
}

/// Why an icon could not be finished.
#[derive(Clone, Debug, PartialEq, Eq)]
pub enum VectorizeError {
    /// Tracing failed.
    Trace(TraceError),
    /// No document could be made.
    Emit(EmitError),
    /// The document could not be scored.
    Score(ScoreError),
    /// The cache failed.
    Cache(IsgError),
    /// The icon could not be written down.
    Json(String),
}

/// The message of an error.
pub open spec fn message_of(e: VectorizeError) -> Seq<char> {
    match e {
        VectorizeError::Trace(e) => "trace failed: "@ + trace::message_of(e),
        VectorizeError::Emit(e) => "emit failed: "@ + emit::message_of(e),
        VectorizeError::Score(e) => "score failed: "@ + score::message_of(e),
        VectorizeError::Cache(e) => "cache failed: "@ + error::message_of(e),
        VectorizeError::Json(e) => "payload serialization failed: "@ + e@,
    }
}

fn joined(a: &str, b: &str) -> (r: String)
    ensures
        r@ == a@ + b@,
{
    let mut s = String::from_str(a);
    s.append(b);
    s
}

impl VectorizeError {
    /// The error as text.
    pub fn message(&self) -> (r: String)
        ensures
            r@ == message_of(*self),
    {
        match self {
            VectorizeError::Trace(e) => joined("trace failed: ", e.message().as_str()),
            VectorizeError::Emit(e) => joined("emit failed: ", e.message().as_str()),
            VectorizeError::Score(e) => joined("score failed: ", e.message().as_str()),
            VectorizeError::Cache(e) => joined("cache failed: ", e.message().as_str()),
            VectorizeError::Json(e) => joined("payload serialization failed: ", e.as_str()),
        }
    }
}

impl From<TraceError> for VectorizeError {
    fn from(e: TraceError) -> (r: Self) {
        VectorizeError::Trace(e)
    }
}

impl vstd::std_specs::convert::FromSpecImpl<TraceError> for VectorizeError {
    open spec fn obeys_from_spec() -> bool {
        true
    }

    open spec fn from_spec(e: TraceError) -> Self {
        VectorizeError::Trace(e)
    }
}

impl From<EmitError> for VectorizeError {
    fn from(e: EmitError) -> (r: Self) {
        VectorizeError::Emit(e)
    }
}

impl vstd::std_specs::convert::FromSpecImpl<EmitError> for VectorizeError {
    open spec fn obeys_from_spec() -> bool {
        true
    }

    open spec fn from_spec(e: EmitError) -> Self {
        VectorizeError::Emit(e)
    }
}

impl From<ScoreError> for VectorizeError {
    fn from(e: ScoreError) -> (r: Self) {
        VectorizeError::Score(e)
    }
}

impl vstd::std_specs::convert::FromSpecImpl<ScoreError> for VectorizeError {
    open spec fn obeys_from_spec() -> bool {
        true
    }

    open spec fn from_spec(e: ScoreError) -> Self {
        VectorizeError::Score(e)
    }
}

impl From<IsgError> for VectorizeError {
    fn from(e: IsgError) -> (r: Self) {
        VectorizeError::Cache(e)
    }
}

impl vstd::std_specs::convert::FromSpecImpl<IsgError> for VectorizeError {
    open spec fn obeys_from_spec() -> bool {
        true
    }

    open spec fn from_spec(e: IsgError) -> Self {
        VectorizeError::Cache(e)
    }
}

/// `r` is what scoring a document gives.
pub open spec fn is_scored_document(
    sheet: SheetRaster,
    b: Bbox,
    bg: Seq<u8>,
    v: IconVectors,
    doc: String,
    crop: Seq<u8>,
    verdict: Result<Score, ScoreError>,
    r: Result<ScoredIcon, VectorizeError>,
) -> bool {
    &&& sheet.is_crop(b, crop)
    &&& score::is_scoring(doc@, crop, bg, b.w, b.h, verdict)
    &&& match verdict {
        Err(e) => r == Err::<ScoredIcon, VectorizeError>(VectorizeError::Score(e)),
        Ok(s) => match r {
            Ok(icon) => icon.svg == doc && icon.palette == v.palette && icon.score == s,
            Err(_) => false,
        },
    }
}

/// `r` is what emitting and scoring traced outlines gives.
pub open spec fn is_finished(
    sheet: SheetRaster,
    b: Bbox,
    bg: Seq<u8>,
    p: TracePreset,
    v: IconVectors,
    doc: Result<String, EmitError>,
    r: Result<ScoredIcon, VectorizeError>,
) -> bool {
    &&& emit::is_emitted(
        v,
        b.w,
        b.h,
        profiles::name_of(p),
        p == TracePreset::Wireframe,
        doc,
    )
    &&& match doc {
        Err(e) => r == Err::<ScoredIcon, VectorizeError>(VectorizeError::Emit(e)),
        Ok(d) => exists|crop: Seq<u8>, verdict: Result<Score, ScoreError>| #[trigger]
            is_scored_document(sheet, b, bg, v, d, crop, verdict, r),
    }
}

/// Emits and scores what tracing an icon gave. `vectors` are the traced and
/// simplified outlines, or the reason why there are none.
pub fn vectorize_scored(
    sheet: &SheetRaster,
    bbox: Bbox,
    bg: &BackgroundModel,
    preset: TracePreset,
    vectors: Result<IconVectors, TraceError>,
) -> (r: Result<ScoredIcon, VectorizeError>)
    requires
        sheet.wf(),
        vectors is Ok ==> trace::box_verdict(*sheet, bbox) is None,
    ensures
        match vectors {
            Err(e) => r == Err::<ScoredIcon, VectorizeError>(VectorizeError::Trace(e)),
            Ok(v) => exists|doc: Result<String, EmitError>| #[trigger]
                is_finished(*sheet, bbox, bg.rgba@, preset, v, doc, r),
        },
{
    let v = match vectors {
        Err(e) => {
            return Err(VectorizeError::from(e));
        },
        Ok(v) => v,
    };
    let ghost v0 = v;
    proof {
        assert(bbox.w * bbox.h <= sheet.width * sheet.height) by (nonlinear_arith)
            requires
                0 <= bbox.w <= sheet.width,
                0 <= bbox.h <= sheet.height,
        ;
    }
    let prof = profiles::profile(preset);
    let doc = emit::emit_svg(&v, bbox.w, bbox.h, prof.doc_name, prof.stroke_only);
    let ghost emitted = doc;
    match doc {
        Err(e) => {
            let r = Err(VectorizeError::from(e));
            assert(is_finished(*sheet, bbox, bg.rgba@, preset, v0, emitted, r));
            r
        },
        Ok(d) => {
            let crop = sheet.crop_rgba(bbox);
            let verdict = score::score_svg(d.as_str(), crop.as_slice(), &bg.rgba, bbox.w, bbox.h);
            let ghost scored = verdict;
            let r = match verdict {
                Err(e) => Err(VectorizeError::from(e)),
                Ok(s) => Ok(ScoredIcon { svg: d, palette: v.palette, score: s }),
            };
            assert(is_scored_document(*sheet, bbox, bg.rgba@, v0, d, crop@, scored, r));
            assert(is_finished(*sheet, bbox, bg.rgba@, preset, v0, emitted, r));
            r
        },
    }
}

/// What the cache holds for an icon.
#[derive(Clone, Debug, PartialEq, Eq)]
pub enum CacheLookup {
    /// Nothing.
    Missing,
    /// Bytes that are no icon.
    Corrupt,
    /// The icon.
    Found(ScoredIcon),
}

/// What to do about an icon.
#[derive(Clone, Debug, PartialEq, Eq)]
pub enum CacheStep {
    /// Serve it from the cache.
    Serve(ScoredIcon),
    /// Make it and store it.
    Compute,
}

/// Serves what the cache holds. Bytes that are no icon count as a miss: the icon
/// is made again and stored over them.
pub fn cache_step(found: CacheLookup) -> (r: CacheStep)
    ensures
        match found {
            CacheLookup::Found(icon) => r == CacheStep::Serve(icon),
            CacheLookup::Missing => r is Compute,
            CacheLookup::Corrupt => r is Compute,
        },
{
    match found {
        CacheLookup::Found(icon) => CacheStep::Serve(icon),
        CacheLookup::Missing => CacheStep::Compute,
        CacheLookup::Corrupt => CacheStep::Compute,
    }
}

} // verus!
