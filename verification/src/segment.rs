//! Segmentation: from an encoded sheet to a cleaned foreground mask.
//!
//! The colour judgement between the two halves is perceptual and stands outside:
//! `prepare` yields the sheet and its background, the caller flags the pixels
//! whose colour is far from it, and `segment` does the rest.
use vstd::prelude::*;
use vstd::string::StringExecFns;
use crate::background;
use crate::background::{BackgroundModel, SegParams};
use crate::clean;
use crate::error::IsgError;
use crate::mask;
use crate::mask::ForegroundMask;
use crate::normalize;
use crate::raster::SheetRaster;

verus! {

/// A segmented sheet.
#[derive(Clone, Debug, PartialEq, Eq)]
pub struct SegOutput {
    /// The normalized sheet.
    pub sheet: SheetRaster,
    /// The cleaned foreground mask.
    pub mask: ForegroundMask,
    /// The detected background.
    pub background: BackgroundModel,
}

/// `r` is the sheet of a file and its background.
pub open spec fn is_prepared(bytes: Seq<u8>, max_dim: u32, p: SegParams, r: Result<(SheetRaster, BackgroundModel), IsgError>) -> bool {
    exists|n: Result<SheetRaster, IsgError>| #[trigger]
        normalize::is_normalized(bytes, max_dim, n) && match n {
            Err(e) => r == Err::<(SheetRaster, BackgroundModel), IsgError>(e),
            Ok(sheet) => if sheet.width == 0 || sheet.height == 0 {
                match r {
                    Err(IsgError::Corrupt(m)) => m@ == "empty sheet"@,
                    _ => false,
                }
            } else {
                match r {
                    Ok((s, bg)) => s == sheet && background::is_background(sheet, p, bg),
                    Err(_) => false,
                }
            },
        }
}

/// Decodes a sheet and detects its background.
pub fn prepare(bytes: &[u8], max_dim: u32, params: &SegParams) -> (r: Result<(SheetRaster, BackgroundModel), IsgError>)
    ensures
        is_prepared(bytes@, max_dim, *params, r),
        match r {
            Ok((s, bg)) => background::sheet_ok(s) && background::model_ok(bg),
            Err(_) => true,
        },
{
    let n = normalize::normalize(bytes, max_dim);
    let ghost g = n;
    assert(normalize::is_normalized(bytes@, max_dim, g));
    match n {
        Err(e) => Err(e),
        Ok(sheet) => {
            if sheet.width == 0 || sheet.height == 0 {
                return Err(IsgError::Corrupt(String::from_str("empty sheet")));
            }
            proof {
                sheet_is_wf(bytes@, max_dim, g);
            }
            let bg = background::detect_background(&sheet, params);
            Ok((sheet, bg))
        },
    }
}

/// A normalized sheet is well formed.
proof fn sheet_is_wf(bytes: Seq<u8>, max_dim: u32, r: Result<SheetRaster, IsgError>)
    requires
        normalize::is_normalized(bytes, max_dim, r),
    ensures
        r is Ok ==> (r->Ok_0).wf(),
{
}

/// `m` is the cleaned mask of the sheet.
pub open spec fn is_segmented(sheet: SheetRaster, bg: BackgroundModel, far: Seq<bool>, p: SegParams, m: ForegroundMask) -> bool {
    exists|raw: ForegroundMask| #[trigger]
        background::is_mask_of(sheet, bg.kind, p, far, raw) && clean::is_result(
            raw,
            m,
            clean::cleaned(
                raw.width as int,
                raw.height as int,
                clean::plane_of(raw),
                p.close_passes as nat,
            ),
        )
}

/// Builds and cleans the mask. `far` flags the pixels whose colour is far from
/// the background.
pub fn segment(sheet: SheetRaster, background: BackgroundModel, far: &Vec<bool>, params: &SegParams) -> (r: SegOutput)
    requires
        sheet.wf(),
        far@.len() == sheet.width * sheet.height,
    ensures
        r.sheet == sheet,
        r.background == background,
        is_segmented(sheet, background, far@, *params, r.mask),
        r.mask.wf(),
        r.mask.width == sheet.width,
        r.mask.height == sheet.height,
{
    let raw = background::build_mask(&sheet, &background, params, far);
    let mask = clean::clean(&raw, params.close_passes);
    assert(background::is_mask_of(sheet, background.kind, *params, far@, raw));
    SegOutput { sheet, mask, background }
}

/// A sheet has one cleaned mask under given parameters.
pub proof fn segmentation_is_determined(
    sheet: SheetRaster,
    bg: BackgroundModel,
    far: Seq<bool>,
    p: SegParams,
    a: ForegroundMask,
    b: ForegroundMask,
)
    requires
        is_segmented(sheet, bg, far, p, a),
        is_segmented(sheet, bg, far, p, b),
    ensures
        a.width == b.width,
        a.height == b.height,
        a.bits@ == b.bits@,
{
    let raw1 = choose|raw: ForegroundMask| #[trigger]
        background::is_mask_of(sheet, bg.kind, p, far, raw) && clean::is_result(
            raw,
            a,
            clean::cleaned(
                raw.width as int,
                raw.height as int,
                clean::plane_of(raw),
                p.close_passes as nat,
            ),
        );
    let raw2 = choose|raw: ForegroundMask| #[trigger]
        background::is_mask_of(sheet, bg.kind, p, far, raw) && clean::is_result(
            raw,
            b,
            clean::cleaned(
                raw.width as int,
                raw.height as int,
                clean::plane_of(raw),
                p.close_passes as nat,
            ),
        );
    background::mask_is_determined(sheet, bg.kind, p, far, raw1, raw2);
    assert(clean::plane_of(raw1) =~= clean::plane_of(raw2));
    mask::same_ink_same_mask(a, b);
}

} // verus!
