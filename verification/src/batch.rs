//! A batch over one sheet: its icons, their names, and the summary of a run.
//!
//! An icon that cannot be finished is counted and never stops the run; only a
//! cancellation or the surroundings do.
use vstd::prelude::*;
use crate::background;
use crate::background::{BackgroundModel, SegParams};
use crate::cluster;
use crate::counting;
use crate::digest;
use crate::dupes::FULL;
use crate::error;
use crate::error::IsgError;
use crate::geometry::{Bbox, IconGroup};
use crate::group;
use crate::group::RleCclGrouper;
use crate::mask::ForegroundMask;
use crate::maskcache;
use crate::merge;
use crate::merge::RefineParams;
use crate::profiles;
use crate::profiles::TracePreset;
use crate::refine;
use crate::refine::RefineStats;
use crate::score::Score;
use crate::split;
use crate::vectorize;
use crate::vectorize::{CacheLookup, CacheStep, ScoredIcon, VectorizeError};

verus! {

/// Configuration of a run.
#[derive(Clone, Copy, Debug, PartialEq, Eq)]
pub struct BatchOptions {
    /// The preset for every icon.
    pub preset: TracePreset,
    /// Segmentation.
    pub seg: SegParams,
    /// Largest side of the normalized sheet.
    pub max_dim: u32,
    /// Components with less ink are dropped.
    pub min_area: u32,
    /// Refinement; off by default.
    pub refine: RefineParams,
}

impl Default for BatchOptions {
    fn default() -> (r: Self)
        ensures
            r.preset == TracePreset::Balanced,
            r.seg == (SegParams {
                border_share_min: 850,
                delta_e_max: 12_000,
                alpha_ink_min: 128,
                close_passes: 1,
            }),
            r.max_dim == 4096,
            r.min_area == 16,
            r.refine == merge::default_refine_params(),
    {
        BatchOptions {
            preset: TracePreset::Balanced,
            seg: SegParams::default(),
            max_dim: 4096,
            min_area: 16,
            refine: RefineParams::default(),
        }
    }
}

/// The sheet that a run is for.
#[derive(Clone, Debug, PartialEq, Eq)]
pub struct SheetRef {
    /// Its id.
    pub id: [u8; 16],
    /// The hash of its bytes, in hexadecimal.
    pub content_hash: String,
}

/// Why a run stopped.
#[derive(Clone, Debug, PartialEq, Eq)]
pub enum BatchError {
    /// It was cancelled.
    Cancelled,
    /// The sheet could not be segmented.
    Segment(IsgError),
    /// No project is open.
    NoProject,
    /// The library cannot be used.
    Library(String),
}

/// The message of an error.
pub open spec fn message_of(e: BatchError) -> Seq<char> {
    match e {
        BatchError::Cancelled => "cancelled"@,
        BatchError::Segment(e) => "segmentation failed: "@ + error::message_of(e),
        BatchError::NoProject => "no project is open"@,
        BatchError::Library(m) => "library unavailable: "@ + m@,
    }
}

impl BatchError {
    /// The error as text.
    pub fn message(&self) -> (r: String)
        ensures
            r@ == message_of(*self),
    {
        match self {
            BatchError::Cancelled => String::from_str("cancelled"),
            BatchError::Segment(e) => {
                let mut s = String::from_str("segmentation failed: ");
                s.append(e.message().as_str());
                s
            },
            BatchError::NoProject => String::from_str("no project is open"),
            BatchError::Library(m) => {
                let mut s = String::from_str("library unavailable: ");
                s.append(m.as_str());
                s
            },
        }
    }
}

/// The summary of a run; scores in billionths. It holds no times, so that two
/// runs can be compared.
#[derive(Clone, Copy, Debug, PartialEq, Eq, Structural)]
pub struct BatchSummary {
    /// Icons that were found.
    pub icons: u32,
    /// Icons that were finished.
    pub ok: u32,
    /// Icons that were not.
    pub failed: u32,
    /// Finished icons that came out of the cache.
    pub cache_hits: u32,
    /// The least similarity; full where no icon was finished.
    pub min_ssim: i64,
    /// The least blend; full where no icon was finished.
    pub min_composite: i64,
    /// The mean blend, rounded down; full where no icon was finished.
    pub mean_composite: i64,
    /// The most memory that was seen in use.
    pub peak_rss_bytes: u64,
}

/// One finished icon.
#[derive(Clone, Debug, PartialEq, Eq)]
pub struct ItemResult {
    /// Where it is.
    pub bbox: Bbox,
    /// The icon.
    pub icon: ScoredIcon,
    /// The key that it is cached under.
    pub cache_key: String,
    /// It came out of the cache.
    pub hit: bool,
}

/// A row of the project's icon table.
#[derive(Clone, Debug, PartialEq, Eq)]
pub struct IconVectorRow {
    /// The icon's id.
    pub id: [u8; 16],
    /// Where it is.
    pub bbox: Bbox,
    /// The key of its document.
    pub svg_key: String,
    /// The name of the preset.
    pub preset: String,
    /// Mean absolute error.
    pub mae: i64,
    /// Similarity.
    pub ssim: i64,
    /// Overlap.
    pub iou: i64,
}

// ---- ids ----------------------------------------------------------------------------

/// The four bytes of a number, the least first.
pub open spec fn le_bytes(v: u32) -> Seq<u8> {
    seq![
        (v % 256) as u8,
        (v / 256 % 256) as u8,
        (v / 65536 % 256) as u8,
        (v / 16777216) as u8,
    ]
}

/// What an icon's id is the digest of.
pub open spec fn id_source(sheet_hash: Seq<char>, b: Bbox) -> Seq<u8> {
    maskcache::text_bytes(sheet_hash) + le_bytes(b.x) + le_bytes(b.y) + le_bytes(b.w) + le_bytes(b.h)
}

/// The id of an icon: the first half of a digest.
pub open spec fn is_icon_id(sheet_hash: Seq<char>, b: Bbox, id: Seq<u8>) -> bool {
    id == digest::digest_of(id_source(sheet_hash, b)).subrange(0, 16)
}

fn push_le(out: &mut Vec<u8>, v: u32)
    ensures
        final(out)@ == old(out)@ + le_bytes(v),
{
    out.push((v % 256) as u8);
    out.push((v / 256 % 256) as u8);
    out.push((v / 65536 % 256) as u8);
    out.push((v / 16777216) as u8);
    assert(out@ =~= old(out)@ + le_bytes(v));
}

/// The id of an icon. It depends on the sheet's hash and the box alone.
pub fn icon_id(sheet_hash_hex: &str, bbox: Bbox) -> (r: [u8; 16])
    ensures
        is_icon_id(sheet_hash_hex@, bbox, r@),
{
    let text = sheet_hash_hex.as_bytes();
    let mut buf: Vec<u8> = Vec::new();
    let mut i: usize = 0;
    while i < text.len()
        invariant
            i <= text@.len(),
            buf@ == text@.subrange(0, i as int),
        decreases text@.len() - i,
    {
        buf.push(text[i]);
        i = i + 1;
        assert(buf@ =~= text@.subrange(0, i as int));
    }
    assert(buf@ =~= text@);
    push_le(&mut buf, bbox.x);
    push_le(&mut buf, bbox.y);
    push_le(&mut buf, bbox.w);
    push_le(&mut buf, bbox.h);
    let d: [u8; 32] = digest::digest(buf.as_slice());
    let id: [u8; 16] = [
        d[0],
        d[1],
        d[2],
        d[3],
        d[4],
        d[5],
        d[6],
        d[7],
        d[8],
        d[9],
        d[10],
        d[11],
        d[12],
        d[13],
        d[14],
        d[15],
    ];
    assert(id@ =~= d@.subrange(0, 16));
    id
}

// ---- groups -------------------------------------------------------------------------

/// `out` are the icons of a segmented sheet.
pub open spec fn is_batch_grouping(
    m: ForegroundMask,
    bg: BackgroundModel,
    opts: BatchOptions,
    raw: Seq<IconGroup>,
    out: Seq<IconGroup>,
    stats: RefineStats,
) -> bool {
    &&& group::is_grouping(m, opts.min_area as int, raw)
    &&& refine::is_refined(raw, m, Some(bg), opts.refine, out, stats)
}

/// The refinement can be run on these components.
pub open spec fn can_refine(m: ForegroundMask, raw: int) -> bool {
    maskcache::has_room(m.width, m.height) && raw <= split::MAX_GROUPS
}

/// Finds the icons of a segmented sheet; `None` where the refinement is asked
/// for and the sheet is too large for it.
pub fn batch_groups(m: &ForegroundMask, bg: &BackgroundModel, opts: &BatchOptions) -> (r: Option<
    (Vec<IconGroup>, RefineStats),
>)
    requires
        m.wf(),
        background::model_ok(*bg),
        opts.refine.enabled ==> refine::refine_params_ok(opts.refine),
    ensures
        match r {
            Some(o) => exists|raw: Seq<IconGroup>| #[trigger]
                is_batch_grouping(*m, *bg, *opts, raw, o.0@, o.1) && (opts.refine.enabled
                    ==> can_refine(*m, raw.len() as int)),
            None => opts.refine.enabled && exists|raw: Seq<IconGroup>| #[trigger]
                group::is_grouping(*m, opts.min_area as int, raw) && !can_refine(
                    *m,
                    raw.len() as int,
                ),
        },
{
    let raw = RleCclGrouper { min_area: opts.min_area }.group_all(m);
    let ghost rs = raw@;
    let ghost w = m.width as int;
    let ghost h = m.height as int;
    proof {
        maskcache::groups_share_no_pixel(*m, opts.min_area as int, rs);
        assert((w + 2) * (h + 2) == w * h + 2 * w + 2 * h + 4) by (nonlinear_arith);
    }
    let frame: u64 = m.width as u64 * m.height as u64 + 2 * m.width as u64 + 2 * m.height as u64 + 4;
    if opts.refine.enabled && (frame > usize::MAX as u64 || raw.len() as u64 > split::MAX_GROUPS as u64) {
        assert(group::is_grouping(*m, opts.min_area as int, rs) && !can_refine(*m, rs.len() as int));
        return None;
    }
    let o = refine::refine_groups_with_context(raw, m, Some(bg), &opts.refine);
    let r = Some(o);
    assert(is_batch_grouping(*m, *bg, *opts, rs, (r->0).0@, (r->0).1));
    r
}

// ---- progress -----------------------------------------------------------------------

/// Icons between two reports of progress.
pub const PROGRESS_STEP: u64 = 16;

/// Whether progress is reported after `done` icons of `total`.
pub fn reports_progress(done: u64, total: u64) -> (r: bool)
    ensures
        r == (done % PROGRESS_STEP == 0 || done == total),
{
    done % PROGRESS_STEP == 0 || done == total
}

// ---- one icon -----------------------------------------------------------------------

/// What to do about an icon of the run.
#[derive(Clone, Debug, PartialEq, Eq)]
pub enum ItemStep {
    /// It is finished.
    Done(ItemResult),
    /// It has to be made, and stored under its key.
    Make,
}

/// `d` is an icon of the run with what the cache or the tracer gave for it.
pub open spec fn is_item(bbox: Bbox, key: Seq<char>, icon: ScoredIcon, hit: bool, d: ItemResult) -> bool {
    d.bbox == bbox && d.cache_key@ == key && d.icon == icon && d.hit == hit
}

/// Finishes an icon with what the cache holds; bytes that are no icon count as a
/// miss.
pub fn item_step(bbox: Bbox, cache_key: &str, found: CacheLookup) -> (r: ItemStep)
    ensures
        match found {
            CacheLookup::Found(icon) => r is Done && is_item(
                bbox,
                cache_key@,
                icon,
                true,
                r->Done_0,
            ),
            CacheLookup::Missing => r is Make,
            CacheLookup::Corrupt => r is Make,
        },
{
    match vectorize::cache_step(found) {
        CacheStep::Serve(icon) => ItemStep::Done(
            ItemResult { bbox, icon, cache_key: String::from_str(cache_key), hit: true },
        ),
        CacheStep::Compute => ItemStep::Make,
    }
}

/// Finishes an icon that was made, or hands on why it could not be.
pub fn made_item(bbox: Bbox, cache_key: &str, made: Result<ScoredIcon, VectorizeError>) -> (r: Result<
    ItemResult,
    VectorizeError,
>)
    ensures
        match made {
            Ok(icon) => r is Ok && is_item(bbox, cache_key@, icon, false, r->Ok_0),
            Err(e) => r == Err::<ItemResult, VectorizeError>(e),
        },
{
    match made {
        Ok(icon) => Ok(ItemResult { bbox, icon, cache_key: String::from_str(cache_key), hit: false }),
        Err(e) => Err(e),
    }
}

// ---- the summary --------------------------------------------------------------------

/// A cancellation was seen while working on an icon.
pub open spec fn is_cancellation(r: Result<ItemResult, VectorizeError>) -> bool {
    r is Err && r->Err_0 == VectorizeError::Cache(IsgError::Cancelled)
}

/// The finished ones of the first `n` icons.
pub open spec fn finished(items: Seq<Result<ItemResult, VectorizeError>>, n: int) -> Seq<ItemResult>
    decreases n,
{
    if n <= 0 {
        Seq::empty()
    } else {
        match items[n - 1] {
            Ok(r) => finished(items, n - 1).push(r),
            Err(_) => finished(items, n - 1),
        }
    }
}

/// How many of the first `n` came out of the cache.
pub open spec fn hits(done: Seq<ItemResult>, n: int) -> int
    decreases n,
{
    if n <= 0 {
        0
    } else {
        hits(done, n - 1) + (if done[n - 1].hit {
            1int
        } else {
            0int
        })
    }
}

/// The least similarity of the first `n`, and no more than full.
pub open spec fn least_ssim(done: Seq<ItemResult>, n: int) -> int
    decreases n,
{
    if n <= 0 {
        FULL as int
    } else {
        let v = done[n - 1].icon.score.ssim as int;
        let rest = least_ssim(done, n - 1);
        if v < rest {
            v
        } else {
            rest
        }
    }
}

/// The least blend of the first `n`, and no more than full.
pub open spec fn least_composite(done: Seq<ItemResult>, n: int) -> int
    decreases n,
{
    if n <= 0 {
        FULL as int
    } else {
        let v = done[n - 1].icon.score.composite as int;
        let rest = least_composite(done, n - 1);
        if v < rest {
            v
        } else {
            rest
        }
    }
}

/// The blends of the first `n` together.
pub open spec fn total_composite(done: Seq<ItemResult>, n: int) -> int
    decreases n,
{
    if n <= 0 {
        0
    } else {
        total_composite(done, n - 1) + done[n - 1].icon.score.composite
    }
}

/// The summary of a run.
pub open spec fn is_summary(items: Seq<Result<ItemResult, VectorizeError>>, peak: u64, s: BatchSummary) -> bool {
    let done = finished(items, items.len() as int);
    let n = done.len() as int;
    &&& s.icons == items.len()
    &&& s.ok == n
    &&& s.failed == items.len() - n
    &&& s.cache_hits == hits(done, n)
    &&& s.min_ssim == least_ssim(done, n)
    &&& s.min_composite == least_composite(done, n)
    &&& s.mean_composite == (if n == 0 {
        FULL as int
    } else {
        total_composite(done, n) / n
    })
    &&& s.peak_rss_bytes == peak
}

/// The row of a finished icon.
pub open spec fn is_row(d: ItemResult, sheet: SheetRef, preset: TracePreset, row: IconVectorRow) -> bool {
    &&& is_icon_id(sheet.content_hash@, d.bbox, row.id@)
    &&& row.bbox == d.bbox
    &&& row.svg_key@ == d.cache_key@
    &&& row.preset@ == profiles::name_of(preset)
    &&& row.mae == d.icon.score.mae
    &&& row.ssim == d.icon.score.ssim
    &&& row.iou == d.icon.score.iou
}

/// The rows of a run: one for each finished icon, in order; none where no sheet
/// is named.
pub open spec fn are_rows(
    done: Seq<ItemResult>,
    sheet: Option<SheetRef>,
    preset: TracePreset,
    rows: Seq<IconVectorRow>,
) -> bool {
    match sheet {
        None => rows.len() == 0,
        Some(s) => rows.len() == done.len() && forall|i: int|
            0 <= i < rows.len() ==> is_row(done[i], s, preset, #[trigger] rows[i]),
    }
}

/// A run that was cancelled has no summary.
pub open spec fn was_cancelled(items: Seq<Result<ItemResult, VectorizeError>>, cancelled: bool) -> bool {
    cancelled || exists|i: int| 0 <= i < items.len() && is_cancellation(#[trigger] items[i])
}

fn row_of(d: &ItemResult, sheet: &SheetRef, preset: TracePreset) -> (r: IconVectorRow)
    ensures
        is_row(*d, *sheet, preset, r),
{
    IconVectorRow {
        id: icon_id(sheet.content_hash.as_str(), d.bbox),
        bbox: d.bbox,
        svg_key: d.cache_key.clone(),
        preset: String::from_str(profiles::profile(preset).doc_name),
        mae: d.icon.score.mae,
        ssim: d.icon.score.ssim,
        iou: d.icon.score.iou,
    }
}

fn seen_cancelled(items: &Vec<Result<ItemResult, VectorizeError>>) -> (r: bool)
    ensures
        r == was_cancelled(items@, false),
{
    let mut i: usize = 0;
    while i < items.len()
        invariant
            i <= items@.len(),
            forall|k: int| 0 <= k < i ==> !is_cancellation(#[trigger] items@[k]),
        decreases items@.len() - i,
    {
        let gone = match &items[i] {
            Err(VectorizeError::Cache(IsgError::Cancelled)) => true,
            _ => false,
        };
        if gone {
            assert(is_cancellation(items@[i as int]));
            return true;
        }
        i = i + 1;
    }
    false
}

/// The mean, rounded down.
fn floor_mean(total: i128, n: u32) -> (r: i64)
    requires
        n > 0,
        i64::MIN * n <= total <= i64::MAX * n,
    ensures
        r == total as int / n as int,
{
    let m: i128 = n as i128;
    if total >= 0 {
        assert(0 <= total as int / m as int <= i64::MAX) by (nonlinear_arith)
            requires
                0 <= total <= i64::MAX * m,
                m > 0,
        ;
        (total / m) as i64
    } else {
        let down: i128 = (m - 1 - total) / m;
        assert(-down == total as int / m as int && i64::MIN <= -down <= 0) by (nonlinear_arith)
            requires
                down == (m - 1 - total) as int / m as int,
                i64::MIN * m <= total < 0,
                m > 0,
        ;
        (-down) as i64
    }
}

/// Sums up a run. `cancelled` says that the run was told to stop, which wins over
/// everything else; an icon that failed is counted.
pub fn summarise(
    items: &Vec<Result<ItemResult, VectorizeError>>,
    cancelled: bool,
    sheet: Option<&SheetRef>,
    preset: TracePreset,
    peak: u64,
) -> (r: Result<(BatchSummary, Vec<IconVectorRow>), BatchError>)
    requires
        items@.len() <= u32::MAX,
    ensures
        match r {
            Err(e) => was_cancelled(items@, cancelled) && e == BatchError::Cancelled,
            Ok(o) => !was_cancelled(items@, cancelled) && is_summary(items@, peak, o.0) && are_rows(
                finished(items@, items@.len() as int),
                match sheet {
                    Some(s) => Some(*s),
                    None => None,
                },
                preset,
                o.1@,
            ),
        },
{
    if cancelled || seen_cancelled(items) {
        return Err(BatchError::Cancelled);
    }
    let ghost sheet_value = match sheet {
        Some(s) => Some(*s),
        None => None,
    };
    let mut rows: Vec<IconVectorRow> = Vec::new();
    let mut ok: u32 = 0;
    let mut failed: u32 = 0;
    let mut cache_hits: u32 = 0;
    let mut min_ssim: i64 = FULL;
    let mut min_composite: i64 = FULL;
    let mut sum: i128 = 0;
    let mut i: usize = 0;
    let ghost mut done: Seq<ItemResult> = Seq::empty();
    while i < items.len()
        invariant
            i <= items@.len() <= u32::MAX,
            sheet_value == (match sheet {
                Some(s) => Some(*s),
                None => None,
            }),
            done == finished(items@, i as int),
            ok == done.len(),
            ok + failed == i,
            cache_hits == hits(done, ok as int),
            cache_hits <= ok,
            min_ssim == least_ssim(done, ok as int),
            min_composite == least_composite(done, ok as int),
            sum == total_composite(done, ok as int),
            i64::MIN * ok <= sum <= i64::MAX * ok,
            are_rows(done, sheet_value, preset, rows@),
        decreases items@.len() - i,
    {
        match &items[i] {
            Err(_) => {
                failed = failed + 1;
            },
            Ok(d) => {
                let ghost before = done;
                proof {
                    done = done.push(*d);
                    tallies_push(before, *d, before.len() as int);
                }
                ok = ok + 1;
                if d.hit {
                    cache_hits = cache_hits + 1;
                }
                if d.icon.score.ssim < min_ssim {
                    min_ssim = d.icon.score.ssim;
                }
                if d.icon.score.composite < min_composite {
                    min_composite = d.icon.score.composite;
                }
                sum = sum + d.icon.score.composite as i128;
                if let Some(s) = sheet {
                    let ghost rows0 = rows@;
                    rows.push(row_of(d, s, preset));
                    assert forall|k: int| 0 <= k < rows@.len() implies is_row(
                        done[k],
                        *s,
                        preset,
                        #[trigger] rows@[k],
                    ) by {
                        if k < rows0.len() {
                            assert(rows@[k] == rows0[k] && done[k] == before[k]);
                            assert(is_row(before[k], *s, preset, rows0[k]));
                        }
                    }
                }
            },
        }
        i = i + 1;
    }
    let mean: i64 = if ok == 0 {
        FULL
    } else {
        floor_mean(sum, ok)
    };
    Ok(
        (
            BatchSummary {
                icons: ok + failed,
                ok,
                failed,
                cache_hits,
                min_ssim,
                min_composite,
                mean_composite: mean,
                peak_rss_bytes: peak,
            },
            rows,
        ),
    )
}

/// One more icon changes the tallies of the ones before it in nothing.
proof fn tallies_push(done: Seq<ItemResult>, d: ItemResult, n: int)
    requires
        0 <= n <= done.len(),
    ensures
        hits(done.push(d), n) == hits(done, n),
        least_ssim(done.push(d), n) == least_ssim(done, n),
        least_composite(done.push(d), n) == least_composite(done, n),
        total_composite(done.push(d), n) == total_composite(done, n),
        hits(done, n) <= n,
    decreases n,
{
    if n > 0 {
        tallies_push(done, d, n - 1);
    }
}

/// Every icon is counted once, as finished or as failed, and no finished icon is
/// worse than the summary says.
pub proof fn summary_counts_all(items: Seq<Result<ItemResult, VectorizeError>>, peak: u64, s: BatchSummary, i: int)
    requires
        is_summary(items, peak, s),
        0 <= i < items.len(),
    ensures
        s.ok + s.failed == s.icons,
        s.cache_hits <= s.ok,
        items[i] is Ok ==> (items[i]->Ok_0).icon.score.ssim >= s.min_ssim && (
        items[i]->Ok_0).icon.score.composite >= s.min_composite,
{
    let n = items.len() as int;
    let done = finished(items, n);
    if done.len() > 0 {
        tallies_push(done, done[0], done.len() as int);
    }
    if items[i] is Ok {
        finished_holds(items, n, i);
        let k = choose|k: int| 0 <= k < done.len() && done[k] == items[i]->Ok_0;
        least_bounds(done, done.len() as int, k);
    }
}

proof fn finished_holds(items: Seq<Result<ItemResult, VectorizeError>>, n: int, i: int)
    requires
        0 <= i < n <= items.len(),
        items[i] is Ok,
    ensures
        exists|k: int|
            0 <= k < finished(items, n).len() && #[trigger] finished(items, n)[k] == items[i]->Ok_0,
    decreases n,
{
    let f = finished(items, n);
    if i == n - 1 {
        assert(f[f.len() - 1] == items[i]->Ok_0);
    } else {
        finished_holds(items, n - 1, i);
        let g = finished(items, n - 1);
        let k = choose|k: int| 0 <= k < g.len() && #[trigger] g[k] == items[i]->Ok_0;
        assert(f[k] == g[k]);
    }
}

proof fn least_bounds(done: Seq<ItemResult>, n: int, k: int)
    requires
        0 <= k < n <= done.len(),
    ensures
        least_ssim(done, n) <= done[k].icon.score.ssim,
        least_composite(done, n) <= done[k].icon.score.composite,
    decreases n,
{
    if k < n - 1 {
        least_bounds(done, n - 1, k);
    }
}

/// A segmented sheet has one list of icons under given options.
pub proof fn batch_groups_are_determined(
    m: ForegroundMask,
    bg: BackgroundModel,
    opts: BatchOptions,
    raw1: Seq<IconGroup>,
    a: Seq<IconGroup>,
    s: RefineStats,
    raw2: Seq<IconGroup>,
    b: Seq<IconGroup>,
    t: RefineStats,
)
    requires
        m.wf(),
        is_batch_grouping(m, bg, opts, raw1, a, s),
        is_batch_grouping(m, bg, opts, raw2, b, t),
    ensures
        a == b,
        refine::same_stats(s, t),
{
    group::groupers_agree(m, opts.min_area as int, raw1, raw2);
    maskcache::groups_share_no_pixel(m, opts.min_area as int, raw1);
    refine::refinement_is_determined(raw1, m, Some(bg), opts.refine, a, s, b, t);
}

/// The counts of a summary add up, and a run without a finished icon has full
/// scores.
pub proof fn summary_adds_up(items: Seq<Result<ItemResult, VectorizeError>>, peak: u64, s: BatchSummary)
    requires
        is_summary(items, peak, s),
    ensures
        s.icons == s.ok + s.failed,
        s.cache_hits <= s.ok,
        s.ok == 0 ==> s.min_ssim == FULL && s.min_composite == FULL && s.mean_composite == FULL,
{
    let done = finished(items, items.len() as int);
    hits_bound(done, done.len() as int);
}

proof fn hits_bound(done: Seq<ItemResult>, n: int)
    requires
        0 <= n <= done.len(),
    ensures
        0 <= hits(done, n) <= n,
    decreases n,
{
    if n > 0 {
        hits_bound(done, n - 1);
    }
}

// ---- a second run -------------------------------------------------------------------

/// The contents of an icon.
pub type IconText = (Seq<char>, Seq<[u8; 4]>, Score);

/// The contents of an icon.
pub open spec fn icon_text(icon: ScoredIcon) -> IconText {
    (icon.svg@, icon.palette@, icon.score)
}

/// An icon of the run is looked up under its key and served where it is found;
/// else it is made, and stored where that succeeds. `r` is what came of it, and
/// `after` what the cache holds then.
pub open spec fn is_visit(
    cache: Map<Seq<char>, IconText>,
    bbox: Bbox,
    key: Seq<char>,
    r: Result<ItemResult, VectorizeError>,
    after: Map<Seq<char>, IconText>,
) -> bool {
    if cache.contains_key(key) {
        &&& r is Ok
        &&& is_item(bbox, key, r->Ok_0.icon, true, r->Ok_0)
        &&& icon_text(r->Ok_0.icon) == cache[key]
        &&& after == cache
    } else {
        match r {
            Ok(d) => is_item(bbox, key, d.icon, false, d) && after == cache.insert(
                key,
                icon_text(d.icon),
            ),
            Err(_) => after == cache,
        }
    }
}

/// A run over icons with these boxes and keys: every icon is visited once, in
/// the order `tour`, and `caches` is what the cache holds before each visit and
/// at the end.
pub open spec fn is_run(
    boxes: Seq<Bbox>,
    keys: Seq<Seq<char>>,
    tour: Seq<usize>,
    caches: Seq<Map<Seq<char>, IconText>>,
    items: Seq<Result<ItemResult, VectorizeError>>,
) -> bool {
    &&& keys.len() == boxes.len()
    &&& items.len() == boxes.len()
    &&& cluster::is_arrangement(tour, boxes.len() as int)
    &&& forall|i: int| 0 <= i < boxes.len() ==> #[trigger] visited(tour, i)
    &&& caches.len() == boxes.len() + 1
    &&& forall|k: int|
        0 <= k < tour.len() ==> is_visit(
            caches[k],
            boxes[tour[k] as int],
            keys[tour[k] as int],
            items[(#[trigger] tour[k]) as int],
            caches[k + 1],
        )
}

/// Icon `i` is on the tour.
pub open spec fn visited(tour: Seq<usize>, i: int) -> bool {
    exists|k: int| 0 <= k < tour.len() && #[trigger] tour[k] == i
}

/// What the cache holds stays as it is for the rest of a run.
proof fn cache_only_grows(
    boxes: Seq<Bbox>,
    keys: Seq<Seq<char>>,
    tour: Seq<usize>,
    caches: Seq<Map<Seq<char>, IconText>>,
    items: Seq<Result<ItemResult, VectorizeError>>,
    j: int,
    k: int,
    key: Seq<char>,
)
    requires
        is_run(boxes, keys, tour, caches, items),
        0 <= j <= k <= tour.len(),
        caches[j].contains_key(key),
    ensures
        caches[k].contains_key(key),
        caches[k][key] == caches[j][key],
    decreases k - j,
{
    if j < k {
        cache_only_grows(boxes, keys, tour, caches, items, j, k - 1, key);
        let i = tour[k - 1] as int;
        assert(is_visit(caches[k - 1], boxes[i], keys[i], items[i], caches[k]));
    }
}

/// Where no icon failed, all are finished.
proof fn none_failed(items: Seq<Result<ItemResult, VectorizeError>>, n: int)
    requires
        0 <= n <= items.len(),
    ensures
        finished(items, n).len() <= n,
        finished(items, n).len() == n ==> forall|i: int|
            0 <= i < n ==> (#[trigger] items[i]) is Ok && finished(items, n)[i] == items[i]->Ok_0,
    decreases n,
{
    if n > 0 {
        none_failed(items, n - 1);
        if finished(items, n).len() == n {
            assert forall|i: int| 0 <= i < n implies (#[trigger] items[i]) is Ok && finished(items, n)[i]
                == items[i]->Ok_0 by {
                if i < n - 1 {
                    assert(finished(items, n - 1)[i] == items[i]->Ok_0);
                }
            }
        }
    }
}

/// Where all are finished, none failed.
proof fn all_finished(items: Seq<Result<ItemResult, VectorizeError>>, n: int)
    requires
        0 <= n <= items.len(),
        forall|i: int| 0 <= i < n ==> (#[trigger] items[i]) is Ok,
    ensures
        finished(items, n).len() == n,
    decreases n,
{
    if n > 0 {
        all_finished(items, n - 1);
        assert(items[n - 1] is Ok);
    }
}

proof fn tallies_agree(a: Seq<ItemResult>, b: Seq<ItemResult>, n: int)
    requires
        0 <= n <= a.len(),
        n <= b.len(),
        forall|i: int| 0 <= i < n ==> (#[trigger] a[i]).icon.score == b[i].icon.score,
        forall|i: int| 0 <= i < n ==> (#[trigger] b[i]).hit,
    ensures
        hits(b, n) == n,
        least_ssim(a, n) == least_ssim(b, n),
        least_composite(a, n) == least_composite(b, n),
        total_composite(a, n) == total_composite(b, n),
    decreases n,
{
    if n > 0 {
        tallies_agree(a, b, n - 1);
        assert(a[n - 1].icon.score == b[n - 1].icon.score && b[n - 1].hit);
    }
}

/// What a run without failures has made, a second run over the same icons is
/// served: icon `i` comes out of the cache with the same contents.
proof fn served_again(
    boxes: Seq<Bbox>,
    keys: Seq<Seq<char>>,
    tour1: Seq<usize>,
    caches1: Seq<Map<Seq<char>, IconText>>,
    items1: Seq<Result<ItemResult, VectorizeError>>,
    tour2: Seq<usize>,
    caches2: Seq<Map<Seq<char>, IconText>>,
    items2: Seq<Result<ItemResult, VectorizeError>>,
    i: int,
)
    requires
        is_run(boxes, keys, tour1, caches1, items1),
        is_run(boxes, keys, tour2, caches2, items2),
        caches2[0] == caches1[boxes.len() as int],
        0 <= i < boxes.len(),
        items1[i] is Ok,
    ensures
        items2[i] is Ok,
        items2[i]->Ok_0.hit,
        items2[i]->Ok_0.bbox == items1[i]->Ok_0.bbox,
        items2[i]->Ok_0.cache_key@ == items1[i]->Ok_0.cache_key@,
        icon_text(items2[i]->Ok_0.icon) == icon_text(items1[i]->Ok_0.icon),
{
    let n = boxes.len() as int;
    assert(visited(tour1, i) && visited(tour2, i));
    let j = choose|k: int| 0 <= k < tour1.len() && #[trigger] tour1[k] == i;
    let k = choose|k: int| 0 <= k < tour2.len() && #[trigger] tour2[k] == i;
    assert(is_visit(caches1[j], boxes[i], keys[i], items1[tour1[j] as int], caches1[j + 1]));
    assert(caches1[j + 1].contains_key(keys[i]));
    cache_only_grows(boxes, keys, tour1, caches1, items1, j + 1, n, keys[i]);
    cache_only_grows(boxes, keys, tour2, caches2, items2, 0, k, keys[i]);
    assert(is_visit(caches2[k], boxes[i], keys[i], items2[tour2[k] as int], caches2[k + 1]));
}

/// A second run over the same icons, on the cache that a first run without
/// failures left, is served from the cache throughout, with the same summary.
pub proof fn second_run_is_served(
    boxes: Seq<Bbox>,
    keys: Seq<Seq<char>>,
    tour1: Seq<usize>,
    caches1: Seq<Map<Seq<char>, IconText>>,
    items1: Seq<Result<ItemResult, VectorizeError>>,
    peak1: u64,
    a: BatchSummary,
    tour2: Seq<usize>,
    caches2: Seq<Map<Seq<char>, IconText>>,
    items2: Seq<Result<ItemResult, VectorizeError>>,
    peak2: u64,
    b: BatchSummary,
)
    requires
        is_run(boxes, keys, tour1, caches1, items1),
        is_summary(items1, peak1, a),
        a.failed == 0,
        is_run(boxes, keys, tour2, caches2, items2),
        caches2[0] == caches1[boxes.len() as int],
        is_summary(items2, peak2, b),
    ensures
        b.icons == a.icons,
        b.ok == a.ok,
        b.failed == 0,
        b.cache_hits == b.ok,
        b.min_ssim == a.min_ssim,
        b.min_composite == a.min_composite,
        b.mean_composite == a.mean_composite,
{
    let n = boxes.len() as int;
    let x = finished(items1, n);
    let y = finished(items2, n);
    none_failed(items1, n);
    assert forall|i: int| 0 <= i < n implies (#[trigger] items2[i]) is Ok by {
        assert(items1[i] is Ok);
        served_again(boxes, keys, tour1, caches1, items1, tour2, caches2, items2, i);
    }
    all_finished(items2, n);
    none_failed(items2, n);
    assert forall|i: int| 0 <= i < n implies (#[trigger] x[i]).icon.score == y[i].icon.score by {
        assert(items1[i] is Ok && items2[i] is Ok);
        served_again(boxes, keys, tour1, caches1, items1, tour2, caches2, items2, i);
    }
    assert forall|i: int| 0 <= i < n implies (#[trigger] y[i]).hit by {
        assert(items1[i] is Ok && items2[i] is Ok);
        served_again(boxes, keys, tour1, caches1, items1, tour2, caches2, items2, i);
    }
    tallies_agree(x, y, n);
}

// ---- a second run in parallel -------------------------------------------------------

/// What an icon of a run does to the cache. Events of different icons may come in
/// any order.
pub enum CacheEvent {
    /// The icon with this number is looked up under its key.
    Look(usize),
    /// It was made and is stored under its key.
    Store(usize),
}

/// The event leads from one state of the cache to the next. An icon that is found
/// is served; one that is not is made, and one that was made is stored.
pub open spec fn is_event(
    cache: Map<Seq<char>, IconText>,
    e: CacheEvent,
    boxes: Seq<Bbox>,
    keys: Seq<Seq<char>>,
    items: Seq<Result<ItemResult, VectorizeError>>,
    after: Map<Seq<char>, IconText>,
) -> bool {
    match e {
        CacheEvent::Look(i) => i < boxes.len() && after == cache && if cache.contains_key(
            keys[i as int],
        ) {
            &&& items[i as int] is Ok
            &&& is_item(
                boxes[i as int],
                keys[i as int],
                items[i as int]->Ok_0.icon,
                true,
                items[i as int]->Ok_0,
            )
            &&& icon_text(items[i as int]->Ok_0.icon) == cache[keys[i as int]]
        } else {
            items[i as int] matches Ok(d) ==> is_item(boxes[i as int], keys[i as int], d.icon, false, d)
        },
        CacheEvent::Store(i) => i < boxes.len() && was_made(items, i as int) && after == cache.insert(
            keys[i as int],
            icon_text(items[i as int]->Ok_0.icon),
        ),
    }
}

/// Icon `i` is finished and did not come out of the cache.
pub open spec fn was_made(items: Seq<Result<ItemResult, VectorizeError>>, i: int) -> bool {
    items[i] matches Ok(d) && !d.hit
}

/// Icon `i` is looked up.
pub open spec fn looked_up(events: Seq<CacheEvent>, i: int) -> bool {
    exists|k: int| 0 <= k < events.len() && #[trigger] events[k] == CacheEvent::Look(i as usize)
}

/// Icon `i` is stored.
pub open spec fn stored(events: Seq<CacheEvent>, i: int) -> bool {
    exists|k: int| 0 <= k < events.len() && #[trigger] events[k] == CacheEvent::Store(i as usize)
}

/// A run whose icons share the cache in any interleaving: every icon is looked
/// up, every icon that was made is stored, and `caches` is what the cache holds
/// before each event and at the end.
pub open spec fn is_parallel_run(
    boxes: Seq<Bbox>,
    keys: Seq<Seq<char>>,
    events: Seq<CacheEvent>,
    caches: Seq<Map<Seq<char>, IconText>>,
    items: Seq<Result<ItemResult, VectorizeError>>,
) -> bool {
    &&& boxes.len() <= usize::MAX
    &&& keys.len() == boxes.len()
    &&& items.len() == boxes.len()
    &&& caches.len() == events.len() + 1
    &&& forall|k: int|
        0 <= k < events.len() ==> is_event(
            caches[k],
            #[trigger] events[k],
            boxes,
            keys,
            items,
            caches[k + 1],
        )
    &&& forall|i: int|
        0 <= i < boxes.len() ==> #[trigger] looked_up(events, i) && (was_made(items, i) ==> stored(
            events,
            i,
        ))
}

/// Icons that share a key and were both made have the same contents.
pub open spec fn made_alike(keys: Seq<Seq<char>>, items: Seq<Result<ItemResult, VectorizeError>>) -> bool {
    forall|i: int, j: int|
        0 <= i < items.len() && 0 <= j < items.len() && keys[i] == keys[j] && #[trigger] was_made(items, i)
            && #[trigger] was_made(items, j) ==> icon_text(items[i]->Ok_0.icon) == icon_text(
            items[j]->Ok_0.icon,
        )
}

/// No key leaves the cache in a run.
proof fn keys_stay(
    boxes: Seq<Bbox>,
    keys: Seq<Seq<char>>,
    events: Seq<CacheEvent>,
    caches: Seq<Map<Seq<char>, IconText>>,
    items: Seq<Result<ItemResult, VectorizeError>>,
    j: int,
    k: int,
    key: Seq<char>,
)
    requires
        is_parallel_run(boxes, keys, events, caches, items),
        0 <= j <= k <= events.len(),
        caches[j].contains_key(key),
    ensures
        caches[k].contains_key(key),
    decreases k - j,
{
    if j < k {
        keys_stay(boxes, keys, events, caches, items, j, k - 1, key);
        assert(is_event(caches[k - 1], events[k - 1], boxes, keys, items, caches[k]));
    }
}

/// Where no icon under `key` was made, its entry stays as it is.
proof fn unmade_stays(
    boxes: Seq<Bbox>,
    keys: Seq<Seq<char>>,
    events: Seq<CacheEvent>,
    caches: Seq<Map<Seq<char>, IconText>>,
    items: Seq<Result<ItemResult, VectorizeError>>,
    k: int,
    key: Seq<char>,
)
    requires
        is_parallel_run(boxes, keys, events, caches, items),
        0 <= k <= events.len(),
        forall|i: int| 0 <= i < boxes.len() && keys[i] == key ==> !#[trigger] was_made(items, i),
    ensures
        caches[k].contains_key(key) == caches[0].contains_key(key),
        caches[0].contains_key(key) ==> caches[k][key] == caches[0][key],
    decreases k,
{
    if k > 0 {
        unmade_stays(boxes, keys, events, caches, items, k - 1, key);
        assert(is_event(caches[k - 1], events[k - 1], boxes, keys, items, caches[k]));
    }
}

/// Where an icon under `key` was made and the cache did not hold the key at
/// first, it never holds anything else under it.
proof fn made_is_held(
    boxes: Seq<Bbox>,
    keys: Seq<Seq<char>>,
    events: Seq<CacheEvent>,
    caches: Seq<Map<Seq<char>, IconText>>,
    items: Seq<Result<ItemResult, VectorizeError>>,
    j: int,
    k: int,
)
    requires
        is_parallel_run(boxes, keys, events, caches, items),
        made_alike(keys, items),
        0 <= j < boxes.len(),
        was_made(items, j),
        !caches[0].contains_key(keys[j]),
        0 <= k <= events.len(),
    ensures
        caches[k].contains_key(keys[j]) ==> caches[k][keys[j]] == icon_text(items[j]->Ok_0.icon),
    decreases k,
{
    if k > 0 {
        made_is_held(boxes, keys, events, caches, items, j, k - 1);
        assert(is_event(caches[k - 1], events[k - 1], boxes, keys, items, caches[k]));
        if let CacheEvent::Store(i) = events[k - 1] {
            assert(was_made(items, i as int));
        }
    }
}

/// At the end of a run the cache holds every finished icon under its key.
proof fn finished_is_held(
    boxes: Seq<Bbox>,
    keys: Seq<Seq<char>>,
    events: Seq<CacheEvent>,
    caches: Seq<Map<Seq<char>, IconText>>,
    items: Seq<Result<ItemResult, VectorizeError>>,
    i: int,
)
    requires
        is_parallel_run(boxes, keys, events, caches, items),
        made_alike(keys, items),
        0 <= i < boxes.len(),
        items[i] is Ok,
    ensures
        caches[events.len() as int].contains_key(keys[i]),
        caches[events.len() as int][keys[i]] == icon_text(items[i]->Ok_0.icon),
        items[i]->Ok_0.bbox == boxes[i],
        items[i]->Ok_0.cache_key@ == keys[i],
{
    let n = events.len() as int;
    assert(looked_up(events, i));
    let p = choose|k: int| 0 <= k < events.len() && #[trigger] events[k] == CacheEvent::Look(i as usize);
    assert(is_event(caches[p], events[p], boxes, keys, items, caches[p + 1]));
    if was_made(items, i) {
        assert(stored(events, i));
        let q = choose|k: int|
            0 <= k < events.len() && #[trigger] events[k] == CacheEvent::Store(i as usize);
        assert(is_event(caches[q], events[q], boxes, keys, items, caches[q + 1]));
        keys_stay(boxes, keys, events, caches, items, q + 1, n, keys[i]);
    } else {
        keys_stay(boxes, keys, events, caches, items, p, n, keys[i]);
    }
    if exists|j: int| 0 <= j < boxes.len() && keys[j] == keys[i] && #[trigger] was_made(items, j) {
        let j = choose|j: int| 0 <= j < boxes.len() && keys[j] == keys[i] && #[trigger] was_made(items, j);
        assert(looked_up(events, j));
        let l = choose|k: int|
            0 <= k < events.len() && #[trigger] events[k] == CacheEvent::Look(j as usize);
        assert(is_event(caches[l], events[l], boxes, keys, items, caches[l + 1]));
        if caches[0].contains_key(keys[j]) {
            keys_stay(boxes, keys, events, caches, items, 0, l, keys[j]);
        }
        made_is_held(boxes, keys, events, caches, items, j, n);
        made_is_held(boxes, keys, events, caches, items, j, p);
    } else {
        unmade_stays(boxes, keys, events, caches, items, n, keys[i]);
        unmade_stays(boxes, keys, events, caches, items, p, keys[i]);
    }
}

/// Where the cache holds every icon at first, a run is served throughout and
/// leaves the cache as it was.
proof fn held_is_served(
    boxes: Seq<Bbox>,
    keys: Seq<Seq<char>>,
    events: Seq<CacheEvent>,
    caches: Seq<Map<Seq<char>, IconText>>,
    items: Seq<Result<ItemResult, VectorizeError>>,
    i: int,
)
    requires
        is_parallel_run(boxes, keys, events, caches, items),
        forall|j: int| 0 <= j < boxes.len() ==> caches[0].contains_key(#[trigger] keys[j]),
        0 <= i < boxes.len(),
    ensures
        items[i] is Ok,
        items[i]->Ok_0.hit,
        icon_text(items[i]->Ok_0.icon) == caches[0][keys[i]],
{
    assert forall|j: int| 0 <= j < boxes.len() && keys[j] == keys[i] implies !#[trigger] was_made(
        items,
        j,
    ) by {
        assert(looked_up(events, j));
        let l = choose|k: int|
            0 <= k < events.len() && #[trigger] events[k] == CacheEvent::Look(j as usize);
        assert(is_event(caches[l], events[l], boxes, keys, items, caches[l + 1]));
        keys_stay(boxes, keys, events, caches, items, 0, l, keys[j]);
    }
    assert(looked_up(events, i));
    let p = choose|k: int| 0 <= k < events.len() && #[trigger] events[k] == CacheEvent::Look(i as usize);
    assert(is_event(caches[p], events[p], boxes, keys, items, caches[p + 1]));
    keys_stay(boxes, keys, events, caches, items, 0, p, keys[i]);
    unmade_stays(boxes, keys, events, caches, items, p, keys[i]);
}

/// The same of runs whose icons share the cache in any interleaving, where icons
/// that share a key are made alike: a second run on the cache that a first run
/// without failures left is served throughout, with the same summary.
pub proof fn second_parallel_run_is_served(
    boxes: Seq<Bbox>,
    keys: Seq<Seq<char>>,
    events1: Seq<CacheEvent>,
    caches1: Seq<Map<Seq<char>, IconText>>,
    items1: Seq<Result<ItemResult, VectorizeError>>,
    peak1: u64,
    a: BatchSummary,
    events2: Seq<CacheEvent>,
    caches2: Seq<Map<Seq<char>, IconText>>,
    items2: Seq<Result<ItemResult, VectorizeError>>,
    peak2: u64,
    b: BatchSummary,
)
    requires
        is_parallel_run(boxes, keys, events1, caches1, items1),
        made_alike(keys, items1),
        is_summary(items1, peak1, a),
        a.failed == 0,
        is_parallel_run(boxes, keys, events2, caches2, items2),
        caches2[0] == caches1[events1.len() as int],
        is_summary(items2, peak2, b),
    ensures
        b.icons == a.icons,
        b.ok == a.ok,
        b.failed == 0,
        b.cache_hits == b.ok,
        b.min_ssim == a.min_ssim,
        b.min_composite == a.min_composite,
        b.mean_composite == a.mean_composite,
{
    let n = boxes.len() as int;
    let x = finished(items1, n);
    let y = finished(items2, n);
    none_failed(items1, n);
    assert forall|i: int| 0 <= i < n implies caches2[0].contains_key(#[trigger] keys[i]) by {
        assert(items1[i] is Ok);
        finished_is_held(boxes, keys, events1, caches1, items1, i);
    }
    assert forall|i: int| 0 <= i < n implies (#[trigger] items2[i]) is Ok by {
        held_is_served(boxes, keys, events2, caches2, items2, i);
    }
    all_finished(items2, n);
    none_failed(items2, n);
    assert forall|i: int| 0 <= i < n implies (#[trigger] x[i]).icon.score == y[i].icon.score by {
        assert(items1[i] is Ok && items2[i] is Ok);
        finished_is_held(boxes, keys, events1, caches1, items1, i);
        held_is_served(boxes, keys, events2, caches2, items2, i);
    }
    assert forall|i: int| 0 <= i < n implies (#[trigger] y[i]).hit by {
        assert(items2[i] is Ok);
        held_is_served(boxes, keys, events2, caches2, items2, i);
    }
    tallies_agree(x, y, n);
}

// ---- what a summary measures --------------------------------------------------------

proof fn sums_agree(a: Seq<ItemResult>, b: Seq<ItemResult>, n: int)
    requires
        n <= a.len(),
        n <= b.len(),
        forall|i: int| 0 <= i < n ==> #[trigger] a[i] == b[i],
    ensures
        hits(a, n) == hits(b, n),
        least_ssim(a, n) == least_ssim(b, n),
        least_composite(a, n) == least_composite(b, n),
        total_composite(a, n) == total_composite(b, n),
    decreases n,
{
    if n > 0 {
        sums_agree(a, b, n - 1);
        assert(a[n - 1] == b[n - 1]);
    }
}

/// The blend of a finished icon, and nothing for one that failed.
pub open spec fn composite_at(items: Seq<Result<ItemResult, VectorizeError>>) -> spec_fn(int) -> int {
    |i: int|
        match items[i] {
            Ok(d) => d.icon.score.composite as int,
            Err(_) => 0int,
        }
}

proof fn finished_upto(items: Seq<Result<ItemResult, VectorizeError>>, n: int)
    requires
        0 <= n <= items.len(),
    ensures
        ({
            let done = finished(items, n);
            let k = done.len() as int;
            &&& k == counting::count_below(|i: int| items[i] is Ok, n)
            &&& hits(done, k) == counting::count_below(|i: int| items[i] is Ok && items[i]->Ok_0.hit, n)
            &&& total_composite(done, k) == counting::sum_below(composite_at(items), n)
            &&& forall|i: int|
                0 <= i < n && (#[trigger] items[i]) is Ok ==> least_ssim(done, k) <= items[i]->Ok_0.icon.score.ssim
                    && least_composite(done, k) <= items[i]->Ok_0.icon.score.composite
            &&& least_ssim(done, k) <= 1_000_000_000
            &&& least_composite(done, k) <= 1_000_000_000
            &&& least_ssim(done, k) == 1_000_000_000 || exists|i: int|
                0 <= i < n && (#[trigger] items[i]) is Ok && items[i]->Ok_0.icon.score.ssim == least_ssim(done, k)
            &&& least_composite(done, k) == 1_000_000_000 || exists|i: int|
                0 <= i < n && (#[trigger] items[i]) is Ok && items[i]->Ok_0.icon.score.composite == least_composite(
                    done,
                    k,
                )
        }),
    decreases n,
{
    if n > 0 {
        finished_upto(items, n - 1);
        let before = finished(items, n - 1);
        let now = finished(items, n);
        if items[n - 1] is Ok {
            sums_agree(now, before, before.len() as int);
            assert(now[before.len() as int] == items[n - 1]->Ok_0);
        }
    }
}

/// A summary counts what was finished, what failed and what the cache served, and
/// gives the least similarity, the least blend and the mean blend, rounded down, of
/// what was finished.
pub proof fn summary_measures_finished_icons(items: Seq<Result<ItemResult, VectorizeError>>, peak: u64, s: BatchSummary)
    requires
        is_summary(items, peak, s),
    ensures
        s.icons == items.len(),
        s.ok == counting::count_below(|i: int| items[i] is Ok, items.len() as int),
        s.ok + s.failed == s.icons,
        s.cache_hits == counting::count_below(|i: int| items[i] is Ok && items[i]->Ok_0.hit, items.len() as int),
        forall|i: int|
            0 <= i < items.len() && (#[trigger] items[i]) is Ok ==> s.min_ssim <= items[i]->Ok_0.icon.score.ssim
                && s.min_composite <= items[i]->Ok_0.icon.score.composite,
        s.min_ssim == 1_000_000_000 || exists|i: int|
            0 <= i < items.len() && (#[trigger] items[i]) is Ok && items[i]->Ok_0.icon.score.ssim == s.min_ssim,
        s.min_composite == 1_000_000_000 || exists|i: int|
            0 <= i < items.len() && (#[trigger] items[i]) is Ok && items[i]->Ok_0.icon.score.composite
                == s.min_composite,
        s.ok > 0 ==> s.mean_composite * s.ok <= counting::sum_below(composite_at(items), items.len() as int) < (
        s.mean_composite + 1) * s.ok,
        s.ok == 0 ==> s.mean_composite == 1_000_000_000 && s.min_ssim == 1_000_000_000 && s.min_composite
            == 1_000_000_000,
        s.peak_rss_bytes == peak,
{
    let n = items.len() as int;
    finished_upto(items, n);
    if s.ok > 0 {
        counting::quotient_sides(counting::sum_below(composite_at(items), n), s.ok as int);
    }
}

/// The bytes of a number come least first.
pub proof fn number_bytes_come_least_first(v: u32)
    ensures
        le_bytes(v).len() == 4,
        le_bytes(v)[0] + 256 * le_bytes(v)[1] + 65536 * le_bytes(v)[2] + 16777216 * le_bytes(v)[3] == v,
{
}

} // verus!
