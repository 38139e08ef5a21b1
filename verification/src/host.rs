//! The review in the library's own ids.
//!
//! An icon's review id is its position in the sheet's row list, and it does not
//! move: a row that cannot be reviewed is skipped with a reason and leaves a gap.
use vstd::prelude::*;
use vstd::string::StringExecFns;
use crate::batch::IconVectorRow;
use crate::cascade;
use crate::cascade::CascadeCounts;
use crate::cluster;
use crate::cluster::DupCluster;
use crate::dupes;
use crate::geometry::Bbox;
use crate::hashes::HashItem;
use crate::mask::ForegroundMask;
use crate::outliers;
use crate::outliers::{IconStat, OutlierFlag, Spread, StyleClass};
use crate::raster::SheetRaster;
use crate::review;
use crate::review::{IconEvidence, IconReview, ReviewError, ReviewInput, ReviewOptions, ReviewReport};
use crate::score;
use crate::sorting;
use crate::text;
use crate::triage::{TriageAction, TriageDecision};

verus! {

/// One row of the library's icon list.
#[derive(Clone, Debug, PartialEq, Eq)]
pub struct HostIcon {
    /// The library's id.
    pub id: [u8; 16],
    /// The box as the library stored it; it may be empty.
    pub bbox: Bbox,
    /// The traced document, where there is one.
    pub document: Option<String>,
}

/// A row left out of a review, and why.
#[derive(Clone, Debug, PartialEq, Eq)]
pub struct HostSkip {
    /// The library's id.
    pub id: [u8; 16],
    /// What stood in the way.
    pub reason: String,
}

/// One reviewed icon.
#[derive(Clone, Debug, PartialEq, Eq)]
pub struct HostIconReview {
    /// The library's id.
    pub id: [u8; 16],
    /// Its position in the row list.
    pub index: u32,
    /// What the review found.
    pub review: IconReview,
}

/// A duplicate cluster in the library's ids.
#[derive(Clone, Debug, PartialEq, Eq)]
pub struct HostCluster {
    /// Member ids, in row order.
    pub members: Vec<[u8; 16]>,
    /// The member to keep.
    pub keeper: [u8; 16],
}

/// One outlier in the library's ids.
#[derive(Clone, Copy, Debug, PartialEq, Eq)]
pub struct HostOutlier {
    /// The library's id.
    pub id: [u8; 16],
    /// The deviation, under the icon's position.
    pub flag: OutlierFlag,
}

/// One sheet's review in the library's ids.
#[derive(Debug, PartialEq, Eq)]
pub struct HostReview {
    /// Every reviewed icon, in row order.
    pub icons: Vec<HostIconReview>,
    /// Every row that was left out.
    pub skipped: Vec<HostSkip>,
    /// Duplicate clusters.
    pub clusters: Vec<HostCluster>,
    /// Outliers.
    pub outliers: Vec<HostOutlier>,
    /// Icons with at least one quality flag.
    pub flagged: usize,
    /// How many pairs came through each stage of the cascade.
    pub cascade: CascadeCounts,
}

/// The review states of the library.
#[derive(Clone, Copy, Debug, PartialEq, Eq, Structural)]
pub enum ReviewState {
    /// Not decided yet.
    Pending,
    /// Approved.
    Approved,
    /// Rejected.
    Rejected,
    /// Flagged for another look.
    Flagged,
    /// A duplicate.
    Duplicate,
}

/// The state a decision puts an icon in.
pub open spec fn state_of(action: TriageAction) -> ReviewState {
    match action {
        TriageAction::Approve | TriageAction::BulkApprove => ReviewState::Approved,
        TriageAction::Reject => ReviewState::Rejected,
        TriageAction::Flag => ReviewState::Flagged,
        TriageAction::Duplicate => ReviewState::Duplicate,
    }
}

/// The state a decision puts an icon in.
pub fn review_state_for(action: TriageAction) -> (r: ReviewState)
    ensures
        r == state_of(action),
{
    match action {
        TriageAction::Approve => ReviewState::Approved,
        TriageAction::BulkApprove => ReviewState::Approved,
        TriageAction::Reject => ReviewState::Rejected,
        TriageAction::Flag => ReviewState::Flagged,
        TriageAction::Duplicate => ReviewState::Duplicate,
    }
}

/// The state to restore when a decision is undone.
pub fn restored_review_state(previous: Option<TriageDecision>) -> (r: ReviewState)
    ensures
        r == (match previous {
            Some(d) => state_of(d.action),
            None => ReviewState::Pending,
        }),
{
    match previous {
        Some(d) => review_state_for(d.action),
        None => ReviewState::Pending,
    }
}

// ---- rows ---------------------------------------------------------------------------

/// `icon` is a row with the document found under its key.
pub open spec fn is_input(row: IconVectorRow, document: Option<String>, icon: HostIcon) -> bool {
    &&& icon.id == row.id
    &&& icon.bbox == row.bbox
    &&& match document {
        Some(t) => icon.document is Some && icon.document->0@ == t@,
        None => icon.document is None,
    }
}

/// The review inputs for the icon rows of a sheet, each with the document found
/// under its key: one entry per row, in row order, whether or not the row can be
/// reviewed.
pub fn host_inputs(rows: &[IconVectorRow], documents: &[Option<String>]) -> (r: Vec<HostIcon>)
    requires
        documents@.len() == rows@.len(),
    ensures
        r@.len() == rows@.len(),
        forall|i: int| 0 <= i < r@.len() ==> is_input(rows@[i], documents@[i], #[trigger] r@[i]),
{
    let n: usize = rows.len();
    let mut out: Vec<HostIcon> = Vec::new();
    let mut i: usize = 0;
    while i < n
        invariant
            i <= n,
            n == rows@.len(),
            n == documents@.len(),
            out@.len() == i,
            forall|k: int| 0 <= k < i ==> is_input(rows@[k], documents@[k], #[trigger] out@[k]),
        decreases n - i,
    {
        let document: Option<String> = match &documents[i] {
            Some(t) => Some(review::copy_text(t)),
            None => None,
        };
        out.push(HostIcon { id: rows[i].id, bbox: rows[i].bbox, document });
        i = i + 1;
    }
    out
}

// ---- what can be seen beforehand ----------------------------------------------------

/// The contents of a skip.
pub type SkipText = (Seq<u8>, Seq<char>);

/// The contents of a list of skips.
pub open spec fn skip_texts(s: Seq<HostSkip>) -> Seq<SkipText> {
    Seq::new(s.len(), |i: int| (s[i].id@, s[i].reason@))
}

/// Why an empty box is skipped.
pub open spec fn empty_box_text(b: Bbox) -> Seq<char> {
    "box "@ + text::decimal(b.x as nat) + ","@ + text::decimal(b.y as nat) + " "@ + text::decimal(
        b.w as nat,
    ) + "×"@ + text::decimal(b.h as nat) + " is empty"@
}

/// Why a box off the sheet is skipped.
pub open spec fn off_sheet_text(b: Bbox, w: u32, h: u32) -> Seq<char> {
    "box "@ + review::box_text(b) + " is off the "@ + text::decimal(w as nat) + "×"@ + text::decimal(
        h as nat,
    ) + " sheet"@
}

/// Why a row is skipped before any document is looked at; `None` where it is
/// not.
pub open spec fn early_reason(icon: HostIcon, sheet: SheetRaster, m: ForegroundMask) -> Option<Seq<char>> {
    if icon.bbox.w == 0 || icon.bbox.h == 0 {
        Some(empty_box_text(icon.bbox))
    } else if icon.document is None {
        Some("no traced document in the cache"@)
    } else if !icon.bbox.fits(sheet.width as int, sheet.height as int) {
        Some(off_sheet_text(icon.bbox, sheet.width, sheet.height))
    } else if review::ink_in(m, icon.bbox) == 0 {
        Some("no ink in its box"@)
    } else {
        None
    }
}

/// The rows below `n` that are skipped early, with their reasons.
pub open spec fn early_skips(icons: Seq<HostIcon>, sheet: SheetRaster, m: ForegroundMask, n: int) -> Seq<
    SkipText,
>
    decreases n,
{
    if n <= 0 {
        Seq::empty()
    } else {
        let before = early_skips(icons, sheet, m, n - 1);
        match early_reason(icons[n - 1], sheet, m) {
            Some(t) => before.push((icons[n - 1].id@, t)),
            None => before,
        }
    }
}

/// The rows below `n` that are not skipped early, ascending.
pub open spec fn candidates(icons: Seq<HostIcon>, sheet: SheetRaster, m: ForegroundMask, n: int) -> Seq<
    usize,
>
    decreases n,
{
    if n <= 0 {
        Seq::empty()
    } else if early_reason(icons[n - 1], sheet, m) is None {
        candidates(icons, sheet, m, n - 1).push((n - 1) as usize)
    } else {
        candidates(icons, sheet, m, n - 1)
    }
}

/// Why a row is skipped early.
fn skip_reason(icon: &HostIcon, sheet: &SheetRaster, m: &ForegroundMask) -> (r: Option<String>)
    requires
        m.wf(),
    ensures
        match r {
            Some(t) => early_reason(*icon, *sheet, *m) == Some(t@),
            None => early_reason(*icon, *sheet, *m) is None,
        },
{
    let b: Bbox = icon.bbox;
    if b.w == 0 || b.h == 0 {
        let mut s = String::from_str("box ");
        text::push_decimal(&mut s, b.x as u64);
        s.append(",");
        text::push_decimal(&mut s, b.y as u64);
        s.append(" ");
        text::push_decimal(&mut s, b.w as u64);
        s.append("×");
        text::push_decimal(&mut s, b.h as u64);
        s.append(" is empty");
        assert(s@ =~= empty_box_text(b));
        return Some(s);
    }
    if icon.document.is_none() {
        return Some(String::from_str("no traced document in the cache"));
    }
    if !review::box_fits(b, sheet.width, sheet.height) {
        let mut s = String::from_str("box ");
        review::push_box(&mut s, b);
        s.append(" is off the ");
        text::push_decimal(&mut s, sheet.width as u64);
        s.append("×");
        text::push_decimal(&mut s, sheet.height as u64);
        s.append(" sheet");
        assert(s@ =~= off_sheet_text(b, sheet.width, sheet.height));
        return Some(s);
    }
    if review::count_ink(m, b) == 0 {
        return Some(String::from_str("no ink in its box"));
    }
    None
}

// ---- refusals -----------------------------------------------------------------------

/// Which icon an error refuses, and why; `None` for an error of the whole sheet.
pub open spec fn refusal_of(e: ReviewError) -> Option<(u32, Seq<char>)> {
    match e {
        ReviewError::BadArtwork { id, reason } => Some((id, reason@)),
        ReviewError::Render { id, reason } => Some((id, reason@)),
        ReviewError::BadBbox { id, bbox } => Some(
            (id, "box "@ + review::box_text(bbox) + " is off the sheet"@),
        ),
        ReviewError::NoInk { id } => Some((id, "no ink in its box"@)),
        ReviewError::SizeMismatch { .. } => None,
        ReviewError::BadSide { .. } => None,
        ReviewError::SheetTooLarge { .. } => None,
    }
}

/// Which icon an error refuses, and why.
pub fn per_icon_refusal(error: &ReviewError) -> (r: Option<(u32, String)>)
    ensures
        match r {
            Some(v) => refusal_of(*error) == Some((v.0, v.1@)),
            None => refusal_of(*error) is None,
        },
{
    match error {
        ReviewError::BadArtwork { id, reason } => Some((*id, review::copy_text(reason))),
        ReviewError::Render { id, reason } => Some((*id, review::copy_text(reason))),
        ReviewError::BadBbox { id, bbox } => {
            let mut s = String::from_str("box ");
            review::push_box(&mut s, *bbox);
            s.append(" is off the sheet");
            assert(s@ =~= "box "@ + review::box_text(*bbox) + " is off the sheet"@);
            Some((*id, s))
        },
        ReviewError::NoInk { id } => Some((*id, String::from_str("no ink in its box"))),
        ReviewError::SizeMismatch { .. } => None,
        ReviewError::BadSide { .. } => None,
        ReviewError::SheetTooLarge { .. } => None,
    }
}

/// `items` are the review inputs of the rows: each under its position.
pub open spec fn stand_for(icons: Seq<HostIcon>, items: Seq<ReviewInput>) -> bool {
    &&& items.len() == icons.len()
    &&& forall|p: int|
        0 <= p < icons.len() ==> (#[trigger] items[p]).id == p && items[p].bbox == icons[p].bbox && (
        icons[p].document is Some ==> items[p].document@ == icons[p].document->0@)
}

/// The rows that are left after the refusals at the places `at` of the list.
pub open spec fn left_after(start: Seq<usize>, at: Seq<int>, k: int) -> Seq<usize>
    decreases k,
{
    if k <= 0 {
        start
    } else {
        left_after(start, at, k - 1).remove(at[k - 1])
    }
}

/// Refusal `k` takes out the first row that the review refuses.
pub open spec fn refuses(
    sheet: SheetRaster,
    m: ForegroundMask,
    items: Seq<ReviewInput>,
    evidence: Seq<IconEvidence>,
    bg: Seq<u8>,
    left: Seq<usize>,
    at: int,
    e: ReviewError,
) -> bool {
    0 <= at < left.len() && review::is_first_refusal(
        sheet,
        m,
        review::picked(items, left),
        review::picked(evidence, left),
        bg,
        at,
        e,
    )
}

/// The skips of the first `k` refusals.
pub open spec fn late_skips(
    icons: Seq<HostIcon>,
    start: Seq<usize>,
    at: Seq<int>,
    errors: Seq<ReviewError>,
    k: int,
) -> Seq<SkipText>
    decreases k,
{
    if k <= 0 {
        Seq::empty()
    } else {
        let row = left_after(start, at, k - 1)[at[k - 1]];
        late_skips(icons, start, at, errors, k - 1).push(
            (icons[row as int].id@, (refusal_of(errors[k - 1])->0).1),
        )
    }
}

// ---- the mapped report --------------------------------------------------------------

/// The reviewed icons of a report in the library's ids.
pub open spec fn maps_icons(icons: Seq<HostIcon>, from: Seq<IconReview>, to: Seq<HostIconReview>) -> bool {
    &&& to.len() == from.len()
    &&& forall|t: int|
        0 <= t < from.len() ==> (#[trigger] to[t]).index == from[t].id && to[t].id@
            == icons[from[t].id as int].id@ && review::same_review(to[t].review, from[t])
}

/// One cluster of a report in the library's ids.
pub open spec fn maps_cluster(icons: Seq<HostIcon>, from: DupCluster, to: HostCluster) -> bool {
    &&& to.members@.len() == from.members@.len()
    &&& forall|t: int|
        0 <= t < from.members@.len() ==> (#[trigger] to.members@[t])@
            == icons[from.members@[t] as int].id@
    &&& to.keeper@ == icons[from.keeper as int].id@
}

/// The clusters of a report in the library's ids.
pub open spec fn maps_clusters(icons: Seq<HostIcon>, from: Seq<DupCluster>, to: Seq<HostCluster>) -> bool {
    &&& to.len() == from.len()
    &&& forall|t: int| 0 <= t < from.len() ==> maps_cluster(icons, from[t], #[trigger] to[t])
}

/// The outliers of a report in the library's ids.
pub open spec fn maps_outliers(icons: Seq<HostIcon>, from: Seq<OutlierFlag>, to: Seq<HostOutlier>) -> bool {
    &&& to.len() == from.len()
    &&& forall|t: int|
        0 <= t < from.len() ==> (#[trigger] to[t]).flag == from[t] && to[t].id@
            == icons[from[t].id as int].id@
}

/// `h` is a report in the library's ids.
pub open spec fn maps_report(icons: Seq<HostIcon>, report: ReviewReport, h: HostReview) -> bool {
    &&& maps_icons(icons, report.icons@, h.icons@)
    &&& maps_clusters(icons, report.clusters@, h.clusters@)
    &&& maps_outliers(icons, report.outliers@, h.outliers@)
    &&& h.flagged == report.flagged
    &&& h.cascade == report.cascade
}

/// `h` reviewed nothing.
pub open spec fn is_empty_review(h: HostReview) -> bool {
    h.icons@.len() == 0 && h.clusters@.len() == 0 && h.outliers@.len() == 0 && h.flagged == 0
        && h.cascade == (CascadeCounts { candidates: 0, verified: 0, confirmed: 0 })
}

/// One way a review can have gone.
pub struct HostTrace {
    /// The inputs made of the rows.
    pub items: Seq<ReviewInput>,
    /// The places in the list, one for each refusal.
    pub at: Seq<int>,
    /// The errors of the refusals.
    pub errors: Seq<ReviewError>,
}

/// `h` is the review that a trace leads to: rows are skipped early with a
/// reason, then the review refuses rows one by one, and what is left is
/// reviewed and reported in the library's ids.
pub open spec fn is_host_review_of(
    sheet: SheetRaster,
    m: ForegroundMask,
    icons: Seq<HostIcon>,
    evidence: Seq<IconEvidence>,
    o: ReviewOptions,
    t: HostTrace,
    h: HostReview,
) -> bool {
    let n = icons.len() as int;
    let start = candidates(icons, sheet, m, n);
    let k = t.at.len() as int;
    let left = left_after(start, t.at, k);
    &&& stand_for(icons, t.items)
    &&& t.errors.len() == k
    &&& forall|j: int|
        0 <= j < k ==> refuses(
            sheet,
            m,
            t.items,
            evidence,
            o.background@,
            left_after(start, t.at, j),
            t.at[j],
            #[trigger] t.errors[j],
        )
    &&& skip_texts(h.skipped@) == early_skips(icons, sheet, m, n) + late_skips(
        icons,
        start,
        t.at,
        t.errors,
        k,
    )
    &&& if left.len() == 0 {
        is_empty_review(h)
    } else {
        exists|report: ReviewReport| #[trigger]
            review::is_report(
                sheet,
                m,
                review::picked(t.items, left),
                review::picked(evidence, left),
                o,
                report,
            ) && maps_report(icons, report, h)
    }
}

/// `r` is the review of the rows of a sheet. Only a mismatch of sizes or an
/// oversized sheet fails it, and only where some row is left to review.
pub open spec fn is_host_review(
    sheet: SheetRaster,
    m: ForegroundMask,
    icons: Seq<HostIcon>,
    evidence: Seq<IconEvidence>,
    o: ReviewOptions,
    r: Result<HostReview, ReviewError>,
) -> bool {
    let start = candidates(icons, sheet, m, icons.len() as int);
    if start.len() > 0 && (sheet.width != m.width || sheet.height != m.height) {
        r == Err::<HostReview, ReviewError>(
            ReviewError::SizeMismatch {
                raster: (sheet.width, sheet.height),
                mask: (m.width, m.height),
            },
        )
    } else if start.len() > 0 && (sheet.width > review::MAX_REVIEW_SIDE || sheet.height
        > review::MAX_REVIEW_SIDE) {
        r == Err::<HostReview, ReviewError>(
            ReviewError::SheetTooLarge { side: (sheet.width, sheet.height) },
        )
    } else {
        r is Ok && exists|t: HostTrace| #[trigger]
            is_host_review_of(sheet, m, icons, evidence, o, t, r->Ok_0)
    }
}

// ---- ids of a report ----------------------------------------------------------------

/// Some item has this id.
spec fn known(items: Seq<HashItem>, id: u32) -> bool {
    exists|i: int| 0 <= i < items.len() && (#[trigger] items[i]).id == id
}

proof fn class_in_range(e: spec_fn(int, int) -> bool, r: int, m: int, t: int)
    requires
        0 <= t < cluster::class_upto(e, r, m).len(),
    ensures
        0 <= cluster::class_upto(e, r, m)[t] < m,
    decreases m,
{
    if m > 0 {
        if t < cluster::class_upto(e, r, m - 1).len() {
            class_in_range(e, r, m - 1, t);
        }
    }
}

/// The ids in a clustering are ids of its items.
proof fn cluster_ids(
    items: Seq<HashItem>,
    pairs: Seq<(usize, usize)>,
    scores: Seq<i64>,
    r: Seq<DupCluster>,
    t: int,
)
    requires
        cluster::is_clustering(items, pairs, scores, r),
        0 <= t < r.len(),
    ensures
        known(items, r[t].keeper),
        forall|j: int| 0 <= j < r[t].members@.len() ==> known(items, #[trigger] r[t].members@[j]),
{
    let order = choose|order: Seq<usize>| #[trigger]
        cluster::lists_classes(items, pairs, scores, r, order);
    let n = items.len() as int;
    let e = cluster::same_class(pairs, n);
    let heads = cluster::heads_upto(e, n, n);
    let cls = cluster::class_upto(e, heads[order[t] as int], n);
    assert(cluster::is_cluster(items, scores, cls, r[t]));
    let ids = cluster::ids_at(items, cls);
    assert forall|i: int| 0 <= i < ids.len() implies known(items, #[trigger] ids[i]) by {
        class_in_range(e, heads[order[t] as int], n, i);
        assert(items[cls[i]].id == ids[i]);
    }
    let k = choose|k: int| #[trigger]
        dupes::is_best(ids, cluster::scores_at(scores, cls), k) && ids[k] == r[t].keeper;
    assert(known(items, ids[k]));
    let o = choose|o: Seq<usize>| #[trigger]
        sorting::is_order(cluster::id_keys(ids), o, 0, ids.len() as int) && r[t].members@
            == cluster::in_order(ids, o);
    assert forall|j: int| 0 <= j < r[t].members@.len() implies known(items, #[trigger] r[t].members@[j]) by {
        assert(r[t].members@[j] == ids[o[j] as int]);
    }
}

/// Some icon has this id.
spec fn listed(stats: Seq<IconStat>, id: u32) -> bool {
    exists|i: int| 0 <= i < stats.len() && (#[trigger] stats[i]).id == id
}

proof fn metric_ids(stats: Seq<IconStat>, m: int, s: Spread, limit: int, n: int, t: int)
    requires
        0 <= n <= stats.len(),
        0 <= t < outliers::metric_flags(stats, m, s, limit, n).len(),
    ensures
        listed(stats, outliers::metric_flags(stats, m, s, limit, n)[t].id),
    decreases n,
{
    if n > 0 {
        if t < outliers::metric_flags(stats, m, s, limit, n - 1).len() {
            metric_ids(stats, m, s, limit, n - 1, t);
        } else {
            assert(stats[n - 1].id == outliers::metric_flags(stats, m, s, limit, n)[t].id);
        }
    }
}

proof fn number_ids(stats: Seq<IconStat>, sp: Seq<Spread>, limit: int, m: int, t: int)
    requires
        0 <= t < outliers::number_flags(stats, sp, limit, m).len(),
    ensures
        listed(stats, outliers::number_flags(stats, sp, limit, m)[t].id),
    decreases m,
{
    if m > 0 {
        let before = outliers::number_flags(stats, sp, limit, m - 1);
        if t < before.len() {
            number_ids(stats, sp, limit, m - 1, t);
        } else {
            metric_ids(stats, m - 1, sp[m - 1], limit, stats.len() as int, t - before.len());
        }
    }
}

proof fn mismatch_ids(
    stats: Seq<IconStat>,
    palette: Option<u64>,
    style: Option<StyleClass>,
    n: int,
    t: int,
)
    requires
        0 <= n <= stats.len(),
        0 <= t < outliers::mismatch_flags(stats, palette, style, n).len(),
    ensures
        listed(stats, outliers::mismatch_flags(stats, palette, style, n)[t].id),
    decreases n,
{
    if n > 0 {
        if t < outliers::mismatch_flags(stats, palette, style, n - 1).len() {
            mismatch_ids(stats, palette, style, n - 1, t);
        } else {
            assert(stats[n - 1].id == outliers::mismatch_flags(stats, palette, style, n)[t].id);
        }
    }
}

/// The ids of a scan are ids of its icons.
proof fn scan_ids(stats: Seq<IconStat>, limit: int, r: Seq<OutlierFlag>, t: int)
    requires
        outliers::is_scan(stats, limit, r),
        0 <= t < r.len(),
    ensures
        listed(stats, r[t].id),
{
    let (sp, p, c) = choose|sp: Seq<Spread>, palette: Option<u64>, style: Option<StyleClass>| #[trigger]
        outliers::is_scan_with(stats, limit, sp, palette, style, r);
    let a = outliers::number_flags(stats, sp, limit, 5);
    let b = outliers::mismatch_flags(stats, p, c, stats.len() as int);
    let fs = a + b;
    let o = choose|o: Seq<usize>| #[trigger]
        sorting::is_order(outliers::flag_keys(fs), o, 0, fs.len() as int) && r == outliers::in_order(
            fs,
            o,
        );
    let at = o[t] as int;
    assert(r[t] == fs[at]);
    if at < a.len() {
        number_ids(stats, sp, limit, 5, at);
    } else {
        mismatch_ids(stats, p, c, stats.len() as int, at - a.len());
    }
}

/// Every id of a report is a row of the list.
spec fn ids_below(report: ReviewReport, n: int) -> bool {
    &&& forall|t: int| 0 <= t < report.icons@.len() ==> (#[trigger] report.icons@[t]).id < n
    &&& forall|t: int| 0 <= t < report.clusters@.len() ==> cluster_below(#[trigger] report.clusters@[t], n)
    &&& forall|t: int| 0 <= t < report.outliers@.len() ==> (#[trigger] report.outliers@[t]).id < n
}

spec fn cluster_below(c: DupCluster, n: int) -> bool {
    c.keeper < n && forall|j: int| 0 <= j < c.members@.len() ==> (#[trigger] c.members@[j]) < n
}

/// A reviewed icon has the id of its input.
proof fn outcome_id(
    sheet: SheetRaster,
    m: ForegroundMask,
    item: ReviewInput,
    ev: IconEvidence,
    bg: Seq<u8>,
    v: IconReview,
)
    requires
        review::is_outcome(sheet, m, item, ev, bg, Ok(v)),
    ensures
        v.id == item.id,
        v.stat.id == item.id,
{
    let score = choose|score: Result<crate::score::Score, crate::score::ScoreError>| #[trigger]
        review::is_outcome_with(sheet, m, item, ev, score, Ok(v)) && (review::reaches_score(
            sheet,
            m,
            item,
            ev,
        ) ==> review::is_icon_score(sheet, item, bg, score));
    assert(review::is_outcome_with(sheet, m, item, ev, score, Ok::<IconReview, ReviewError>(v)));
}

proof fn report_ids(
    sheet: SheetRaster,
    m: ForegroundMask,
    items: Seq<ReviewInput>,
    evidence: Seq<IconEvidence>,
    o: ReviewOptions,
    report: ReviewReport,
    n: int,
)
    requires
        review::is_report(sheet, m, items, evidence, o, report),
        forall|t: int| 0 <= t < items.len() ==> (#[trigger] items[t]).id < n,
    ensures
        ids_below(report, n),
{
    let icons = report.icons@;
    assert forall|t: int| 0 <= t < icons.len() implies (#[trigger] icons[t]).id < n && icons[t].stat.id
        < n by {
        outcome_id(sheet, m, items[t], evidence[t], o.background@, icons[t]);
    }
    let hs = review::hash_items(icons);
    let ps = review::planes_in(evidence);
    let sc = review::composites(icons);
    let pairs = choose|pairs: Seq<(usize, usize)>| #[trigger]
        cascade::is_cascade_of(hs, ps, sc, o.dupes, pairs, report.clusters@, report.cascade);
    let sure = cascade::confirmed(hs, ps, o.dupes, pairs, pairs.len() as int);
    assert forall|t: int| 0 <= t < report.clusters@.len() implies cluster_below(
        #[trigger] report.clusters@[t],
        n,
    ) by {
        cluster_ids(hs, sure, sc, report.clusters@, t);
        let c = report.clusters@[t];
        let i = choose|i: int| 0 <= i < hs.len() && (#[trigger] hs[i]).id == c.keeper;
        assert(icons[i].id == c.keeper);
        assert forall|j: int| 0 <= j < c.members@.len() implies (#[trigger] c.members@[j]) < n by {
            assert(known(hs, c.members@[j]));
            let i = choose|i: int| 0 <= i < hs.len() && (#[trigger] hs[i]).id == c.members@[j];
            assert(icons[i].id == c.members@[j]);
        }
    }
    let stats = review::stats_of(icons);
    assert forall|t: int| 0 <= t < report.outliers@.len() implies (#[trigger] report.outliers@[t]).id
        < n by {
        scan_ids(stats, o.outlier_z as int, report.outliers@, t);
        let i = choose|i: int| 0 <= i < stats.len() && (#[trigger] stats[i]).id == report.outliers@[t].id;
        assert(icons[i].stat.id == report.outliers@[t].id);
    }
}

// ---- running it ---------------------------------------------------------------------

fn copy_review(v: &IconReview) -> (r: IconReview)
    ensures
        review::same_review(r, *v),
{
    IconReview {
        id: v.id,
        score: v.score,
        flags: review::copy_flags(&v.flags),
        node_count: v.node_count,
        closed: v.closed,
        colours: v.colours,
        ink_area: v.ink_area,
        stat: v.stat,
        d_hash: v.d_hash,
        a_hash: v.a_hash,
        digest: v.digest,
    }
}

fn map_cluster(c: &DupCluster, icons: &Vec<HostIcon>) -> (r: HostCluster)
    requires
        cluster_below(*c, icons@.len() as int),
    ensures
        maps_cluster(icons@, *c, r),
{
    let mut members: Vec<[u8; 16]> = Vec::new();
    let mut i: usize = 0;
    while i < c.members.len()
        invariant
            i <= c.members@.len(),
            cluster_below(*c, icons@.len() as int),
            members@.len() == i,
            forall|t: int|
                0 <= t < i ==> (#[trigger] members@[t])@ == icons@[c.members@[t] as int].id@,
        decreases c.members@.len() - i,
    {
        assert(c.members@[i as int] < icons@.len());
        members.push(icons[c.members[i] as usize].id);
        i = i + 1;
    }
    HostCluster { members, keeper: icons[c.keeper as usize].id }
}

/// A report in the library's ids.
fn map_report(report: &ReviewReport, icons: &Vec<HostIcon>, skipped: Vec<HostSkip>) -> (r: HostReview)
    requires
        ids_below(*report, icons@.len() as int),
    ensures
        maps_report(icons@, *report, r),
        r.skipped == skipped,
{
    let mut out: Vec<HostIconReview> = Vec::new();
    let mut i: usize = 0;
    while i < report.icons.len()
        invariant
            i <= report.icons@.len(),
            ids_below(*report, icons@.len() as int),
            out@.len() == i,
            forall|t: int|
                0 <= t < i ==> (#[trigger] out@[t]).index == report.icons@[t].id && out@[t].id@
                    == icons@[report.icons@[t].id as int].id@ && review::same_review(
                    out@[t].review,
                    report.icons@[t],
                ),
        decreases report.icons@.len() - i,
    {
        let v = &report.icons[i];
        assert(report.icons@[i as int].id < icons@.len());
        out.push(HostIconReview { id: icons[v.id as usize].id, index: v.id, review: copy_review(v) });
        i = i + 1;
    }
    let mut clusters: Vec<HostCluster> = Vec::new();
    let mut j: usize = 0;
    while j < report.clusters.len()
        invariant
            j <= report.clusters@.len(),
            ids_below(*report, icons@.len() as int),
            clusters@.len() == j,
            forall|t: int|
                0 <= t < j ==> maps_cluster(icons@, report.clusters@[t], #[trigger] clusters@[t]),
        decreases report.clusters@.len() - j,
    {
        assert(cluster_below(report.clusters@[j as int], icons@.len() as int));
        clusters.push(map_cluster(&report.clusters[j], icons));
        j = j + 1;
    }
    let mut found: Vec<HostOutlier> = Vec::new();
    let mut k: usize = 0;
    while k < report.outliers.len()
        invariant
            k <= report.outliers@.len(),
            ids_below(*report, icons@.len() as int),
            found@.len() == k,
            forall|t: int|
                0 <= t < k ==> (#[trigger] found@[t]).flag == report.outliers@[t] && found@[t].id@
                    == icons@[report.outliers@[t].id as int].id@,
        decreases report.outliers@.len() - k,
    {
        let f: OutlierFlag = report.outliers[k];
        assert(report.outliers@[k as int].id < icons@.len());
        found.push(HostOutlier { id: icons[f.id as usize].id, flag: f });
        k = k + 1;
    }
    HostReview {
        icons: out,
        skipped,
        clusters,
        outliers: found,
        flagged: report.flagged,
        cascade: report.cascade,
    }
}

impl HostReview {
    /// A pass that reviewed nothing, with the skips that say why.
    pub fn empty(skipped: Vec<HostSkip>) -> (r: HostReview)
        ensures
            is_empty_review(r),
            r.skipped == skipped,
    {
        HostReview {
            icons: Vec::new(),
            skipped,
            clusters: Vec::new(),
            outliers: Vec::new(),
            flagged: 0,
            cascade: CascadeCounts { candidates: 0, verified: 0, confirmed: 0 },
        }
    }
}

proof fn candidate_facts(icons: Seq<HostIcon>, sheet: SheetRaster, m: ForegroundMask, n: int)
    requires
        0 <= n <= icons.len(),
        icons.len() <= usize::MAX,
    ensures
        candidates(icons, sheet, m, n).len() <= n,
        forall|t: int| 0 <= t < candidates(icons, sheet, m, n).len() ==> (#[trigger] candidates(icons, sheet, m, n)[t]) < n,
    decreases n,
{
    if n > 0 {
        candidate_facts(icons, sheet, m, n - 1);
    }
}

/// The review inputs of the rows.
fn inputs_of(icons: &Vec<HostIcon>) -> (r: Vec<ReviewInput>)
    requires
        icons@.len() <= u32::MAX,
    ensures
        stand_for(icons@, r@),
{
    let mut out: Vec<ReviewInput> = Vec::new();
    let mut i: usize = 0;
    while i < icons.len()
        invariant
            i <= icons@.len(),
            icons@.len() <= u32::MAX,
            out@.len() == i,
            forall|p: int|
                0 <= p < i ==> (#[trigger] out@[p]).id == p && out@[p].bbox == icons@[p].bbox && (
                icons@[p].document is Some ==> out@[p].document@ == icons@[p].document->0@),
        decreases icons@.len() - i,
    {
        let document = match &icons[i].document {
            Some(d) => review::copy_text(d),
            None => String::from_str(""),
        };
        out.push(ReviewInput { id: i as u32, document, bbox: icons[i].bbox });
        i = i + 1;
    }
    out
}

/// What the review says of a refusal: it names the refused row.
proof fn refusal_names(
    sheet: SheetRaster,
    m: ForegroundMask,
    items: Seq<ReviewInput>,
    evidence: Seq<IconEvidence>,
    bg: Seq<u8>,
    at: int,
    e: ReviewError,
)
    requires
        review::is_first_refusal(sheet, m, items, evidence, bg, at, e),
    ensures
        refusal_of(e) is Some,
        (refusal_of(e)->0).0 == items[at].id,
{
    let item = items[at];
    let ev = evidence[at];
    let score = choose|score: Result<crate::score::Score, crate::score::ScoreError>| #[trigger]
        review::is_outcome_with(sheet, m, item, ev, score, Err(e)) && (review::reaches_score(
            sheet,
            m,
            item,
            ev,
        ) ==> review::is_icon_score(sheet, item, bg, score));
    assert(review::is_outcome_with(sheet, m, item, ev, score, Err::<IconReview, ReviewError>(e)));
}

/// The sheet and its mask have one size, and it can be reviewed.
spec fn sizes_ok(sheet: SheetRaster, m: ForegroundMask) -> bool {
    sheet.width == m.width && sheet.height == m.height && sheet.width <= review::MAX_REVIEW_SIDE
        && sheet.height <= review::MAX_REVIEW_SIDE
}

/// The rows in `left` and the skips so far are what a trace leads to.
#[verifier::opaque]
spec fn progressed(
    sheet: SheetRaster,
    m: ForegroundMask,
    icons: Seq<HostIcon>,
    evidence: Seq<IconEvidence>,
    bg: Seq<u8>,
    t: HostTrace,
    left: Seq<usize>,
    skips: Seq<SkipText>,
) -> bool {
    let start = candidates(icons, sheet, m, icons.len() as int);
    let k = t.at.len() as int;
    &&& stand_for(icons, t.items)
    &&& t.errors.len() == k
    &&& left == left_after(start, t.at, k)
    &&& forall|j: int|
        0 <= j < k ==> refuses(
            sheet,
            m,
            t.items,
            evidence,
            bg,
            left_after(start, t.at, j),
            t.at[j],
            #[trigger] t.errors[j],
        )
    &&& skips == early_skips(icons, sheet, m, icons.len() as int) + late_skips(
        icons,
        start,
        t.at,
        t.errors,
        k,
    )
    &&& k > 0 ==> sizes_ok(sheet, m)
}

proof fn progress_starts(
    sheet: SheetRaster,
    m: ForegroundMask,
    icons: Seq<HostIcon>,
    evidence: Seq<IconEvidence>,
    bg: Seq<u8>,
    items: Seq<ReviewInput>,
)
    requires
        stand_for(icons, items),
    ensures
        progressed(
            sheet,
            m,
            icons,
            evidence,
            bg,
            HostTrace { items, at: Seq::empty(), errors: Seq::empty() },
            candidates(icons, sheet, m, icons.len() as int),
            early_skips(icons, sheet, m, icons.len() as int),
        ),
{
    reveal(progressed);
    let early = early_skips(icons, sheet, m, icons.len() as int);
    let start = candidates(icons, sheet, m, icons.len() as int);
    assert(early + late_skips(icons, start, Seq::empty(), Seq::empty(), 0) =~= early);
}

proof fn progress_goes_on(
    sheet: SheetRaster,
    m: ForegroundMask,
    icons: Seq<HostIcon>,
    evidence: Seq<IconEvidence>,
    bg: Seq<u8>,
    t: HostTrace,
    left: Seq<usize>,
    skips: Seq<SkipText>,
    k: int,
    e: ReviewError,
)
    requires
        progressed(sheet, m, icons, evidence, bg, t, left, skips),
        sizes_ok(sheet, m),
        refuses(sheet, m, t.items, evidence, bg, left, k, e),
    ensures
        progressed(
            sheet,
            m,
            icons,
            evidence,
            bg,
            HostTrace { items: t.items, at: t.at.push(k), errors: t.errors.push(e) },
            left.remove(k),
            skips.push((icons[left[k] as int].id@, (refusal_of(e)->0).1)),
        ),
{
    reveal(progressed);
    let start = candidates(icons, sheet, m, icons.len() as int);
    let at = t.at.push(k);
    let errors = t.errors.push(e);
    let n = t.at.len() as int;
    left_prefix(start, t.at, at, n);
    late_prefix(icons, start, t.at, at, t.errors, errors, n);
    assert forall|j: int| 0 <= j < at.len() implies refuses(
        sheet,
        m,
        t.items,
        evidence,
        bg,
        left_after(start, at, j),
        at[j],
        #[trigger] errors[j],
    ) by {
        if j < n {
            assert(errors[j] == t.errors[j]);
            left_prefix(start, t.at, at, j);
        }
    }
    let early = early_skips(icons, sheet, m, icons.len() as int);
    assert(skips.push((icons[left[k] as int].id@, (refusal_of(e)->0).1)) =~= early + late_skips(
        icons,
        start,
        at,
        errors,
        n + 1,
    ));
}

proof fn progress_facts(
    sheet: SheetRaster,
    m: ForegroundMask,
    icons: Seq<HostIcon>,
    evidence: Seq<IconEvidence>,
    bg: Seq<u8>,
    t: HostTrace,
    left: Seq<usize>,
    skips: Seq<SkipText>,
)
    requires
        progressed(sheet, m, icons, evidence, bg, t, left, skips),
    ensures
        left.len() > 0 ==> candidates(icons, sheet, m, icons.len() as int).len() > 0,
        left.len() == 0 && candidates(icons, sheet, m, icons.len() as int).len() > 0 ==> sizes_ok(
            sheet,
            m,
        ),
{
    reveal(progressed);
    let start = candidates(icons, sheet, m, icons.len() as int);
    let k = t.at.len() as int;
    assert forall|j: int| 0 <= j < k implies 0 <= #[trigger] t.at[j] < left_after(start, t.at, j).len() by {
        assert(refuses(
            sheet,
            m,
            t.items,
            evidence,
            bg,
            left_after(start, t.at, j),
            t.at[j],
            t.errors[j],
        ));
    }
    if left.len() > 0 {
        start_shrinks(start, t.at, k);
    }
}

proof fn progress_ends(
    sheet: SheetRaster,
    m: ForegroundMask,
    icons: Seq<HostIcon>,
    evidence: Seq<IconEvidence>,
    o: ReviewOptions,
    t: HostTrace,
    left: Seq<usize>,
    h: HostReview,
)
    requires
        progressed(sheet, m, icons, evidence, o.background@, t, left, skip_texts(h.skipped@)),
        left.len() == 0 ==> is_empty_review(h),
        left.len() > 0 ==> exists|report: ReviewReport| #[trigger]
            review::is_report(
                sheet,
                m,
                review::picked(t.items, left),
                review::picked(evidence, left),
                o,
                report,
            ) && maps_report(icons, report, h),
    ensures
        is_host_review_of(sheet, m, icons, evidence, o, t, h),
{
    reveal(progressed);
}

/// Takes the first row that the review refuses out of the list.
fn drop_refused(
    icons: &Vec<HostIcon>,
    left: &mut Vec<usize>,
    skipped: &mut Vec<HostSkip>,
    error: &ReviewError,
    Ghost(k): Ghost<int>,
)
    requires
        0 <= k < old(left)@.len(),
        distinct(old(left)@),
        review::picks_fit(old(left)@, icons@.len() as int),
        icons@.len() <= u32::MAX,
        refusal_of(*error) is Some,
        (refusal_of(*error)->0).0 == old(left)@[k],
    ensures
        final(left)@ == old(left)@.remove(k),
        skip_texts(final(skipped)@) == skip_texts(old(skipped)@).push(
            (icons@[old(left)@[k] as int].id@, (refusal_of(*error)->0).1),
        ),
{
    let ghost l0 = left@;
    let ghost s0 = skipped@;
    match per_icon_refusal(error) {
        Some((id, reason)) => {
            let place: usize = position_of(left, id as usize, Ghost(k));
            proof {
                assert(l0[place as int] == l0[k]);
                if place < k {
                    assert(l0[place as int] != l0[k]);
                } else if place > k {
                    assert(l0[k] != l0[place as int]);
                }
                assert(l0[k] < icons@.len());
            }
            skipped.push(HostSkip { id: icons[id as usize].id, reason });
            left.remove(place);
            assert(skip_texts(skipped@) =~= skip_texts(s0).push((icons@[id as int].id@, reason@)));
        },
        None => {},
    }
}

/// Turns a report on the rows in `left` into the result of the whole pass.
fn finish_report(
    sheet: &SheetRaster,
    m: &ForegroundMask,
    icons: &Vec<HostIcon>,
    report: &ReviewReport,
    skipped: Vec<HostSkip>,
    Ghost(evidence): Ghost<Seq<IconEvidence>>,
    Ghost(o): Ghost<ReviewOptions>,
    Ghost(t): Ghost<HostTrace>,
    Ghost(left): Ghost<Seq<usize>>,
) -> (h: HostReview)
    requires
        left.len() > 0,
        review::picks_fit(left, icons@.len() as int),
        stand_for(icons@, t.items),
        progressed(*sheet, *m, icons@, evidence, o.background@, t, left, skip_texts(skipped@)),
        review::is_report(
            *sheet,
            *m,
            review::picked(t.items, left),
            review::picked(evidence, left),
            o,
            *report,
        ),
    ensures
        is_host_review_of(*sheet, *m, icons@, evidence, o, t, h),
{
    proof {
        let its = review::picked(t.items, left);
        assert forall|u: int| 0 <= u < its.len() implies (#[trigger] its[u]).id < icons@.len() by {
            assert(left[u] < icons@.len());
            assert(t.items[left[u] as int].id == left[u]);
        }
        report_ids(
            *sheet,
            *m,
            its,
            review::picked(evidence, left),
            o,
            *report,
            icons@.len() as int,
        );
    }
    let h = map_report(report, icons, skipped);
    proof {
        progress_ends(*sheet, *m, icons@, evidence, o, t, left, h);
    }
    h
}

/// The size check of a sheet and its mask, as the review makes it.
fn sizes_fit(sheet: &SheetRaster, m: &ForegroundMask) -> (r: bool)
    ensures
        r == sizes_ok(*sheet, *m),
{
    sheet.width == m.width && sheet.height == m.height && sheet.width <= review::MAX_REVIEW_SIDE
        && sheet.height <= review::MAX_REVIEW_SIDE
}

/// Reviews the rows of a sheet. `evidence` runs parallel to `icons`; of a row
/// that is skipped early nothing in it is read.
pub fn host_review(
    sheet: &SheetRaster,
    m: &ForegroundMask,
    icons: &Vec<HostIcon>,
    evidence: &Vec<IconEvidence>,
    options: &ReviewOptions,
) -> (r: Result<HostReview, ReviewError>)
    requires
        sheet.wf(),
        m.wf(),
        evidence@.len() == icons@.len(),
        icons@.len() <= u32::MAX,
        review::shapes_fit(evidence@),
    ensures
        is_host_review(*sheet, *m, icons@, evidence@, *options, r),
{
    let n: usize = icons.len();
    let ghost rows = icons@;
    let ghost bg = options.background@;
    let mut skipped: Vec<HostSkip> = Vec::new();
    let mut left: Vec<usize> = Vec::new();
    let mut i: usize = 0;
    assert(skip_texts(skipped@) =~= early_skips(rows, *sheet, *m, 0));
    while i < n
        invariant
            i <= n,
            n == rows.len(),
            rows == icons@,
            m.wf(),
            skip_texts(skipped@) == early_skips(rows, *sheet, *m, i as int),
            left@ == candidates(rows, *sheet, *m, i as int),
        decreases n - i,
    {
        let ghost s0 = skipped@;
        match skip_reason(&icons[i], sheet, m) {
            Some(reason) => {
                skipped.push(HostSkip { id: icons[i].id, reason });
                assert(skip_texts(skipped@) =~= skip_texts(s0).push(
                    (icons@[i as int].id@, reason@),
                ));
            },
            None => {
                left.push(i);
            },
        }
        i = i + 1;
    }
    let items = inputs_of(icons);
    let ghost mut t = HostTrace { items: items@, at: Seq::empty(), errors: Seq::empty() };
    proof {
        candidate_facts(rows, *sheet, *m, n as int);
        start_is_distinct(rows, *sheet, *m, n as int);
        progress_starts(*sheet, *m, rows, evidence@, bg, items@);
    }
    while left.len() > 0
        invariant
            n == rows.len(),
            rows == icons@,
            bg == options.background@,
            sheet.wf(),
            m.wf(),
            evidence@.len() == n,
            n <= u32::MAX,
            review::shapes_fit(evidence@),
            t.items == items@,
            stand_for(rows, items@),
            progressed(*sheet, *m, rows, evidence@, bg, t, left@, skip_texts(skipped@)),
            left@.len() <= n,
            distinct(left@),
            review::picks_fit(left@, n as int),
        decreases left@.len(),
    {
        proof {
            progress_facts(*sheet, *m, rows, evidence@, bg, t, left@, skip_texts(skipped@));
        }
        let ghost its = review::picked(items@, left@);
        let ghost evs = review::picked(evidence@, left@);
        match review::review_picked(sheet, m, &items, evidence, &left, options) {
            Ok(report) => {
                let h = finish_report(
                    sheet,
                    m,
                    icons,
                    &report,
                    skipped,
                    Ghost(evidence@),
                    Ghost(*options),
                    Ghost(t),
                    Ghost(left@),
                );
                let r: Result<HostReview, ReviewError> = Ok(h);
                assert(is_host_review_of(*sheet, *m, rows, evidence@, *options, t, r->Ok_0));
                return r;
            },
            Err(error) => {
                if !sizes_fit(sheet, m) {
                    return Err(error);
                }
                let ghost k = choose|k: int| #[trigger]
                    review::is_first_refusal(*sheet, *m, its, evs, bg, k, error);
                let ghost l0 = left@;
                let ghost s0 = skip_texts(skipped@);
                proof {
                    refusal_names(*sheet, *m, its, evs, bg, k, error);
                    assert(l0[k] < n);
                    assert(items@[l0[k] as int].id == l0[k]);
                    assert(refuses(*sheet, *m, items@, evidence@, bg, l0, k, error));
                }
                drop_refused(icons, &mut left, &mut skipped, &error, Ghost(k));
                proof {
                    progress_goes_on(*sheet, *m, rows, evidence@, bg, t, l0, s0, k, error);
                    t = HostTrace { items: t.items, at: t.at.push(k), errors: t.errors.push(error) };
                    removal_keeps(l0, k, n as int);
                }
            },
        }
    }
    let h = HostReview::empty(skipped);
    proof {
        progress_facts(*sheet, *m, rows, evidence@, bg, t, left@, skip_texts(h.skipped@));
        progress_ends(*sheet, *m, rows, evidence@, *options, t, left@, h);
    }
    let r: Result<HostReview, ReviewError> = Ok(h);
    assert(is_host_review_of(*sheet, *m, rows, evidence@, *options, t, r->Ok_0));
    r
}

proof fn removal_keeps(s: Seq<usize>, p: int, n: int)
    requires
        0 <= p < s.len(),
        distinct(s),
        review::picks_fit(s, n),
    ensures
        distinct(s.remove(p)),
        review::picks_fit(s.remove(p), n),
{
    let r = s.remove(p);
    assert forall|i: int| 0 <= i < r.len() implies (#[trigger] r[i]) < n by {
        let a = if i < p {
            i
        } else {
            i + 1
        };
        assert(r[i] == s[a]);
    }
    assert forall|i: int, j: int| 0 <= i < j < r.len() implies #[trigger] r[i] != #[trigger] r[j] by {
        let a = if i < p {
            i
        } else {
            i + 1
        };
        let b = if j < p {
            j
        } else {
            j + 1
        };
        assert(r[i] == s[a] && r[j] == s[b]);
    }
}

/// A place in the list that holds `v`; there is one.
fn position_of(list: &Vec<usize>, v: usize, Ghost(k): Ghost<int>) -> (r: usize)
    requires
        0 <= k < list@.len(),
        list@[k] == v,
    ensures
        r < list@.len(),
        list@[r as int] == v,
{
    let n: usize = list.len();
    let mut i: usize = 0;
    while list[i] != v
        invariant
            n == list@.len(),
            i <= k < n,
            list@[k] == v,
        decreases k - i,
    {
        i = i + 1;
    }
    i
}

proof fn start_shrinks(start: Seq<usize>, at: Seq<int>, k: int)
    requires
        0 <= k <= at.len(),
        left_after(start, at, k).len() > 0,
        forall|j: int| 0 <= j < k ==> 0 <= #[trigger] at[j] < left_after(start, at, j).len(),
    ensures
        start.len() > 0,
    decreases k,
{
    if k > 0 {
        assert(0 <= at[k - 1] < left_after(start, at, k - 1).len());
        start_shrinks(start, at, k - 1);
    }
}

proof fn left_prefix(start: Seq<usize>, a: Seq<int>, b: Seq<int>, k: int)
    requires
        0 <= k <= a.len() <= b.len(),
        forall|j: int| 0 <= j < k ==> #[trigger] a[j] == b[j],
    ensures
        left_after(start, a, k) == left_after(start, b, k),
    decreases k,
{
    if k > 0 {
        left_prefix(start, a, b, k - 1);
        assert(a[k - 1] == b[k - 1]);
    }
}

proof fn late_prefix(
    icons: Seq<HostIcon>,
    start: Seq<usize>,
    a: Seq<int>,
    b: Seq<int>,
    e: Seq<ReviewError>,
    f: Seq<ReviewError>,
    k: int,
)
    requires
        0 <= k <= a.len() <= b.len(),
        k <= e.len() <= f.len(),
        forall|j: int| 0 <= j < k ==> #[trigger] a[j] == b[j],
        forall|j: int| 0 <= j < k ==> #[trigger] e[j] == f[j],
    ensures
        late_skips(icons, start, a, e, k) == late_skips(icons, start, b, f, k),
    decreases k,
{
    if k > 0 {
        late_prefix(icons, start, a, b, e, f, k - 1);
        left_prefix(start, a, b, k - 1);
        assert(a[k - 1] == b[k - 1]);
        assert(e[k - 1] == f[k - 1]);
    }
}

/// No row is listed twice.
spec fn distinct(s: Seq<usize>) -> bool {
    forall|i: int, j: int| 0 <= i < j < s.len() ==> #[trigger] s[i] != #[trigger] s[j]
}

proof fn start_is_distinct(icons: Seq<HostIcon>, sheet: SheetRaster, m: ForegroundMask, n: int)
    requires
        0 <= n <= icons.len(),
        icons.len() <= usize::MAX,
    ensures
        distinct(candidates(icons, sheet, m, n)),
    decreases n,
{
    if n > 0 {
        start_is_distinct(icons, sheet, m, n - 1);
        candidate_facts(icons, sheet, m, n - 1);
    }
}

// ---- laws ---------------------------------------------------------------------------

/// Rows are listed in ascending order.
pub open spec fn ascends(s: Seq<usize>) -> bool {
    forall|i: int, j: int| 0 <= i < j < s.len() ==> #[trigger] s[i] < #[trigger] s[j]
}

proof fn start_ascends(icons: Seq<HostIcon>, sheet: SheetRaster, m: ForegroundMask, n: int)
    requires
        0 <= n <= icons.len(),
        icons.len() <= usize::MAX,
    ensures
        ascends(candidates(icons, sheet, m, n)),
        candidates(icons, sheet, m, n).len() + early_skips(icons, sheet, m, n).len() == n,
        review::picks_fit(candidates(icons, sheet, m, n), n),
    decreases n,
{
    if n > 0 {
        start_ascends(icons, sheet, m, n - 1);
    }
}

proof fn removal_ascends(s: Seq<usize>, p: int, n: int)
    requires
        ascends(s),
        review::picks_fit(s, n),
        0 <= p < s.len(),
    ensures
        ascends(s.remove(p)),
        review::picks_fit(s.remove(p), n),
{
    let r = s.remove(p);
    assert forall|i: int| 0 <= i < r.len() implies (#[trigger] r[i]) < n by {
        let a = if i < p {
            i
        } else {
            i + 1
        };
        assert(r[i] == s[a]);
    }
    assert forall|i: int, j: int| 0 <= i < j < r.len() implies #[trigger] r[i] < #[trigger] r[j] by {
        let a = if i < p {
            i
        } else {
            i + 1
        };
        let b = if j < p {
            j
        } else {
            j + 1
        };
        assert(r[i] == s[a] && r[j] == s[b]);
    }
}

proof fn left_ascends(icons: Seq<HostIcon>, start: Seq<usize>, at: Seq<int>, errors: Seq<ReviewError>, k: int, n: int)
    requires
        ascends(start),
        review::picks_fit(start, n),
        0 <= k <= at.len(),
        forall|j: int| 0 <= j < k ==> 0 <= #[trigger] at[j] < left_after(start, at, j).len(),
    ensures
        ascends(left_after(start, at, k)),
        review::picks_fit(left_after(start, at, k), n),
        left_after(start, at, k).len() + k == start.len(),
        late_skips(icons, start, at, errors, k).len() == k,
    decreases k,
{
    if k > 0 {
        left_ascends(icons, start, at, errors, k - 1, n);
        assert(0 <= at[k - 1] < left_after(start, at, k - 1).len());
        removal_ascends(left_after(start, at, k - 1), at[k - 1], n);
    }
}

/// A skipped row leaves a gap and moves no other: every reviewed icon stands
/// under its own position in the row list, in row order, with the id of that
/// row; and every row is either reviewed or skipped.
pub proof fn rows_keep_their_ids(
    sheet: SheetRaster,
    m: ForegroundMask,
    icons: Seq<HostIcon>,
    evidence: Seq<IconEvidence>,
    o: ReviewOptions,
    h: HostReview,
)
    requires
        icons.len() <= u32::MAX,
        icons.len() <= usize::MAX,
        is_host_review(sheet, m, icons, evidence, o, Ok(h)),
    ensures
        h.icons@.len() + h.skipped@.len() == icons.len(),
        forall|t: int|
            0 <= t < h.icons@.len() ==> (#[trigger] h.icons@[t]).index < icons.len() && h.icons@[t].id@
                == icons[h.icons@[t].index as int].id@,
        forall|s: int, t: int|
            0 <= s < t < h.icons@.len() ==> (#[trigger] h.icons@[s]).index < (#[trigger] h.icons@[t]).index,
{
    let r: Result<HostReview, ReviewError> = Ok(h);
    let t = choose|t: HostTrace| #[trigger]
        is_host_review_of(sheet, m, icons, evidence, o, t, r->Ok_0);
    let n = icons.len() as int;
    let start = candidates(icons, sheet, m, n);
    let k = t.at.len() as int;
    let left = left_after(start, t.at, k);
    start_ascends(icons, sheet, m, n);
    assert forall|j: int| 0 <= j < k implies 0 <= #[trigger] t.at[j] < left_after(start, t.at, j).len() by {
        assert(refuses(
            sheet,
            m,
            t.items,
            evidence,
            o.background@,
            left_after(start, t.at, j),
            t.at[j],
            t.errors[j],
        ));
    }
    left_ascends(icons, start, t.at, t.errors, k, n);
    assert(skip_texts(h.skipped@).len() == h.skipped@.len());
    if left.len() > 0 {
        let its = review::picked(t.items, left);
        let evs = review::picked(evidence, left);
        let report = choose|report: ReviewReport| #[trigger]
            review::is_report(sheet, m, its, evs, o, report) && maps_report(icons, report, h);
        assert forall|u: int| 0 <= u < left.len() implies (#[trigger] h.icons@[u]).index == left[u] by {
            let v = report.icons@[u];
            assert(review::is_outcome(sheet, m, its[u], evs[u], o.background@, Ok(v)));
            outcome_id(sheet, m, its[u], evs[u], o.background@, v);
            assert(left[u] < n);
            assert(t.items[left[u] as int].id == left[u]);
        }
        assert forall|s: int, u: int| 0 <= s < u < h.icons@.len() implies (#[trigger] h.icons@[s]).index
            < (#[trigger] h.icons@[u]).index by {
            assert(left[s] < left[u]);
        }
        assert forall|u: int| 0 <= u < h.icons@.len() implies (#[trigger] h.icons@[u]).index
            < icons.len() && h.icons@[u].id@ == icons[h.icons@[u].index as int].id@ by {
            assert(left[u] < n);
        }
    }
}

// ---- duplicates ---------------------------------------------------------------------

/// The list holds this id.
pub open spec fn holds(list: Seq<[u8; 16]>, id: Seq<u8>) -> bool {
    exists|k: int| 0 <= k < list.len() && (#[trigger] list[k])@ == id
}

/// The id is a member of some cluster.
pub open spec fn is_duplicate_id(clusters: Seq<HostCluster>, id: Seq<u8>) -> bool {
    exists|c: int| 0 <= c < clusters.len() && holds((#[trigger] clusters[c]).members@, id)
}

fn same_id(a: &[u8; 16], b: &[u8; 16]) -> (r: bool)
    ensures
        r == (a@ == b@),
{
    let mut i: usize = 0;
    while i < 16
        invariant
            i <= 16,
            forall|k: int| 0 <= k < i ==> #[trigger] a@[k] == b@[k],
        decreases 16 - i,
    {
        if a[i] != b[i] {
            assert(a@[i as int] != b@[i as int]);
            return false;
        }
        i = i + 1;
    }
    assert(a@ =~= b@);
    true
}

/// The ids first differ at byte `k`, and `a` has the lesser one there.
pub open spec fn lesser_at(a: Seq<u8>, b: Seq<u8>, k: int) -> bool {
    0 <= k < 16 && a[k] < b[k] && forall|j: int| 0 <= j < k ==> #[trigger] a[j] == b[j]
}

/// `a` comes before `b`, byte by byte.
pub open spec fn id_lt(a: Seq<u8>, b: Seq<u8>) -> bool {
    exists|k: int| #[trigger] lesser_at(a, b, k)
}

/// The ids ascend, each standing once.
pub open spec fn ids_ascend(list: Seq<[u8; 16]>) -> bool {
    forall|i: int, j: int| 0 <= i < j < list.len() ==> id_lt((#[trigger] list[i])@, (#[trigger] list[j])@)
}

proof fn id_lt_trans(a: Seq<u8>, b: Seq<u8>, c: Seq<u8>)
    requires
        id_lt(a, b),
        id_lt(b, c),
    ensures
        id_lt(a, c),
{
    let i = choose|k: int| #[trigger] lesser_at(a, b, k);
    let j = choose|k: int| #[trigger] lesser_at(b, c, k);
    if i <= j {
        assert(lesser_at(a, c, i));
    } else {
        assert(lesser_at(a, c, j));
    }
}

fn id_less(a: &[u8; 16], b: &[u8; 16]) -> (r: bool)
    ensures
        r ==> id_lt(a@, b@),
        !r && a@ != b@ ==> id_lt(b@, a@),
{
    let mut i: usize = 0;
    while i < 16
        invariant
            i <= 16,
            forall|k: int| 0 <= k < i ==> #[trigger] a@[k] == b@[k],
        decreases 16 - i,
    {
        if a[i] != b[i] {
            assert(lesser_at(a@, b@, i as int) || lesser_at(b@, a@, i as int));
            return a[i] < b[i];
        }
        i = i + 1;
    }
    assert(a@ =~= b@);
    false
}

/// Puts an id in its place, unless it is there.
fn put_id(list: &mut Vec<[u8; 16]>, id: [u8; 16])
    requires
        ids_ascend(old(list)@),
    ensures
        ids_ascend(final(list)@),
        forall|x: Seq<u8>| #[trigger] holds(final(list)@, x) <==> holds(old(list)@, x) || x == id@,
{
    let ghost l0 = list@;
    let n: usize = list.len();
    let mut k: usize = 0;
    while k < n && id_less(&list[k], &id)
        invariant
            k <= n,
            n == l0.len(),
            list@ == l0,
            forall|i: int| 0 <= i < k ==> id_lt((#[trigger] l0[i])@, id@),
        decreases n - k,
    {
        k = k + 1;
    }
    if k < n && same_id(&list[k], &id) {
        assert(l0[k as int]@ == id@);
        return;
    }
    proof {
        assert forall|i: int| k <= i < n implies id_lt(id@, (#[trigger] l0[i])@) by {
            if k < i {
                id_lt_trans(id@, l0[k as int]@, l0[i]@);
            }
        }
    }
    list.insert(k, id);
    proof {
        let l1 = list@;
        assert(l1 == l0.insert(k as int, id));
        assert forall|i: int, j: int| 0 <= i < j < l1.len() implies id_lt(
            (#[trigger] l1[i])@,
            (#[trigger] l1[j])@,
        ) by {
            let a = if i < k {
                i
            } else {
                i - 1
            };
            let b = if j < k {
                j
            } else {
                j - 1
            };
            if i != k && j != k {
                assert(l1[i] == l0[a] && l1[j] == l0[b]);
            } else if i == k {
                assert(l1[j] == l0[b]);
            } else {
                assert(l1[i] == l0[a]);
            }
        }
        assert forall|x: Seq<u8>| #[trigger] holds(l1, x) <==> holds(l0, x) || x == id@ by {
            if holds(l0, x) {
                let i = choose|i: int| 0 <= i < l0.len() && (#[trigger] l0[i])@ == x;
                if i < k {
                    assert(l1[i]@ == x);
                } else {
                    assert(l1[i + 1]@ == x);
                }
            }
            if x == id@ {
                assert(l1[k as int]@ == x);
            }
            if holds(l1, x) {
                let i = choose|i: int| 0 <= i < l1.len() && (#[trigger] l1[i])@ == x;
                if i < k {
                    assert(l0[i]@ == x);
                } else if i > k {
                    assert(l0[i - 1]@ == x);
                }
            }
        }
    }
}

impl HostReview {
    /// The ids of all duplicate clusters' members, ascending and each once.
    pub fn duplicate_ids(&self) -> (r: Vec<[u8; 16]>)
        ensures
            ids_ascend(r@),
            forall|x: Seq<u8>| #[trigger] holds(r@, x) <==> is_duplicate_id(self.clusters@, x),
    {
        let mut out: Vec<[u8; 16]> = Vec::new();
        let ghost cs = self.clusters@;
        let mut c: usize = 0;
        while c < self.clusters.len()
            invariant
                c <= cs.len(),
                cs == self.clusters@,
                ids_ascend(out@),
                forall|x: Seq<u8>| #[trigger] holds(out@, x) <==> is_duplicate_id(cs.take(c as int), x),
            decreases cs.len() - c,
        {
            let members = &self.clusters[c].members;
            let ghost o0 = out@;
            let mut i: usize = 0;
            while i < members.len()
                invariant
                    i <= members@.len(),
                    ids_ascend(out@),
                    forall|x: Seq<u8>| #[trigger]
                        holds(out@, x) <==> holds(o0, x) || holds(members@.take(i as int), x),
                decreases members@.len() - i,
            {
                let ghost o1 = out@;
                put_id(&mut out, members[i]);
                proof {
                    let before = members@.take(i as int);
                    let after = members@.take(i + 1);
                    assert forall|x: Seq<u8>| #[trigger] holds(out@, x) <==> holds(o0, x) || holds(
                        after,
                        x,
                    ) by {
                        assert(holds(out@, x) <==> holds(o1, x) || x == members@[i as int]@);
                        assert(holds(o1, x) <==> holds(o0, x) || holds(before, x));
                        if holds(before, x) {
                            let k = choose|k: int| 0 <= k < before.len() && (#[trigger] before[k])@ == x;
                            assert(after[k]@ == x);
                        }
                        if x == members@[i as int]@ {
                            assert(after[i as int]@ == x);
                        }
                        if holds(after, x) {
                            let k = choose|k: int| 0 <= k < after.len() && (#[trigger] after[k])@ == x;
                            if k < i {
                                assert(before[k]@ == x);
                            }
                        }
                    }
                }
                i = i + 1;
            }
            proof {
                assert(members@.take(members@.len() as int) =~= members@);
                let a = cs.take(c as int);
                let b = cs.take(c + 1);
                assert forall|x: Seq<u8>| #[trigger] holds(out@, x) <==> is_duplicate_id(b, x) by {
                    assert(holds(o0, x) <==> is_duplicate_id(a, x));
                    if is_duplicate_id(a, x) {
                        let d = choose|d: int| 0 <= d < a.len() && holds((#[trigger] a[d]).members@, x);
                        assert(holds(b[d].members@, x));
                    }
                    if holds(members@, x) {
                        assert(holds(b[c as int].members@, x));
                    }
                    if is_duplicate_id(b, x) {
                        let d = choose|d: int| 0 <= d < b.len() && holds((#[trigger] b[d]).members@, x);
                        if d < c {
                            assert(holds(a[d].members@, x));
                        }
                    }
                }
            }
            c = c + 1;
        }
        assert(cs.take(cs.len() as int) =~= cs);
        out
    }
}

// ---- one outcome --------------------------------------------------------------------

/// Rows that are left have a document.
spec fn documented(icons: Seq<HostIcon>, left: Seq<usize>) -> bool {
    forall|t: int|
        0 <= t < left.len() ==> (#[trigger] left[t]) < icons.len() && icons[left[t] as int].document is Some
}

proof fn candidates_have_documents(icons: Seq<HostIcon>, sheet: SheetRaster, m: ForegroundMask, n: int)
    requires
        0 <= n <= icons.len(),
        icons.len() <= usize::MAX,
    ensures
        documented(icons, candidates(icons, sheet, m, n)),
    decreases n,
{
    if n > 0 {
        candidates_have_documents(icons, sheet, m, n - 1);
    }
}

proof fn left_has_documents(icons: Seq<HostIcon>, start: Seq<usize>, at: Seq<int>, k: int)
    requires
        documented(icons, start),
        0 <= k <= at.len(),
        forall|j: int| 0 <= j < k ==> 0 <= #[trigger] at[j] < left_after(start, at, j).len(),
    ensures
        documented(icons, left_after(start, at, k)),
    decreases k,
{
    if k > 0 {
        left_has_documents(icons, start, at, k - 1);
        let before = left_after(start, at, k - 1);
        let a = at[k - 1];
        assert forall|t: int| 0 <= t < before.remove(a).len() implies (#[trigger] before.remove(a)[t])
            < icons.len() && icons[before.remove(a)[t] as int].document is Some by {
            if t < a {
                assert(before.remove(a)[t] == before[t]);
            } else {
                assert(before.remove(a)[t] == before[t + 1]);
            }
        }
    }
}

/// Every document stands alone.
pub open spec fn all_stand_alone(icons: Seq<HostIcon>) -> bool {
    forall|i: int|
        0 <= i < icons.len() && (#[trigger] icons[i]).document is Some ==> score::stands_alone(
            icons[i].document->0@,
        )
}

proof fn picked_inputs_agree(
    icons: Seq<HostIcon>,
    left: Seq<usize>,
    items: Seq<ReviewInput>,
    others: Seq<ReviewInput>,
)
    requires
        all_stand_alone(icons),
        documented(icons, left),
        stand_for(icons, items),
        stand_for(icons, others),
    ensures
        review::same_inputs(review::picked(items, left), review::picked(others, left)),
{
    let a = review::picked(items, left);
    let b = review::picked(others, left);
    assert forall|t: int| 0 <= t < a.len() implies review::same_input(#[trigger] a[t], b[t])
        && score::stands_alone(a[t].document@) by {
        let p = left[t] as int;
        assert(items[p].id == p && others[p].id == p);
    }
}

/// A trace is one that the rows can take.
spec fn is_trace(
    sheet: SheetRaster,
    m: ForegroundMask,
    icons: Seq<HostIcon>,
    evidence: Seq<IconEvidence>,
    bg: Seq<u8>,
    start: Seq<usize>,
    t: HostTrace,
) -> bool {
    &&& stand_for(icons, t.items)
    &&& t.errors.len() == t.at.len()
    &&& forall|j: int|
        0 <= j < t.at.len() ==> refuses(
            sheet,
            m,
            t.items,
            evidence,
            bg,
            left_after(start, t.at, j),
            t.at[j],
            #[trigger] t.errors[j],
        )
}

proof fn places_in_range(
    sheet: SheetRaster,
    m: ForegroundMask,
    icons: Seq<HostIcon>,
    evidence: Seq<IconEvidence>,
    bg: Seq<u8>,
    start: Seq<usize>,
    t: HostTrace,
)
    requires
        is_trace(sheet, m, icons, evidence, bg, start, t),
    ensures
        forall|j: int| 0 <= j < t.at.len() ==> 0 <= #[trigger] t.at[j] < left_after(start, t.at, j).len(),
{
    assert forall|j: int| 0 <= j < t.at.len() implies 0 <= #[trigger] t.at[j] < left_after(
        start,
        t.at,
        j,
    ).len() by {
        assert(refuses(
            sheet,
            m,
            t.items,
            evidence,
            bg,
            left_after(start, t.at, j),
            t.at[j],
            t.errors[j],
        ));
    }
}

/// Two traces refuse the same rows for the same reasons, as far as both go.
proof fn traces_agree(
    sheet: SheetRaster,
    m: ForegroundMask,
    icons: Seq<HostIcon>,
    evidence: Seq<IconEvidence>,
    bg: Seq<u8>,
    start: Seq<usize>,
    t: HostTrace,
    u: HostTrace,
    k: int,
)
    requires
        all_stand_alone(icons),
        documented(icons, start),
        is_trace(sheet, m, icons, evidence, bg, start, t),
        is_trace(sheet, m, icons, evidence, bg, start, u),
        0 <= k <= t.at.len(),
        k <= u.at.len(),
    ensures
        left_after(start, t.at, k) == left_after(start, u.at, k),
        late_skips(icons, start, t.at, t.errors, k) == late_skips(icons, start, u.at, u.errors, k),
    decreases k,
{
    if k > 0 {
        traces_agree(sheet, m, icons, evidence, bg, start, t, u, k - 1);
        places_in_range(sheet, m, icons, evidence, bg, start, t);
        let left = left_after(start, t.at, k - 1);
        left_has_documents(icons, start, t.at, k - 1);
        picked_inputs_agree(icons, left, t.items, u.items);
        assert(refuses(sheet, m, t.items, evidence, bg, left, t.at[k - 1], t.errors[k - 1]));
        assert(refuses(sheet, m, u.items, evidence, bg, left, u.at[k - 1], u.errors[k - 1]));
        review::first_refusals_agree(
            sheet,
            m,
            review::picked(t.items, left),
            review::picked(u.items, left),
            review::picked(evidence, left),
            bg,
            t.at[k - 1],
            t.errors[k - 1],
            u.at[k - 1],
            u.errors[k - 1],
        );
        assert(refusal_of(t.errors[k - 1]) == refusal_of(u.errors[k - 1]));
    }
}

/// Two reviews of a sheet that hold the same.
pub open spec fn same_host_review(a: HostReview, b: HostReview) -> bool {
    &&& skip_texts(a.skipped@) == skip_texts(b.skipped@)
    &&& a.icons@.len() == b.icons@.len()
    &&& forall|i: int|
        0 <= i < a.icons@.len() ==> (#[trigger] a.icons@[i]).id@ == b.icons@[i].id@ && a.icons@[i].index
            == b.icons@[i].index && review::same_review(a.icons@[i].review, b.icons@[i].review)
    &&& a.clusters@.len() == b.clusters@.len()
    &&& forall|c: int|
        0 <= c < a.clusters@.len() ==> same_host_cluster(#[trigger] a.clusters@[c], b.clusters@[c])
    &&& a.outliers@.len() == b.outliers@.len()
    &&& forall|i: int|
        0 <= i < a.outliers@.len() ==> (#[trigger] a.outliers@[i]).id@ == b.outliers@[i].id@
            && a.outliers@[i].flag == b.outliers@[i].flag
    &&& a.flagged == b.flagged
    &&& a.cascade == b.cascade
}

/// Two clusters that hold the same.
pub open spec fn same_host_cluster(a: HostCluster, b: HostCluster) -> bool {
    &&& a.keeper@ == b.keeper@
    &&& a.members@.len() == b.members@.len()
    &&& forall|j: int| 0 <= j < a.members@.len() ==> (#[trigger] a.members@[j])@ == b.members@[j]@
}

proof fn mapped_reports_agree(
    icons: Seq<HostIcon>,
    r: ReviewReport,
    s: ReviewReport,
    a: HostReview,
    b: HostReview,
)
    requires
        review::same_report(r, s),
        maps_report(icons, r, a),
        maps_report(icons, s, b),
        skip_texts(a.skipped@) == skip_texts(b.skipped@),
    ensures
        same_host_review(a, b),
{
    assert forall|i: int| 0 <= i < a.icons@.len() implies (#[trigger] a.icons@[i]).id@
        == b.icons@[i].id@ && a.icons@[i].index == b.icons@[i].index && review::same_review(
        a.icons@[i].review,
        b.icons@[i].review,
    ) by {
        assert(review::same_review(r.icons@[i], s.icons@[i]));
        assert(b.icons@[i].index == s.icons@[i].id);
    }
    assert forall|c: int| 0 <= c < a.clusters@.len() implies same_host_cluster(
        #[trigger] a.clusters@[c],
        b.clusters@[c],
    ) by {
        assert(cluster::same_cluster(r.clusters@[c], s.clusters@[c]));
        assert(maps_cluster(icons, r.clusters@[c], a.clusters@[c]));
        assert(maps_cluster(icons, s.clusters@[c], b.clusters@[c]));
        assert forall|j: int| 0 <= j < a.clusters@[c].members@.len() implies (
        #[trigger] a.clusters@[c].members@[j])@ == b.clusters@[c].members@[j]@ by {
            assert(b.clusters@[c].members@[j]@ == icons[s.clusters@[c].members@[j] as int].id@);
        }
    }
    assert forall|i: int| 0 <= i < a.outliers@.len() implies (#[trigger] a.outliers@[i]).id@
        == b.outliers@[i].id@ && a.outliers@[i].flag == b.outliers@[i].flag by {
        assert(b.outliers@[i].flag == s.outliers@[i]);
    }
}

/// What is left after a whole trace is reported, or nothing is left.
spec fn ends(
    sheet: SheetRaster,
    m: ForegroundMask,
    icons: Seq<HostIcon>,
    evidence: Seq<IconEvidence>,
    o: ReviewOptions,
    items: Seq<ReviewInput>,
    left: Seq<usize>,
    h: HostReview,
) -> bool {
    if left.len() == 0 {
        is_empty_review(h)
    } else {
        exists|report: ReviewReport| #[trigger]
            review::is_report(
                sheet,
                m,
                review::picked(items, left),
                review::picked(evidence, left),
                o,
                report,
            ) && maps_report(icons, report, h)
    }
}

/// Where one trace ends, no other goes on.
proof fn traces_end_together(
    sheet: SheetRaster,
    m: ForegroundMask,
    icons: Seq<HostIcon>,
    evidence: Seq<IconEvidence>,
    o: ReviewOptions,
    start: Seq<usize>,
    t: HostTrace,
    u: HostTrace,
    a: HostReview,
)
    requires
        all_stand_alone(icons),
        documented(icons, start),
        is_trace(sheet, m, icons, evidence, o.background@, start, t),
        is_trace(sheet, m, icons, evidence, o.background@, start, u),
        ends(sheet, m, icons, evidence, o, t.items, left_after(start, t.at, t.at.len() as int), a),
    ensures
        u.at.len() <= t.at.len(),
{
    let bg = o.background@;
    let k = t.at.len() as int;
    let left = left_after(start, t.at, k);
    if u.at.len() > k {
        traces_agree(sheet, m, icons, evidence, bg, start, t, u, k);
        places_in_range(sheet, m, icons, evidence, bg, start, t);
        left_has_documents(icons, start, t.at, k);
        picked_inputs_agree(icons, left, t.items, u.items);
        assert(refuses(sheet, m, u.items, evidence, bg, left, u.at[k], u.errors[k]));
        let its = review::picked(t.items, left);
        let others = review::picked(u.items, left);
        let evs = review::picked(evidence, left);
        let r = choose|report: ReviewReport| #[trigger]
            review::is_report(sheet, m, its, evs, o, report) && maps_report(icons, report, a);
        review::reported_is_not_refused(sheet, m, its, others, evs, o, r, u.at[k], u.errors[k]);
    }
}

/// What is left is reported alike.
proof fn ends_agree(
    sheet: SheetRaster,
    m: ForegroundMask,
    icons: Seq<HostIcon>,
    evidence: Seq<IconEvidence>,
    o: ReviewOptions,
    items: Seq<ReviewInput>,
    others: Seq<ReviewInput>,
    left: Seq<usize>,
    a: HostReview,
    b: HostReview,
)
    requires
        all_stand_alone(icons),
        documented(icons, left),
        stand_for(icons, items),
        stand_for(icons, others),
        ends(sheet, m, icons, evidence, o, items, left, a),
        ends(sheet, m, icons, evidence, o, others, left, b),
        skip_texts(a.skipped@) == skip_texts(b.skipped@),
    ensures
        same_host_review(a, b),
{
    if left.len() > 0 {
        picked_inputs_agree(icons, left, items, others);
        let x = review::picked(items, left);
        let y = review::picked(others, left);
        let evs = review::picked(evidence, left);
        let r = choose|report: ReviewReport| #[trigger]
            review::is_report(sheet, m, x, evs, o, report) && maps_report(icons, report, a);
        let s = choose|report: ReviewReport| #[trigger]
            review::is_report(sheet, m, y, evs, o, report) && maps_report(icons, report, b);
        review::reports_are_unique(sheet, m, x, y, evs, o, r, s);
        mapped_reports_agree(icons, r, s, a, b);
    }
}

proof fn host_outcomes_agree(
    sheet: SheetRaster,
    m: ForegroundMask,
    icons: Seq<HostIcon>,
    evidence: Seq<IconEvidence>,
    o: ReviewOptions,
    t: HostTrace,
    a: HostReview,
    u: HostTrace,
    b: HostReview,
)
    requires
        icons.len() <= usize::MAX,
        all_stand_alone(icons),
        is_host_review_of(sheet, m, icons, evidence, o, t, a),
        is_host_review_of(sheet, m, icons, evidence, o, u, b),
    ensures
        same_host_review(a, b),
{
    let bg = o.background@;
    let n = icons.len() as int;
    let start = candidates(icons, sheet, m, n);
    candidates_have_documents(icons, sheet, m, n);
    assert(is_trace(sheet, m, icons, evidence, bg, start, t));
    assert(is_trace(sheet, m, icons, evidence, bg, start, u));
    let k = t.at.len() as int;
    assert(ends(sheet, m, icons, evidence, o, t.items, left_after(start, t.at, k), a));
    assert(ends(
        sheet,
        m,
        icons,
        evidence,
        o,
        u.items,
        left_after(start, u.at, u.at.len() as int),
        b,
    ));
    traces_end_together(sheet, m, icons, evidence, o, start, t, u, a);
    traces_end_together(sheet, m, icons, evidence, o, start, u, t, b);
    traces_agree(sheet, m, icons, evidence, bg, start, t, u, k);
    places_in_range(sheet, m, icons, evidence, bg, start, t);
    left_has_documents(icons, start, t.at, k);
    ends_agree(
        sheet,
        m,
        icons,
        evidence,
        o,
        t.items,
        u.items,
        left_after(start, t.at, k),
        a,
        b,
    );
}

/// Rows whose documents stand alone have one review: the same rows are skipped
/// for the same reasons, and the rest is reported alike.
pub proof fn host_review_is_determined(
    sheet: SheetRaster,
    m: ForegroundMask,
    icons: Seq<HostIcon>,
    evidence: Seq<IconEvidence>,
    o: ReviewOptions,
    a: Result<HostReview, ReviewError>,
    b: Result<HostReview, ReviewError>,
)
    requires
        icons.len() <= usize::MAX,
        all_stand_alone(icons),
        is_host_review(sheet, m, icons, evidence, o, a),
        is_host_review(sheet, m, icons, evidence, o, b),
    ensures
        match (a, b) {
            (Ok(v), Ok(w)) => same_host_review(v, w),
            (Err(d), Err(e)) => d == e,
            _ => false,
        },
{
    if a is Ok && b is Ok {
        let t = choose|t: HostTrace| #[trigger]
            is_host_review_of(sheet, m, icons, evidence, o, t, a->Ok_0);
        let u = choose|t: HostTrace| #[trigger]
            is_host_review_of(sheet, m, icons, evidence, o, t, b->Ok_0);
        host_outcomes_agree(sheet, m, icons, evidence, o, t, a->Ok_0, u, b->Ok_0);
    }
}

/// A row is reviewed where its box is not empty and lies on the sheet, there is a
/// document for it, and there is ink in the box; any other is left out at once.
pub proof fn rows_without_evidence_are_left_out(icon: HostIcon, sheet: SheetRaster, m: ForegroundMask)
    ensures
        (early_reason(icon, sheet, m) is None) == (icon.bbox.w > 0 && icon.bbox.h > 0 && icon.document is Some
            && icon.bbox.x + icon.bbox.w <= sheet.width && icon.bbox.y + icon.bbox.h <= sheet.height
            && crate::counting::count_below(
            |k: int| m.ink(icon.bbox.x + k % (icon.bbox.w as int), icon.bbox.y + k / (icon.bbox.w as int)),
            icon.bbox.w * icon.bbox.h,
        ) > 0),
{
    let b = icon.bbox;
    let f = |k: int| m.ink(b.x + k % (b.w as int), b.y + k / (b.w as int));
    crate::counting::count_ext(f, review::box_ink(m, b), b.w * b.h);
    crate::counting::count_bounds(f, b.w * b.h);
}

/// A rejection rejects, a flag flags, a duplicate is one, and both approvals, single
/// and in bulk, approve; nothing that was decided is pending.
pub proof fn decisions_set_the_state(a: TriageAction)
    ensures
        (state_of(a) == ReviewState::Approved) == (a == TriageAction::Approve || a == TriageAction::BulkApprove),
        (state_of(a) == ReviewState::Rejected) == (a == TriageAction::Reject),
        (state_of(a) == ReviewState::Flagged) == (a == TriageAction::Flag),
        (state_of(a) == ReviewState::Duplicate) == (a == TriageAction::Duplicate),
        state_of(a) != ReviewState::Pending,
{
}

/// Ids are ordered from their first byte on: the first byte that differs decides,
/// and of two different ids exactly one comes first.
pub proof fn first_different_byte_orders_ids(a: Seq<u8>, b: Seq<u8>, k: int)
    requires
        0 <= k < 16,
        a.len() == 16,
        b.len() == 16,
        forall|j: int| 0 <= j < k ==> #[trigger] a[j] == b[j],
        a[k] != b[k],
    ensures
        id_lt(a, b) == (a[k] < b[k]),
        id_lt(b, a) == (b[k] < a[k]),
        !id_lt(a, a),
{
    if a[k] < b[k] {
        assert(lesser_at(a, b, k));
    } else {
        assert(lesser_at(b, a, k));
    }
    if id_lt(a, b) {
        let t = choose|t: int| #[trigger] lesser_at(a, b, t);
        if t > k {
            assert(a[k] == b[k]);
        }
    }
    if id_lt(b, a) {
        let t = choose|t: int| #[trigger] lesser_at(b, a, t);
        if t > k {
            assert(b[k] == a[k]);
        }
    }
}

} // verus!
