//! The grouping session behind the overlay.
//!
//! A session groups a sheet from a cached mask, lets the user tune the
//! parameters, split one icon or join several, and scores the result again
//! after every edit with the evidence that the grouping measured. Edits are
//! view state: grouping again drops them.
use vstd::prelude::*;
use crate::background;
use crate::background::{BackgroundModel, SegParams};
use crate::confidence;
use crate::confidence::{ConfidenceReport, ScoreInput};
use crate::counting;
use crate::digest;
use crate::fuse;
use crate::geometry::{Bbox, IconGroup};
use crate::grid::GridHint;
use crate::group;
use crate::lattice;
use crate::mask;
use crate::mask::ForegroundMask;
use crate::maskcache;
use crate::maskcache::{CachedMask, EntryText, MaskCache};
use crate::merge;
use crate::merge::RefineParams;
use crate::ratio::Ratio;
use crate::refine;
use crate::refine::RefineStats;
use crate::sorting;
use crate::split;
use crate::split::{SplitOutcome, SplitParams, SplitStats};
use crate::text;

verus! {

/// Version of the session's interface.
pub const GROUPING_VERSION: u32 = 1;

/// Encoded previews that a session keeps.
pub const PREVIEW_CACHE: usize = 2;

/// The parameters of a session.
#[derive(Clone, Copy, Debug, PartialEq, Eq, Structural)]
pub struct GroupingParams {
    /// The refine chain.
    pub refine: RefineParams,
    /// Sheets whose masks are kept.
    pub mask_capacity: usize,
}

/// Refinement on, eight masks.
pub open spec fn default_grouping_params() -> GroupingParams {
    GroupingParams {
        refine: RefineParams { enabled: true, ..merge::default_refine_params() },
        mask_capacity: 8,
    }
}

impl Default for GroupingParams {
    fn default() -> (r: Self)
        ensures
            r == default_grouping_params(),
    {
        let mut refine = RefineParams::default();
        refine.enabled = true;
        GroupingParams { refine, mask_capacity: 8 }
    }
}

/// One grouping result: what the overlay shows.
#[derive(Clone, Debug, PartialEq, Eq)]
pub struct GroupingReport {
    /// The key that the mask is cached under.
    pub sheet_key: String,
    /// Sheet width in pixels.
    pub width: u32,
    /// Sheet height in pixels.
    pub height: u32,
    /// The groups, in canonical order.
    pub groups: Vec<IconGroup>,
    /// What the refine chain measured.
    pub stats: RefineStats,
    /// The mask came out of the cache.
    pub mask_cache_hit: bool,
    /// Edits on top of the automatic result.
    pub manual_edits: u32,
}

impl GroupingReport {
    /// The lattice of the sheet.
    pub fn hint(&self) -> (r: &GridHint)
        ensures
            *r == self.stats.hint,
    {
        &self.stats.hint
    }

    /// The confidence report.
    pub fn confidence(&self) -> (r: &ConfidenceReport)
        ensures
            *r == self.stats.confidence,
    {
        &self.stats.confidence
    }

    /// The status line, for a grouping that took this many hundredths of a
    /// second.
    pub fn status_line(&self, hundredths: u64) -> (r: String)
        requires
            self.groups@.len() <= u32::MAX,
        ensures
            r@ == confidence::line_of(
                self.groups@.len() as int,
                hundredths as int,
                self.stats.confidence,
            ),
    {
        confidence::summary_line(self.groups.len() as u32, hundredths, &self.stats.confidence)
    }
}

/// The groups lie on the sheet, in scan order, and the measures are in range.
pub open spec fn report_ok(c: GroupingReport) -> bool {
    &&& c.width * c.height <= mask::MAX_PIXELS
    &&& fuse::all_fit(c.groups@, c.width as int, c.height as int)
    &&& group::in_scan_order(c.groups@)
    &&& c.stats.median_h2 <= 0x1_ffff_fffe
    &&& c.stats.merges <= split::MAX_GROUPS
    &&& c.stats.hint.valley_x@.len() <= u32::MAX
    &&& c.stats.hint.valley_y@.len() <= u32::MAX
}

/// What a split did.
#[derive(Clone, Copy, Debug, PartialEq, Eq, Structural)]
pub struct SplitHereReport {
    /// The group was replaced by two or more.
    pub split: bool,
    /// Where the selected group stood before the edit.
    pub group_index: usize,
    /// How many groups replaced it; none where the split was refused.
    pub regions: u64,
}

// ---- edits --------------------------------------------------------------------------

/// One more edit, up to the largest count.
pub open spec fn edited(n: u32) -> u32 {
    if n == u32::MAX {
        n
    } else {
        (n + 1) as u32
    }
}

/// `c1` is `c0` with the groups replaced by an edit; the sheet and everything
/// measured but the confidence stay.
pub open spec fn is_edit(c0: GroupingReport, groups: Seq<IconGroup>, c1: GroupingReport) -> bool {
    &&& c1.sheet_key == c0.sheet_key
    &&& c1.width == c0.width
    &&& c1.height == c0.height
    &&& c1.mask_cache_hit == c0.mask_cache_hit
    &&& c1.groups@ == groups
    &&& c1.manual_edits == edited(c0.manual_edits)
    &&& c1.stats == (RefineStats { confidence: c1.stats.confidence, ..c0.stats })
}

/// `c1` is scored against the entry.
pub open spec fn is_scored(e: EntryText, p: RefineParams, c1: GroupingReport) -> bool {
    exists|m: ForegroundMask| #[trigger]
        maskcache::is_mask_of(e.width, e.height, e.runs, m) && refine::is_confidence_stage(
            m,
            Some(e.background),
            p,
            c1.groups@,
            c1.stats,
        )
}

fn count_edit(n: u32) -> (r: u32)
    ensures
        r == edited(n),
{
    if n < u32::MAX {
        n + 1
    } else {
        n
    }
}

/// Scores the groups again, with the lattice and the restored components that
/// the grouping measured.
fn rescore(c: &mut GroupingReport, m: &ForegroundMask, bg: &BackgroundModel, p: &RefineParams)
    requires
        old(c).stats.merges <= split::MAX_GROUPS,
        old(c).stats.hint.valley_x@.len() <= u32::MAX,
        old(c).stats.hint.valley_y@.len() <= u32::MAX,
        background::model_ok(*bg),
    ensures
        final(c).sheet_key == old(c).sheet_key,
        final(c).width == old(c).width,
        final(c).height == old(c).height,
        final(c).groups == old(c).groups,
        final(c).mask_cache_hit == old(c).mask_cache_hit,
        final(c).manual_edits == old(c).manual_edits,
        final(c).stats == (RefineStats { confidence: final(c).stats.confidence, ..old(c).stats }),
        refine::is_confidence_stage(*m, Some(*bg), *p, final(c).groups@, final(c).stats),
{
    let surviving: u64 = if c.stats.merges >= c.stats.grid.restored {
        c.stats.merges - c.stats.grid.restored
    } else {
        0
    };
    let ghost before = *c;
    let report = if p.confidence.enabled && c.groups.len() > 0 && c.groups.len() as u64 <= 0xffff_ffff {
        confidence::score_groups(
            ScoreInput {
                groups: &c.groups,
                mask: m,
                merges: surviving as u32,
                restored: &c.stats.restored_originals,
                hint: &c.stats.hint,
                background: Some(bg),
            },
            &p.confidence,
        )
    } else {
        ConfidenceReport::default()
    };
    let ghost input = ScoreInput {
        groups: &before.groups,
        mask: m,
        merges: surviving as u32,
        restored: &before.stats.restored_originals,
        hint: &before.stats.hint,
        background: Some(bg),
    };
    let ghost scored = p.confidence.enabled && 0 < before.groups@.len() <= u32::MAX;
    assert(scored ==> confidence::is_report(input, p.confidence, report));
    c.stats.confidence = report;
    assert(scored ==> confidence::is_report(input, p.confidence, c.stats.confidence));
}

// ---- split one group ----------------------------------------------------------------

/// The first group from `i` on whose box covers the point.
pub open spec fn first_under(groups: Seq<IconGroup>, x: int, y: int, i: int) -> Option<int>
    decreases groups.len() - i,
{
    if i < 0 || i >= groups.len() {
        None
    } else if groups[i].bbox.covers(x, y) {
        Some(i)
    } else {
        first_under(groups, x, y, i + 1)
    }
}

/// Splitting `g` without the size gate gives these groups and counts.
pub open spec fn is_forced_split(
    m: ForegroundMask,
    g: IconGroup,
    p: SplitParams,
    mh2: int,
    pieces: Seq<IconGroup>,
    count: int,
    regions: int,
) -> bool {
    if !p.enabled || mh2 == 0 {
        pieces == seq![g] && count == 0 && regions == 0
    } else {
        exists|outs: Seq<Option<SplitOutcome>>| #[trigger]
            split::are_outcomes(m, seq![g], p, mh2, true, outs) && pieces == split::pieces_for(
                g,
                outs[0],
            ) && count == split::bumped(split::zero_stats(), outs, 1).split && regions
                == split::bumped(split::zero_stats(), outs, 1).regions
    }
}

/// `groups` with the one at `i` replaced by `pieces`.
pub open spec fn spliced(groups: Seq<IconGroup>, i: int, pieces: Seq<IconGroup>) -> Seq<IconGroup> {
    groups.subrange(0, i) + pieces + groups.subrange(i + 1, groups.len() as int)
}

/// `c1` and `r` are what splitting the group under a point makes of `c0`.
pub open spec fn is_split_here(
    c0: GroupingReport,
    e: EntryText,
    p: RefineParams,
    x: int,
    y: int,
    c1: GroupingReport,
    r: Option<SplitHereReport>,
) -> bool {
    match first_under(c0.groups@, x, y, 0) {
        Some(i) if e.width == c0.width && e.height == c0.height && maskcache::has_room(
            e.width,
            e.height,
        ) => exists|m: ForegroundMask, pieces: Seq<IconGroup>, count: int, regions: int|
            #![trigger is_forced_split(m, c0.groups@[i], p.split, c0.stats.median_h2 as int, pieces, count, regions)]
            maskcache::is_mask_of(e.width, e.height, e.runs, m) && is_forced_split(
                m,
                c0.groups@[i],
                p.split,
                c0.stats.median_h2 as int,
                pieces,
                count,
                regions,
            ) && (if count > 0 && regions >= 2 {
                &&& r == Some(SplitHereReport { split: true, group_index: i as usize, regions: regions as u64 })
                &&& regions <= u64::MAX
                &&& group::is_sorted_listing(spliced(c0.groups@, i, pieces), c1.groups@)
                &&& is_edit(c0, c1.groups@, c1)
                &&& is_scored(e, p, c1)
            } else {
                &&& r == Some(SplitHereReport { split: false, group_index: i as usize, regions: 0 })
                &&& c1 == c0
            }),
        _ => r is None && c1 == c0,
    }
}

fn find_under(groups: &Vec<IconGroup>, x: u32, y: u32, w: u32, h: u32) -> (r: Option<usize>)
    requires
        fuse::all_fit(groups@, w as int, h as int),
    ensures
        match r {
            Some(i) => i < groups@.len() && first_under(groups@, x as int, y as int, 0) == Some(
                i as int,
            ),
            None => first_under(groups@, x as int, y as int, 0) is None,
        },
{
    let mut i: usize = 0;
    while i < groups.len()
        invariant
            fuse::all_fit(groups@, w as int, h as int),
            i <= groups@.len(),
            first_under(groups@, x as int, y as int, 0) == first_under(
                groups@,
                x as int,
                y as int,
                i as int,
            ),
        decreases groups@.len() - i,
    {
        assert(fuse::group_fits(groups@[i as int], w as int, h as int));
        let b = groups[i].bbox;
        if x >= b.x && y >= b.y && x < b.x + b.w && y < b.y + b.h {
            return Some(i);
        }
        i = i + 1;
    }
    None
}

fn splice(groups: &Vec<IconGroup>, at: usize, pieces: &Vec<IconGroup>) -> (r: Vec<IconGroup>)
    requires
        at < groups@.len(),
    ensures
        r@ == spliced(groups@, at as int, pieces@),
{
    let n: usize = groups.len();
    assert(at < n);
    let mut out: Vec<IconGroup> = Vec::new();
    let mut i: usize = 0;
    while i < at
        invariant
            i <= at < groups@.len(),
            out@ == groups@.subrange(0, i as int),
        decreases at - i,
    {
        out.push(groups[i]);
        i = i + 1;
        assert(out@ =~= groups@.subrange(0, i as int));
    }
    let mut k: usize = 0;
    while k < pieces.len()
        invariant
            at < groups@.len(),
            k <= pieces@.len(),
            out@ == groups@.subrange(0, at as int) + pieces@.subrange(0, k as int),
        decreases pieces@.len() - k,
    {
        out.push(pieces[k]);
        k = k + 1;
        assert(out@ =~= groups@.subrange(0, at as int) + pieces@.subrange(0, k as int));
    }
    assert(pieces@.subrange(0, pieces@.len() as int) =~= pieces@);
    let mut j: usize = at + 1;
    while j < groups.len()
        invariant
            at < j <= groups@.len(),
            out@ == groups@.subrange(0, at as int) + pieces@ + groups@.subrange(at + 1, j as int),
        decreases groups@.len() - j,
    {
        out.push(groups[j]);
        j = j + 1;
        assert(out@ =~= groups@.subrange(0, at as int) + pieces@ + groups@.subrange(
            at + 1,
            j as int,
        ));
    }
    out
}

/// Groups that fit, spliced among groups that fit.
proof fn spliced_fits(groups: Seq<IconGroup>, i: int, pieces: Seq<IconGroup>, w: int, h: int)
    requires
        0 <= i < groups.len(),
        fuse::all_fit(groups, w, h),
        fuse::all_fit(pieces, w, h),
    ensures
        fuse::all_fit(spliced(groups, i, pieces), w, h),
{
    let s = spliced(groups, i, pieces);
    assert forall|k: int| 0 <= k < s.len() implies #[trigger] fuse::group_fits(s[k], w, h) by {
        if k < i {
            assert(s[k] == groups[k]);
        } else if k < i + pieces.len() {
            assert(s[k] == pieces[k - i]);
        } else {
            assert(s[k] == groups[k - pieces.len() + 1]);
        }
    }
}

/// Splits the group under a point and scores the result.
fn split_report(c: GroupingReport, entry: &CachedMask, p: &RefineParams, x: u32, y: u32) -> (r: (
    GroupingReport,
    Option<SplitHereReport>,
))
    requires
        report_ok(c),
        entry.wf(),
        split::split_params_ok(p.split),
    ensures
        is_split_here(c, maskcache::mask_text(*entry), *p, x as int, y as int, r.0, r.1),
        report_ok(r.0),
{
    let ghost c0 = c;
    let ghost e = maskcache::mask_text(*entry);
    let mut c = c;
    let at: usize = match find_under(&c.groups, x, y, c.width, c.height) {
        None => {
            return (c, None);
        },
        Some(i) => i,
    };
    let ghost w = entry.width as int;
    let ghost h = entry.height as int;
    assert((w + 2) * (h + 2) == w * h + 2 * w + 2 * h + 4) by (nonlinear_arith);
    assert(w * h <= mask::MAX_PIXELS);
    if entry.width != c.width || entry.height != c.height {
        return (c, None);
    }
    let frame: u64 = c.width as u64 * c.height as u64 + 2 * c.width as u64 + 2 * c.height as u64 + 4;
    if frame > usize::MAX as u64 {
        return (c, None);
    }
    let m = entry.mask();
    let mut one: Vec<IconGroup> = Vec::new();
    one.push(c.groups[at]);
    let ghost g = c.groups@[at as int];
    let mh2: u64 = c.stats.median_h2;
    assert(one@ =~= seq![g]);
    assert(fuse::group_fits(g, w, h));
    let mut stats = SplitStats::default();
    let ghost stats0 = stats;
    let (lists, count, regions) = split::resplit_forced(&one, &m, mh2, &p.split, &mut stats);
    let ghost pieces = lists@[0]@;
    proof {
        if p.split.enabled && mh2 > 0 {
            let outs = choose|outs: Seq<Option<SplitOutcome>>| #[trigger]
                split::are_outcomes(m, one@, p.split, mh2 as int, true, outs) && split::are_pieces(
                    one@,
                    outs,
                    lists@,
                ) && stats == split::bumped(stats0, outs, 1);
            assert(split::are_outcomes(m, seq![g], p.split, mh2 as int, true, outs));
            lattice::pieces_fit(m, one@, p.split, mh2 as int, true, outs, lists@);
            assert(pieces == split::pieces_for(g, outs[0]));
        } else {
            assert(pieces == seq![g]);
        }
        assert(fuse::all_fit(pieces, w, h));
        assert(is_forced_split(m, g, p.split, mh2 as int, pieces, count as int, regions as int));
    }
    let report = SplitHereReport {
        split: count > 0 && regions >= 2,
        group_index: at,
        regions: if count > 0 && regions >= 2 {
            regions
        } else {
            0
        },
    };
    if report.split {
        let all = splice(&c.groups, at, &lists[0]);
        let groups = group::sort_groups(&all);
        proof {
            spliced_fits(c0.groups@, at as int, pieces, w, h);
            lattice::sorted_fit(all@, groups@, w, h);
            group::listing_is_in_scan_order(all@, groups@);
        }
        c.groups = groups;
        c.manual_edits = count_edit(c.manual_edits);
        rescore(&mut c, &m, &entry.background, p);
        assert(maskcache::is_mask_of(e.width, e.height, e.runs, m));
        assert(is_scored(e, *p, c));
    }
    (c, Some(report))
}

// ---- join groups --------------------------------------------------------------------

/// The boxes share a pixel.
pub open spec fn overlap(a: Bbox, b: Bbox) -> bool {
    a.x < b.right() && b.x < a.right() && a.y < b.bottom() && b.y < a.bottom()
}

/// Some box hits the group.
pub open spec fn is_hit(g: IconGroup, boxes: Seq<Bbox>) -> bool {
    exists|k: int| 0 <= k < boxes.len() && overlap(g.bbox, #[trigger] boxes[k])
}

/// The first `n` groups that are hit, or that are not.
pub open spec fn sorted_out(groups: Seq<IconGroup>, boxes: Seq<Bbox>, hit: bool, n: int) -> Seq<IconGroup>
    decreases n,
{
    if n <= 0 {
        Seq::empty()
    } else if is_hit(groups[n - 1], boxes) == hit {
        sorted_out(groups, boxes, hit, n - 1).push(groups[n - 1])
    } else {
        sorted_out(groups, boxes, hit, n - 1)
    }
}

/// The least box around the first `n` groups.
pub open spec fn union_upto(groups: Seq<IconGroup>, n: int) -> Bbox
    decreases n,
{
    if n <= 1 {
        groups[0].bbox
    } else {
        merge::union_box(union_upto(groups, n - 1), groups[n - 1].bbox)
    }
}

/// The group that all of `groups` make: the least box around them, their ink
/// together as far as it can be counted, and the first one's origin.
pub open spec fn joined(groups: Seq<IconGroup>) -> IconGroup {
    let area = merge::area_sum(groups, groups.len() as int);
    IconGroup {
        bbox: union_upto(groups, groups.len() as int),
        area: if area <= u32::MAX {
            area as u32
        } else {
            u32::MAX
        },
        origin: groups[0].origin,
    }
}

/// `groups` are what joining the groups that the boxes hit makes of `before`;
/// fewer than two hits change nothing.
pub open spec fn is_joining(before: Seq<IconGroup>, boxes: Seq<Bbox>, groups: Seq<IconGroup>) -> bool {
    let n = before.len() as int;
    group::is_sorted_listing(
        sorted_out(before, boxes, false, n).push(joined(sorted_out(before, boxes, true, n))),
        groups,
    )
}

fn boxes_overlap(a: Bbox, b: Bbox) -> (r: bool)
    ensures
        r == overlap(a, b),
{
    (a.x as u64) < b.x as u64 + b.w as u64 && (b.x as u64) < a.x as u64 + a.w as u64 && (a.y as u64) < b.y
        as u64 + b.h as u64 && (b.y as u64) < a.y as u64 + a.h as u64
}

fn group_hit(g: &IconGroup, boxes: &[Bbox]) -> (r: bool)
    ensures
        r == is_hit(*g, boxes@),
{
    let mut k: usize = 0;
    while k < boxes.len()
        invariant
            k <= boxes@.len(),
            forall|j: int| 0 <= j < k ==> !overlap(g.bbox, #[trigger] boxes@[j]),
        decreases boxes@.len() - k,
    {
        if boxes_overlap(g.bbox, boxes[k]) {
            assert(overlap(g.bbox, boxes@[k as int]));
            return true;
        }
        k = k + 1;
    }
    false
}

fn box_union(a: Bbox, b: Bbox, w: u32, h: u32) -> (r: Bbox)
    requires
        a.fits(w as int, h as int),
        b.fits(w as int, h as int),
    ensures
        r == merge::union_box(a, b),
        r.fits(w as int, h as int),
        forall|x: int, y: int| a.covers(x, y) ==> #[trigger] r.covers(x, y),
{
    let x: u32 = if a.x <= b.x {
        a.x
    } else {
        b.x
    };
    let y: u32 = if a.y <= b.y {
        a.y
    } else {
        b.y
    };
    let ax: u32 = a.x + a.w;
    let bx: u32 = b.x + b.w;
    let ay: u32 = a.y + a.h;
    let by_: u32 = b.y + b.h;
    let right: u32 = if ax >= bx {
        ax
    } else {
        bx
    };
    let bottom: u32 = if ay >= by_ {
        ay
    } else {
        by_
    };
    Bbox { x, y, w: right - x, h: bottom - y }
}

proof fn sorted_out_fits(groups: Seq<IconGroup>, boxes: Seq<Bbox>, hit: bool, n: int, w: int, h: int)
    requires
        0 <= n <= groups.len(),
        fuse::all_fit(groups, w, h),
    ensures
        fuse::all_fit(sorted_out(groups, boxes, hit, n), w, h),
    decreases n,
{
    if n > 0 {
        sorted_out_fits(groups, boxes, hit, n - 1, w, h);
        assert(fuse::group_fits(groups[n - 1], w, h));
        let s = sorted_out(groups, boxes, hit, n);
        let s0 = sorted_out(groups, boxes, hit, n - 1);
        assert forall|k: int| 0 <= k < s.len() implies #[trigger] fuse::group_fits(s[k], w, h) by {
            if k < s0.len() {
                assert(s[k] == s0[k]);
                assert(fuse::group_fits(s0[k], w, h));
            }
        }
    }
}

fn join_all(groups: &Vec<IconGroup>, w: u32, h: u32) -> (r: IconGroup)
    requires
        groups@.len() > 0,
        fuse::all_fit(groups@, w as int, h as int),
    ensures
        r == joined(groups@),
        fuse::group_fits(r, w as int, h as int),
{
    assert(fuse::group_fits(groups@[0], w as int, h as int));
    let first = groups[0];
    let mut bbox = first.bbox;
    let mut area: u128 = first.area as u128;
    let mut i: usize = 1;
    assert(merge::area_sum(groups@, 0) == 0);
    assert(merge::area_sum(groups@, 1) == first.area);
    while i < groups.len()
        invariant
            1 <= i <= groups@.len(),
            first == groups@[0],
            fuse::all_fit(groups@, w as int, h as int),
            bbox == union_upto(groups@, i as int),
            bbox.fits(w as int, h as int),
            bbox.covers(first.origin.0 as int, first.origin.1 as int),
            area == merge::area_sum(groups@, i as int),
            area <= 0xffff_ffff * i,
        decreases groups@.len() - i,
    {
        assert(fuse::group_fits(groups@[i as int], w as int, h as int));
        let g = groups[i];
        let wider = box_union(bbox, g.bbox, w, h);
        assert(wider.covers(first.origin.0 as int, first.origin.1 as int));
        bbox = wider;
        area = area + g.area as u128;
        i = i + 1;
    }
    IconGroup {
        bbox,
        area: if area <= u32::MAX as u128 {
            area as u32
        } else {
            u32::MAX
        },
        origin: first.origin,
    }
}

/// Joins the groups that the boxes hit; `None` where fewer than two are.
fn join_hits(groups: &Vec<IconGroup>, boxes: &[Bbox], w: u32, h: u32) -> (r: Option<Vec<IconGroup>>)
    requires
        fuse::all_fit(groups@, w as int, h as int),
    ensures
        match r {
            Some(out) => sorted_out(groups@, boxes@, true, groups@.len() as int).len() >= 2
                && is_joining(groups@, boxes@, out@) && fuse::all_fit(out@, w as int, h as int),
            None => sorted_out(groups@, boxes@, true, groups@.len() as int).len() < 2,
        },
{
    let mut hits: Vec<IconGroup> = Vec::new();
    let mut rest: Vec<IconGroup> = Vec::new();
    let mut i: usize = 0;
    while i < groups.len()
        invariant
            i <= groups@.len(),
            hits@ == sorted_out(groups@, boxes@, true, i as int),
            rest@ == sorted_out(groups@, boxes@, false, i as int),
        decreases groups@.len() - i,
    {
        let g = groups[i];
        if group_hit(&g, boxes) {
            hits.push(g);
        } else {
            rest.push(g);
        }
        i = i + 1;
    }
    if hits.len() < 2 {
        return None;
    }
    let ghost n = groups@.len() as int;
    proof {
        sorted_out_fits(groups@, boxes@, true, n, w as int, h as int);
        sorted_out_fits(groups@, boxes@, false, n, w as int, h as int);
    }
    let one = join_all(&hits, w, h);
    let ghost rest0 = rest@;
    rest.push(one);
    assert(fuse::all_fit(rest@, w as int, h as int)) by {
        assert forall|k: int| 0 <= k < rest@.len() implies #[trigger] fuse::group_fits(
            rest@[k],
            w as int,
            h as int,
        ) by {
            if k < rest0.len() {
                assert(rest@[k] == rest0[k]);
                assert(fuse::group_fits(rest0[k], w as int, h as int));
            }
        }
    }
    let out = group::sort_groups(&rest);
    proof {
        lattice::sorted_fit(rest@, out@, w as int, h as int);
    }
    Some(out)
}

// ---- previews -----------------------------------------------------------------------

/// An encoded preview of a sheet: the overlay's backdrop.
#[derive(Clone, Debug, PartialEq, Eq)]
pub struct PreviewImage {
    /// Width of the sheet, in whose pixels the groups are measured.
    pub sheet_width: u32,
    /// Height of the sheet.
    pub sheet_height: u32,
    /// Width of the preview.
    pub width: u32,
    /// Height of the preview.
    pub height: u32,
    /// The encoded bytes.
    pub png: Vec<u8>,
}

impl PreviewImage {
    /// Preview pixels for one sheet pixel.
    pub fn scale(&self) -> (r: Ratio)
        ensures
            r == (if self.sheet_width == 0 {
                Ratio { num: 1, den: 1 }
            } else {
                Ratio { num: self.width as u128, den: self.sheet_width as u128 }
            }),
    {
        if self.sheet_width == 0 {
            Ratio { num: 1, den: 1 }
        } else {
            Ratio { num: self.width as u128, den: self.sheet_width as u128 }
        }
    }
}

/// A stored preview, with the sheet and the scale it belongs to.
#[derive(Clone, Debug, PartialEq, Eq)]
pub struct Preview {
    /// The sheet's key.
    pub key: String,
    /// The bound on the preview's sides.
    pub max_dim: u32,
    /// The preview.
    pub image: PreviewImage,
}

/// The contents of a stored preview.
pub struct PreviewText {
    /// The sheet's key.
    pub key: Seq<char>,
    /// The bound on the preview's sides.
    pub max_dim: u32,
    /// The preview.
    pub image: PreviewImage,
}

/// The contents of the stored previews.
pub open spec fn previews_of(s: Seq<Preview>) -> Seq<PreviewText> {
    Seq::new(
        s.len(),
        |i: int| PreviewText { key: s[i].key@, max_dim: s[i].max_dim, image: s[i].image },
    )
}

/// Position `i` holds the preview of this sheet at this scale.
pub open spec fn shows(s: Seq<PreviewText>, key: Seq<char>, max_dim: u32, i: int) -> bool {
    0 <= i < s.len() && s[i].key == key && s[i].max_dim == max_dim
}

/// No sheet is shown twice at one scale.
pub open spec fn shown_once(s: Seq<PreviewText>) -> bool {
    forall|i: int, j: int|
        #![trigger s[i], s[j]]
        0 <= i < j < s.len() ==> s[i].key != s[j].key || s[i].max_dim != s[j].max_dim
}

/// The newest previews, as many as are kept.
pub open spec fn kept(s: Seq<PreviewText>) -> Seq<PreviewText> {
    if s.len() <= PREVIEW_CACHE {
        s
    } else {
        s.subrange(s.len() - PREVIEW_CACHE, s.len() as int)
    }
}

/// `after` is `before` with `p` stored: in place of the one for the same sheet
/// and scale, as the newest, and the oldest dropped where there are too many.
pub open spec fn is_stored(before: Seq<PreviewText>, p: PreviewText, after: Seq<PreviewText>) -> bool {
    &&& forall|i: int| #[trigger]
        shows(before, p.key, p.max_dim, i) ==> after == kept(before.remove(i).push(p))
    &&& (forall|i: int| !#[trigger] shows(before, p.key, p.max_dim, i)) ==> after == kept(
        before.push(p),
    )
}

/// A stored preview is found, as the newest; no more than two are kept; and a
/// preview that was there before is there after, or was the oldest of two.
pub proof fn stored_preview_is_found(before: Seq<PreviewText>, p: PreviewText, after: Seq<PreviewText>)
    requires
        is_stored(before, p, after),
        before.len() <= PREVIEW_CACHE,
        shown_once(before),
    ensures
        shows(after, p.key, p.max_dim, after.len() - 1),
        after.last() == p,
        0 < after.len() <= PREVIEW_CACHE,
        shown_once(after),
        forall|i: int|
            0 < i < before.len() && !shows(before, p.key, p.max_dim, i) ==> after.contains(
                #[trigger] before[i],
            ),
{
    if exists|i: int| shows(before, p.key, p.max_dim, i) {
        let i = choose|i: int| shows(before, p.key, p.max_dim, i);
        let s = before.remove(i).push(p);
        assert(s.len() == before.len());
        assert(after == s);
        assert(forall|k: int| 0 <= k < i ==> s[k] == before[k]);
        assert(forall|k: int| i <= k < s.len() - 1 ==> s[k] == before[k + 1]);
        assert(shown_once(s)) by {
            assert forall|a: int, b: int|
                #![trigger s[a], s[b]]
                0 <= a < b < s.len() implies s[a].key != s[b].key || s[a].max_dim != s[b].max_dim by {
                let oa = if a < i {
                    a
                } else {
                    a + 1
                };
                let ob = if b < i {
                    b
                } else {
                    b + 1
                };
                if b < s.len() - 1 {
                    assert(s[a] == before[oa] && s[b] == before[ob]);
                } else {
                    assert(s[a] == before[oa]);
                    assert(before[i].key == p.key);
                    if oa < i {
                        assert(before[oa].key != before[i].key || before[oa].max_dim
                            != before[i].max_dim);
                    } else {
                        assert(before[i].key != before[oa].key || before[i].max_dim
                            != before[oa].max_dim);
                    }
                }
            }
        }
        assert forall|k: int|
            0 < k < before.len() && !shows(before, p.key, p.max_dim, k) implies after.contains(
            #[trigger] before[k],
        ) by {
            if k < i {
                assert(after[k] == before[k]);
            } else {
                assert(k != i);
                assert(after[k - 1] == before[k]);
            }
        }
    } else {
        let s = before.push(p);
        assert(after == kept(s));
        let d: int = s.len() - after.len();
        assert(forall|k: int| 0 <= k < after.len() ==> after[k] == s[k + d]);
        assert forall|a: int, b: int|
            #![trigger after[a], after[b]]
            0 <= a < b < after.len() implies after[a].key != after[b].key || after[a].max_dim
            != after[b].max_dim by {
            assert(after[a] == s[a + d] && after[b] == s[b + d]);
            assert(s[a + d] == before[a + d]);
            if b + d < before.len() {
                assert(s[b + d] == before[b + d]);
            } else {
                assert(!shows(before, p.key, p.max_dim, a + d));
            }
        }
        assert forall|k: int|
            0 < k < before.len() && !shows(before, p.key, p.max_dim, k) implies after.contains(
            #[trigger] before[k],
        ) by {
            assert(after[k - d] == before[k]);
        }
    }
}

// ---- the session --------------------------------------------------------------------

/// A mask cache, the sheet on screen and the last previews.
#[derive(Debug)]
pub struct GroupingSession {
    /// The parameters.
    pub params: GroupingParams,
    /// The masks.
    pub cache: MaskCache,
    /// The result on screen.
    pub current: Option<GroupingReport>,
    /// The previews, the newest last.
    pub previews: Vec<Preview>,
}

/// `c` is the automatic result for an entry, with no edits.
pub open spec fn is_automatic(e: EntryText, key: Seq<char>, p: RefineParams, hit: bool, c: GroupingReport) -> bool {
    &&& c.sheet_key@ == key
    &&& c.width == e.width
    &&& c.height == e.height
    &&& c.mask_cache_hit == hit
    &&& c.manual_edits == 0
    &&& exists|m: ForegroundMask, raw: Seq<IconGroup>| #[trigger]
        maskcache::is_regrouping(e, m, raw, p, c.groups@, c.stats)
}

/// The entry under `key` was used: it is the newest one now.
pub open spec fn is_touch(before: Seq<EntryText>, key: Seq<char>, i: int, after: Seq<EntryText>) -> bool {
    maskcache::is_at(before, key, i) && after == before.remove(i).push(before[i])
}

/// Grouping the sheet under `key` takes the session from one state to another:
/// without a mask, or where the sheet is too long and narrow to refine, the
/// result on screen stays.
pub open spec fn is_group_all(
    s0: GroupingSession,
    p: RefineParams,
    key: Seq<char>,
    hit: bool,
    s1: GroupingSession,
    done: bool,
) -> bool {
    if s0.cache.holds(key) {
        exists|i: int| #[trigger]
            is_touch(s0.cache@, key, i, s1.cache@) && (if p.enabled && !maskcache::has_room(
                s0.cache@[i].width,
                s0.cache@[i].height,
            ) {
                !done && s1.current == s0.current
            } else {
                done && s1.current is Some && is_automatic(s0.cache@[i], key, p, hit, s1.current->0)
            })
    } else {
        !done && s1.current == s0.current && s1.cache@ == s0.cache@
    }
}

impl GroupingSession {
    /// The cache is valid, the result on screen is one, and no more previews are
    /// kept than there may be.
    pub open spec fn wf(&self) -> bool {
        &&& self.cache.wf()
        &&& self.current is Some ==> report_ok(self.current->0)
        &&& self.previews@.len() <= PREVIEW_CACHE
        &&& shown_once(previews_of(self.previews@))
    }

    /// A session that keeps the masks of `capacity` sheets.
    pub fn new(capacity: usize) -> (r: GroupingSession)
        ensures
            r.wf(),
            r.params == (GroupingParams { mask_capacity: capacity, ..default_grouping_params() }),
            r.cache@.len() == 0,
            r.cache.cap == capacity,
            r.current is None,
            r.previews@.len() == 0,
    {
        let mut params = GroupingParams::default();
        params.mask_capacity = capacity;
        GroupingSession { params, cache: MaskCache::new(capacity), current: None, previews: Vec::new() }
    }

    /// The parameters.
    pub fn params(&self) -> (r: &GroupingParams)
        ensures
            *r == self.params,
    {
        &self.params
    }

    /// The parameters, to be changed.
    pub fn params_mut(&mut self) -> (r: &mut GroupingParams)
        ensures
            *r == old(self).params,
            *final(self) == (GroupingSession { params: *final(r), ..*old(self) }),
    {
        &mut self.params
    }

    /// The mask cache, to be filled.
    pub fn cache_mut(&mut self) -> (r: &mut MaskCache)
        ensures
            *r == old(self).cache,
            *final(self) == (GroupingSession { cache: *final(r), ..*old(self) }),
    {
        &mut self.cache
    }

    /// The key under which a sheet's mask is cached.
    pub fn key_for(&self, bytes: &[u8], seg: &SegParams) -> (r: String)
        ensures
            r@ == maskcache::key_of(
                digest::hex_of(digest::digest_of(bytes@)),
                maskcache::config_of(*seg),
            ),
    {
        maskcache::mask_key(bytes, seg)
    }

    /// The key of the sheet on screen.
    pub fn current_key(&self) -> (r: Option<&str>)
        ensures
            match r {
                Some(k) => self.current is Some && k@ == self.current->0.sheet_key@,
                None => self.current is None,
            },
    {
        match &self.current {
            Some(c) => Some(c.sheet_key.as_str()),
            None => None,
        }
    }

    /// The result on screen.
    pub fn current_report(&self) -> (r: Option<&GroupingReport>)
        ensures
            match r {
                Some(c) => self.current == Some(*c),
                None => self.current is None,
            },
    {
        match &self.current {
            Some(c) => Some(c),
            None => None,
        }
    }

    fn find_preview(&self, key: &str, max_dim: u32) -> (r: Option<usize>)
        ensures
            match r {
                Some(i) => shows(previews_of(self.previews@), key@, max_dim, i as int),
                None => forall|i: int| !#[trigger] shows(previews_of(self.previews@), key@, max_dim, i),
            },
    {
        let wanted = text::chars_of(key);
        let mut i: usize = 0;
        while i < self.previews.len()
            invariant
                wanted@ == key@,
                i <= self.previews@.len(),
                forall|j: int| 0 <= j < i ==> !#[trigger] shows(previews_of(self.previews@), key@, max_dim, j),
            decreases self.previews@.len() - i,
        {
            let own = text::chars_of(self.previews[i].key.as_str());
            if self.previews[i].max_dim == max_dim && text::same(&own, &wanted) {
                return Some(i);
            }
            i = i + 1;
        }
        None
    }

    /// The stored preview of a sheet at a scale.
    pub fn preview(&self, key: &str, max_dim: u32) -> (r: Option<&PreviewImage>)
        ensures
            match r {
                Some(p) => exists|i: int| #[trigger]
                    shows(previews_of(self.previews@), key@, max_dim, i) && *p
                        == self.previews@[i].image,
                None => forall|i: int| !#[trigger] shows(previews_of(self.previews@), key@, max_dim, i),
            },
    {
        match self.find_preview(key, max_dim) {
            Some(i) => {
                assert(shows(previews_of(self.previews@), key@, max_dim, i as int));
                Some(&self.previews[i].image)
            },
            None => None,
        }
    }

    /// Stores a preview as the newest one.
    pub fn store_preview(&mut self, key: &str, max_dim: u32, image: PreviewImage)
        requires
            old(self).wf(),
        ensures
            final(self).wf(),
            final(self).params == old(self).params,
            final(self).cache == old(self).cache,
            final(self).current == old(self).current,
            is_stored(
                previews_of(old(self).previews@),
                PreviewText { key: key@, max_dim, image },
                previews_of(final(self).previews@),
            ),
    {
        let ghost before = previews_of(self.previews@);
        let ghost p = PreviewText { key: key@, max_dim, image };
        match self.find_preview(key, max_dim) {
            Some(i) => {
                let dropped = self.previews.remove(i);
                assert(previews_of(self.previews@) =~= before.remove(i as int));
                assert(forall|j: int| #[trigger] shows(before, key@, max_dim, j) ==> j == i) by {
                    assert forall|j: int| #[trigger] shows(before, key@, max_dim, j) implies j == i by {
                        if j < i {
                            assert(before[j].key != before[i as int].key || before[j].max_dim
                                != before[i as int].max_dim);
                        } else if j > i {
                            assert(before[i as int].key != before[j].key || before[i as int].max_dim
                                != before[j].max_dim);
                        }
                    }
                }
            },
            None => {},
        }
        let ghost middle = previews_of(self.previews@);
        assert(forall|j: int| #[trigger]
            shows(before, key@, max_dim, j) ==> middle == before.remove(j));
        assert((exists|j: int| #[trigger] shows(before, key@, max_dim, j)) || middle == before);
        self.previews.push(Preview { key: String::from_str(key), max_dim, image });
        assert(previews_of(self.previews@) =~= middle.push(p));
        if self.previews.len() > PREVIEW_CACHE {
            let dropped = self.previews.remove(0);
            assert(previews_of(self.previews@) =~= kept(middle.push(p)));
        }
        assert(previews_of(self.previews@) == kept(middle.push(p)));
        let ghost after = previews_of(self.previews@);
        assert forall|j: int| #[trigger] shows(before, p.key, p.max_dim, j) implies after == kept(
            before.remove(j).push(p),
        ) by {
            assert(shows(before, key@, max_dim, j));
            assert(middle == before.remove(j));
        }
        proof {
            if exists|j: int| #[trigger] shows(before, key@, max_dim, j) {
                let j = choose|j: int| #[trigger] shows(before, key@, max_dim, j);
                assert(shows(before, p.key, p.max_dim, j));
            } else {
                assert(middle == before);
                assert(after == kept(before.push(p)));
            }
        }
        assert(is_stored(before, p, after));
        proof {
            stored_preview_is_found(before, p, previews_of(self.previews@));
        }
    }

    /// Groups the sheet whose mask is cached under `key`. `mask_cache_hit` says
    /// whether that mask was there before the caller asked for it.
    pub fn group_sheet(&mut self, key: &str, mask_cache_hit: bool) -> (r: Option<&GroupingReport>)
        requires
            old(self).wf(),
            old(self).params.refine.enabled ==> refine::refine_params_ok(old(self).params.refine),
        ensures
            final(self).wf(),
            final(self).params == old(self).params,
            final(self).previews == old(self).previews,
            is_group_all(
                *old(self),
                old(self).params.refine,
                key@,
                mask_cache_hit,
                *final(self),
                r is Some,
            ),
            r is Some ==> final(self).current == Some(*r->0),
    {
        let done = self.group_all(key, mask_cache_hit);
        if done {
            match &self.current {
                Some(c) => Some(c),
                None => None,
            }
        } else {
            None
        }
    }

    #[verifier::spinoff_prover]
    #[verifier::rlimit(60)]
    fn group_all(&mut self, key: &str, mask_cache_hit: bool) -> (done: bool)
        requires
            old(self).wf(),
            old(self).params.refine.enabled ==> refine::refine_params_ok(old(self).params.refine),
        ensures
            final(self).wf(),
            final(self).params == old(self).params,
            final(self).previews == old(self).previews,
            is_group_all(
                *old(self),
                old(self).params.refine,
                key@,
                mask_cache_hit,
                *final(self),
                done,
            ),
            done ==> final(self).current is Some,
    {
        let ghost before = self.cache@;
        let entry = match self.cache.get(key) {
            None => {
                return false;
            },
            Some(entry) => entry,
        };
        let ghost i = choose|i: int| #[trigger]
            maskcache::is_at(before, key@, i) && maskcache::same_contents(
                maskcache::mask_text(entry),
                before[i],
            ) && self.cache@ == before.remove(i).push(before[i]);
        assert(maskcache::is_at(before, key@, i) && maskcache::same_contents(
            maskcache::mask_text(entry),
            before[i],
        ));
        assert(is_touch(before, key@, i, self.cache@));
        match maskcache::regroup(&entry, &self.params.refine) {
            None => {
                assert(is_group_all(
                    *old(self),
                    self.params.refine,
                    key@,
                    mask_cache_hit,
                    *self,
                    false,
                ));
                false
            },
            Some(o) => {
                let (groups, stats) = o;
                let c = GroupingReport {
                    sheet_key: String::from_str(key),
                    width: entry.width,
                    height: entry.height,
                    groups,
                    stats,
                    mask_cache_hit,
                    manual_edits: 0,
                };
                proof {
                    let (m, raw) = choose|m: ForegroundMask, raw: Seq<IconGroup>| #[trigger]
                        maskcache::is_regrouping(
                            maskcache::mask_text(entry),
                            m,
                            raw,
                            self.params.refine,
                            groups@,
                            stats,
                        );
                    assert(maskcache::is_regrouping(
                        before[i],
                        m,
                        raw,
                        self.params.refine,
                        c.groups@,
                        c.stats,
                    ));
                    assert(is_automatic(before[i], key@, self.params.refine, mask_cache_hit, c));
                }
                let ghost c0 = c;
                self.current = Some(c);
                assert(self.current->0 == c0);
                assert(is_automatic(before[i], key@, self.params.refine, mask_cache_hit, self.current->0));
                assert(is_touch(old(self).cache@, key@, i, self.cache@));
                assert(old(self).cache.holds(key@));
                assert(self.params.refine.enabled ==> maskcache::has_room(before[i].width, before[i].height));
                assert(is_group_all(
                    *old(self),
                    self.params.refine,
                    key@,
                    mask_cache_hit,
                    *self,
                    true,
                ));
                true
            },
        }
    }

    fn regroup_current(&mut self) -> (done: bool)
        requires
            old(self).wf(),
            old(self).params.refine.enabled ==> refine::refine_params_ok(old(self).params.refine),
        ensures
            final(self).wf(),
            final(self).params == old(self).params,
            final(self).previews == old(self).previews,
            match old(self).current {
                None => !done && *final(self) == *old(self),
                Some(c) => is_group_all(
                    *old(self),
                    old(self).params.refine,
                    c.sheet_key@,
                    c.mask_cache_hit,
                    *final(self),
                    done,
                ),
            },
            done ==> final(self).current is Some,
    {
        let (key, hit) = match &self.current {
            None => {
                return false;
            },
            Some(c) => (c.sheet_key.clone(), c.mask_cache_hit),
        };
        self.group_all(key.as_str(), hit)
    }

    /// Changes the refine parameters and groups the sheet on screen again.
    pub fn set_refine(&mut self, refine: RefineParams) -> (r: Option<&GroupingReport>)
        requires
            old(self).wf(),
            refine.enabled ==> refine::refine_params_ok(refine),
        ensures
            final(self).wf(),
            final(self).params == (GroupingParams { refine, ..old(self).params }),
            final(self).previews == old(self).previews,
            match old(self).current {
                None => r is None && final(self).current is None && final(self).cache == old(
                    self,
                ).cache,
                Some(c) => is_group_all(
                    *old(self),
                    refine,
                    c.sheet_key@,
                    c.mask_cache_hit,
                    *final(self),
                    r is Some,
                ),
            },
            r is Some ==> final(self).current == Some(*r->0),
    {
        self.params.refine = refine;
        if self.regroup_current() {
            match &self.current {
                Some(c) => Some(c),
                None => None,
            }
        } else {
            None
        }
    }

    /// Drops every edit: groups the sheet on screen again.
    pub fn reset_manual(&mut self) -> (r: Option<&GroupingReport>)
        requires
            old(self).wf(),
            old(self).params.refine.enabled ==> refine::refine_params_ok(old(self).params.refine),
        ensures
            final(self).wf(),
            final(self).params == old(self).params,
            final(self).previews == old(self).previews,
            match old(self).current {
                None => r is None && *final(self) == *old(self),
                Some(c) => is_group_all(
                    *old(self),
                    old(self).params.refine,
                    c.sheet_key@,
                    c.mask_cache_hit,
                    *final(self),
                    r is Some,
                ),
            },
            r is Some ==> final(self).current == Some(*r->0),
    {
        if self.regroup_current() {
            match &self.current {
                Some(c) => Some(c),
                None => None,
            }
        } else {
            None
        }
    }

    /// Splits the group under a point, with the size gate skipped: the user's
    /// choice is the evidence. The other guards hold, and where they refuse, the
    /// groups stay as they were. `None` where nothing is on screen, its mask is
    /// gone, nothing lies under the point, or the sheet is too long and narrow
    /// to split.
    pub fn split_here(&mut self, x: u32, y: u32) -> (r: Option<SplitHereReport>)
        requires
            old(self).wf(),
            split::split_params_ok(old(self).params.refine.split),
        ensures
            final(self).wf(),
            final(self).params == old(self).params,
            final(self).previews == old(self).previews,
            match old(self).current {
                None => r is None && *final(self) == *old(self),
                Some(c) => if old(self).cache.holds(c.sheet_key@) {
                    final(self).current is Some && exists|i: int| #[trigger]
                        is_touch(old(self).cache@, c.sheet_key@, i, final(self).cache@)
                            && is_split_here(
                            c,
                            old(self).cache@[i],
                            old(self).params.refine,
                            x as int,
                            y as int,
                            final(self).current->0,
                            r,
                        )
                } else {
                    r is None && final(self).current == old(self).current && final(self).cache@
                        == old(self).cache@
                },
            },
    {
        let key = match &self.current {
            None => {
                return None;
            },
            Some(c) => c.sheet_key.clone(),
        };
        let ghost before = self.cache@;
        let entry = match self.cache.get(key.as_str()) {
            None => {
                return None;
            },
            Some(entry) => entry,
        };
        let ghost i = choose|i: int| #[trigger]
            maskcache::is_at(before, key@, i) && maskcache::same_contents(
                maskcache::mask_text(entry),
                before[i],
            ) && self.cache@ == before.remove(i).push(before[i]);
        assert(maskcache::is_at(before, key@, i) && maskcache::same_contents(
            maskcache::mask_text(entry),
            before[i],
        ));
        let c = match self.current.take() {
            None => {
                return None;
            },
            Some(c) => c,
        };
        let ghost c0 = c;
        let (edited, r) = split_report(c, &entry, &self.params.refine, x, y);
        proof {
            same_split(
                c0,
                maskcache::mask_text(entry),
                before[i],
                self.params.refine,
                x as int,
                y as int,
                edited,
                r,
            );
        }
        self.current = Some(edited);
        if let Some(done) = r {
            if done.split {
                self.cache.count_hit();
            }
        }
        assert(is_touch(before, c0.sheet_key@, i, self.cache@));
        r
    }

    /// Joins the groups that the boxes hit into one; fewer than two hits change
    /// nothing.
    pub fn group_selected(&mut self, boxes: &[Bbox]) -> (r: Option<&GroupingReport>)
        requires
            old(self).wf(),
        ensures
            final(self).wf(),
            final(self).params == old(self).params,
            final(self).previews == old(self).previews,
            r is Some == old(self).current is Some,
            r is Some ==> final(self).current == Some(*r->0),
            match old(self).current {
                None => *final(self) == *old(self),
                Some(c) => final(self).current is Some && is_group_selected(
                    c,
                    old(self).cache@,
                    boxes@,
                    old(self).params.refine,
                    final(self).current->0,
                    final(self).cache@,
                ),
            },
    {
        self.select(boxes);
        match &self.current {
            Some(c) => Some(c),
            None => None,
        }
    }

    fn select(&mut self, boxes: &[Bbox])
        requires
            old(self).wf(),
        ensures
            final(self).wf(),
            final(self).params == old(self).params,
            final(self).previews == old(self).previews,
            match old(self).current {
                None => *final(self) == *old(self),
                Some(c) => final(self).current is Some && is_group_selected(
                    c,
                    old(self).cache@,
                    boxes@,
                    old(self).params.refine,
                    final(self).current->0,
                    final(self).cache@,
                ),
            },
    {
        let ghost s0 = *self;
        let mut c = match self.current.take() {
            None => {
                return;
            },
            Some(c) => c,
        };
        let ghost c0 = c;
        match join_hits(&c.groups, boxes, c.width, c.height) {
            None => {
                self.current = Some(c);
            },
            Some(groups) => {
                c.groups = groups;
                c.manual_edits = count_edit(c.manual_edits);
                let ghost before = self.cache@;
                match self.cache.get(c.sheet_key.as_str()) {
                    None => {},
                    Some(entry) => {
                        let ghost i = choose|i: int| #[trigger]
                            maskcache::is_at(before, c0.sheet_key@, i) && maskcache::same_contents(
                                maskcache::mask_text(entry),
                                before[i],
                            ) && self.cache@ == before.remove(i).push(before[i]);
                        assert(maskcache::is_at(before, c0.sheet_key@, i)
                            && maskcache::same_contents(maskcache::mask_text(entry), before[i]));
                        let m = entry.mask();
                        rescore(&mut c, &m, &entry.background, &self.params.refine);
                        assert(is_scored(before[i], self.params.refine, c));
                        assert(is_touch(before, c0.sheet_key@, i, self.cache@));
                    },
                }
                assert(is_edit(c0, groups@, c));
                self.current = Some(c);
            },
        }
    }
}

/// `c1` and the cache afterwards are what joining the groups that the boxes hit
/// makes of `c0`.
pub open spec fn is_group_selected(
    c0: GroupingReport,
    cache0: Seq<EntryText>,
    boxes: Seq<Bbox>,
    p: RefineParams,
    c1: GroupingReport,
    cache1: Seq<EntryText>,
) -> bool {
    if sorted_out(c0.groups@, boxes, true, c0.groups@.len() as int).len() < 2 {
        c1 == c0 && cache1 == cache0
    } else {
        &&& is_joining(c0.groups@, boxes, c1.groups@)
        &&& is_edit(c0, c1.groups@, c1)
        &&& if exists|i: int| maskcache::is_at(cache0, c0.sheet_key@, i) {
            exists|i: int| #[trigger]
                is_touch(cache0, c0.sheet_key@, i, cache1) && is_scored(cache0[i], p, c1)
        } else {
            cache1 == cache0 && c1.stats == c0.stats
        }
    }
}

/// Only the contents of the entry matter to a split.
proof fn same_split(
    c0: GroupingReport,
    a: EntryText,
    b: EntryText,
    p: RefineParams,
    x: int,
    y: int,
    c1: GroupingReport,
    r: Option<SplitHereReport>,
)
    requires
        maskcache::same_contents(a, b),
        is_split_here(c0, a, p, x, y, c1, r),
    ensures
        is_split_here(c0, b, p, x, y, c1, r),
{
    assert(is_scored(a, p, c1) == is_scored(b, p, c1));
}

// ---- what an edit does --------------------------------------------------------------

/// The group under a pixel is the first whose box holds it.
pub proof fn group_under_a_pixel_is_the_first(groups: Seq<IconGroup>, x: int, y: int, i: int)
    requires
        0 <= i,
    ensures
        match first_under(groups, x, y, i) {
            Some(k) => i <= k < groups.len() && groups[k].bbox.x <= x < groups[k].bbox.x + groups[k].bbox.w
                && groups[k].bbox.y <= y < groups[k].bbox.y + groups[k].bbox.h && forall|j: int|
                i <= j < k ==> !((#[trigger] groups[j]).bbox.x <= x < groups[j].bbox.x + groups[j].bbox.w
                    && groups[j].bbox.y <= y < groups[j].bbox.y + groups[j].bbox.h),
            None => forall|j: int|
                i <= j < groups.len() ==> !((#[trigger] groups[j]).bbox.x <= x < groups[j].bbox.x + groups[j].bbox.w
                    && groups[j].bbox.y <= y < groups[j].bbox.y + groups[j].bbox.h),
        },
    decreases groups.len() - i,
{
    if i < groups.len() && !groups[i].bbox.covers(x, y) {
        group_under_a_pixel_is_the_first(groups, x, y, i + 1);
        assert forall|j: int| i <= j < groups.len() && !(i + 1 <= j) implies !((#[trigger] groups[j]).bbox.x <= x
            < groups[j].bbox.x + groups[j].bbox.w && groups[j].bbox.y <= y < groups[j].bbox.y + groups[j].bbox.h) by {
            assert(j == i);
        }
    }
}

/// Two boxes overlap exactly where some pixel lies in both.
pub proof fn overlapping_boxes_share_a_pixel(a: Bbox, b: Bbox)
    requires
        a.w > 0,
        a.h > 0,
        b.w > 0,
        b.h > 0,
    ensures
        overlap(a, b) == (exists|x: int, y: int| #[trigger] a.covers(x, y) && b.covers(x, y)),
{
    if overlap(a, b) {
        let x = if a.x <= b.x {
            b.x as int
        } else {
            a.x as int
        };
        let y = if a.y <= b.y {
            b.y as int
        } else {
            a.y as int
        };
        assert(a.covers(x, y) && b.covers(x, y));
    }
}

proof fn union_covers(groups: Seq<IconGroup>, n: int, w: int, h: int, k: int)
    requires
        0 <= k < n <= groups.len(),
        w <= u32::MAX,
        h <= u32::MAX,
        forall|i: int| 0 <= i < groups.len() ==> (#[trigger] groups[i]).bbox.fits(w, h),
    ensures
        union_upto(groups, n).fits(w, h),
        merge::contains_box(union_upto(groups, n), groups[k].bbox),
        exists|i: int| 0 <= i < n && (#[trigger] groups[i]).bbox.x == union_upto(groups, n).x,
        exists|i: int| 0 <= i < n && (#[trigger] groups[i]).bbox.y == union_upto(groups, n).y,
        exists|i: int| 0 <= i < n && (#[trigger] groups[i]).bbox.right() == union_upto(groups, n).right(),
        exists|i: int| 0 <= i < n && (#[trigger] groups[i]).bbox.bottom() == union_upto(groups, n).bottom(),
    decreases n,
{
    assert(groups[n - 1].bbox.fits(w, h));
    if n > 1 {
        let j = if k < n - 1 {
            k
        } else {
            0
        };
        union_covers(groups, n - 1, w, h, j);
        let u = union_upto(groups, n - 1);
        let b = groups[n - 1].bbox;
        let t = union_upto(groups, n);
        assert(t == merge::union_box(u, b));
        let x = choose|i: int| 0 <= i < n - 1 && (#[trigger] groups[i]).bbox.x == u.x;
        assert(groups[x].bbox.x == t.x || groups[n - 1].bbox.x == t.x);
        let y = choose|i: int| 0 <= i < n - 1 && (#[trigger] groups[i]).bbox.y == u.y;
        assert(groups[y].bbox.y == t.y || groups[n - 1].bbox.y == t.y);
        let r = choose|i: int| 0 <= i < n - 1 && (#[trigger] groups[i]).bbox.right() == u.right();
        assert(groups[r].bbox.right() == t.right() || groups[n - 1].bbox.right() == t.right());
        let m = choose|i: int| 0 <= i < n - 1 && (#[trigger] groups[i]).bbox.bottom() == u.bottom();
        assert(groups[m].bbox.bottom() == t.bottom() || groups[n - 1].bbox.bottom() == t.bottom());
    } else {
        assert(groups[0].bbox == union_upto(groups, n));
    }
}

proof fn picked_out(groups: Seq<IconGroup>, boxes: Seq<Bbox>, hit: bool, n: int, g: IconGroup)
    requires
        0 <= n <= groups.len(),
    ensures
        sorted_out(groups, boxes, hit, n).contains(g) == (exists|i: int|
            0 <= i < n && (#[trigger] groups[i]) == g && is_hit(g, boxes) == hit),
    decreases n,
{
    if n > 0 {
        picked_out(groups, boxes, hit, n - 1, g);
        let before = sorted_out(groups, boxes, hit, n - 1);
        let now = sorted_out(groups, boxes, hit, n);
        if before.contains(g) {
            let i = choose|i: int| 0 <= i < before.len() && before[i] == g;
            assert(now[i] == g);
        }
        if groups[n - 1] == g && is_hit(g, boxes) == hit {
            assert(now[before.len() as int] == g);
        }
        if now.contains(g) {
            let i = choose|i: int| 0 <= i < now.len() && now[i] == g;
            if i < before.len() {
                assert(before[i] == g);
            }
        }
    }
}

/// Joining a selection leaves every group that the selection misses, and makes one
/// group, with the first origin, of those that it hits: its box is the least round
/// theirs and it has all their ink.
pub proof fn joining_makes_one_group(
    before: Seq<IconGroup>,
    boxes: Seq<Bbox>,
    out: Seq<IconGroup>,
    w: int,
    h: int,
    k: int,
) -> (one: IconGroup)
    requires
        is_joining(before, boxes, out),
        w <= u32::MAX,
        h <= u32::MAX,
        before.len() < usize::MAX,
        forall|i: int| 0 <= i < before.len() ==> (#[trigger] before[i]).bbox.fits(w, h),
        merge::area_sum(before, before.len() as int) <= u32::MAX,
        0 <= k < before.len(),
        exists|i: int| 0 <= i < before.len() && #[trigger] is_hit(before[i], boxes),
    ensures
        out.contains(one),
        !is_hit(before[k], boxes) ==> out.contains(before[k]),
        is_hit(before[k], boxes) ==> one.bbox.x <= before[k].bbox.x && one.bbox.y <= before[k].bbox.y && one.bbox.x
            + one.bbox.w >= before[k].bbox.x + before[k].bbox.w && one.bbox.y + one.bbox.h >= before[k].bbox.y
            + before[k].bbox.h,
        exists|i: int|
            0 <= i < before.len() && is_hit(#[trigger] before[i], boxes) && before[i].bbox.x == one.bbox.x,
        exists|i: int|
            0 <= i < before.len() && is_hit(#[trigger] before[i], boxes) && before[i].bbox.y == one.bbox.y,
        exists|i: int|
            0 <= i < before.len() && is_hit(#[trigger] before[i], boxes) && before[i].bbox.x + before[i].bbox.w
                == one.bbox.x + one.bbox.w,
        exists|i: int|
            0 <= i < before.len() && is_hit(#[trigger] before[i], boxes) && before[i].bbox.y + before[i].bbox.h
                == one.bbox.y + one.bbox.h,
{
    let n = before.len() as int;
    let hit = sorted_out(before, boxes, true, n);
    let miss = sorted_out(before, boxes, false, n);
    let one = joined(hit);
    let all = miss.push(one);
    let order = choose|order: Seq<usize>| #[trigger]
        crate::sorting::is_order(group::keys_of(all), order, 0, all.len() as int) && out == group::picked(all, order);
    sorted_out_short(before, boxes, false, n);
    listed_again_in(all, order, out, one, miss.len() as int);
    picked_out(before, boxes, false, n, before[k]);
    picked_out(before, boxes, true, n, before[k]);
    if !is_hit(before[k], boxes) {
        assert(miss.contains(before[k]));
        let t = choose|t: int| 0 <= t < miss.len() && miss[t] == before[k];
        assert(all[t] == before[k]);
        listed_again_in(all, order, out, before[k], t);
    }
    let f = choose|i: int| 0 <= i < before.len() && #[trigger] is_hit(before[i], boxes);
    picked_out(before, boxes, true, n, before[f]);
    assert(hit.contains(before[f]));
    assert forall|i: int| 0 <= i < hit.len() implies (#[trigger] hit[i]).bbox.fits(w, h) && exists|j: int|
        0 <= j < before.len() && #[trigger] before[j] == hit[i] && is_hit(hit[i], boxes) by {
        picked_out(before, boxes, true, n, hit[i]);
        assert(hit.contains(hit[i]));
    }
    let m = hit.len() as int;
    if is_hit(before[k], boxes) {
        assert(hit.contains(before[k]));
        let t = choose|t: int| 0 <= t < hit.len() && hit[t] == before[k];
        union_covers(hit, m, w, h, t);
    }
    union_covers(hit, m, w, h, 0);
    let x = choose|i: int| 0 <= i < m && (#[trigger] hit[i]).bbox.x == one.bbox.x;
    let jx = choose|j: int| 0 <= j < before.len() && #[trigger] before[j] == hit[x] && is_hit(hit[x], boxes);
    assert(before[jx].bbox.x == one.bbox.x);
    let y = choose|i: int| 0 <= i < m && (#[trigger] hit[i]).bbox.y == one.bbox.y;
    let jy = choose|j: int| 0 <= j < before.len() && #[trigger] before[j] == hit[y] && is_hit(hit[y], boxes);
    assert(before[jy].bbox.y == one.bbox.y);
    let r = choose|i: int| 0 <= i < m && (#[trigger] hit[i]).bbox.right() == one.bbox.right();
    let jr = choose|j: int| 0 <= j < before.len() && #[trigger] before[j] == hit[r] && is_hit(hit[r], boxes);
    assert(before[jr].bbox.x + before[jr].bbox.w == one.bbox.x + one.bbox.w);
    let b = choose|i: int| 0 <= i < m && (#[trigger] hit[i]).bbox.bottom() == one.bbox.bottom();
    let jb = choose|j: int| 0 <= j < before.len() && #[trigger] before[j] == hit[b] && is_hit(hit[b], boxes);
    assert(before[jb].bbox.y + before[jb].bbox.h == one.bbox.y + one.bbox.h);
    one
}

proof fn listed_again_in(all: Seq<IconGroup>, order: Seq<usize>, out: Seq<IconGroup>, g: IconGroup, t: int)
    requires
        crate::sorting::is_order(group::keys_of(all), order, 0, all.len() as int),
        out == group::picked(all, order),
        0 <= t < all.len() <= usize::MAX,
        all[t] == g,
    ensures
        out.contains(g),
{
    assert(order.contains(t as usize));
    let i = choose|i: int| 0 <= i < order.len() && order[i] == t as usize;
    assert(out[i] == g);
}

proof fn sorted_out_short(groups: Seq<IconGroup>, boxes: Seq<Bbox>, hit: bool, n: int)
    requires
        0 <= n,
    ensures
        sorted_out(groups, boxes, hit, n).len() <= n,
    decreases n,
{
    if n > 0 {
        sorted_out_short(groups, boxes, hit, n - 1);
    }
}

/// A split replaces the group under the point and no other: it is counted as one
/// edit, gives at least two regions, and every other group stays. Where nothing is
/// split, nothing changes.
pub proof fn splits_replace_one_group(
    c0: GroupingReport,
    e: EntryText,
    p: RefineParams,
    x: int,
    y: int,
    c1: GroupingReport,
    r: SplitHereReport,
    j: int,
)
    requires
        is_split_here(c0, e, p, x, y, c1, Some(r)),
        0 <= j < c0.groups@.len() < usize::MAX,
        c1.groups@.len() < usize::MAX,
    ensures
        ({
            let g = c0.groups@[r.group_index as int].bbox;
            &&& r.group_index < c0.groups@.len()
            &&& g.x <= x < g.x + g.w && g.y <= y < g.y + g.h
        }),
        !r.split ==> c1 == c0 && r.regions == 0,
        r.split ==> r.regions >= 2 && (c0.manual_edits < u32::MAX ==> c1.manual_edits == c0.manual_edits + 1)
            && c1.width == c0.width && c1.height == c0.height,
        r.split && j != r.group_index ==> c1.groups@.contains(c0.groups@[j]),
{
    group_under_a_pixel_is_the_first(c0.groups@, x, y, 0);
    let i = first_under(c0.groups@, x, y, 0)->0;
    let gs = c0.groups@;
    if r.split && j != i {
        let (m, pieces, count, regions) = choose|m: ForegroundMask, pieces: Seq<IconGroup>, count: int, regions: int|
            #![trigger is_forced_split(m, gs[i], p.split, c0.stats.median_h2 as int, pieces, count, regions)]
            maskcache::is_mask_of(e.width, e.height, e.runs, m) && is_forced_split(
                m,
                gs[i],
                p.split,
                c0.stats.median_h2 as int,
                pieces,
                count,
                regions,
            ) && (if count > 0 && regions >= 2 {
                &&& Some(r) == Some(
                    SplitHereReport { split: true, group_index: i as usize, regions: regions as u64 },
                )
                &&& regions <= u64::MAX
                &&& group::is_sorted_listing(spliced(gs, i, pieces), c1.groups@)
                &&& is_edit(c0, c1.groups@, c1)
                &&& is_scored(e, p, c1)
            } else {
                &&& Some(r) == Some(SplitHereReport { split: false, group_index: i as usize, regions: 0 })
                &&& c1 == c0
            });
        let all = spliced(gs, i, pieces);
        let order = choose|order: Seq<usize>| #[trigger]
            sorting::is_order(group::keys_of(all), order, 0, all.len() as int) && c1.groups@ == group::picked(
                all,
                order,
            );
        let k = if j < i {
            j
        } else {
            pieces.len() + j - 1
        };
        assert(all[k] == gs[j]);
        assert(order.contains(k as usize));
        let t = choose|t: int| 0 <= t < order.len() && order[t] == k as usize;
        assert(c1.groups@[t] == all[k]);
    }
}

/// The groups that are sorted out as hit are counted by the boxes that they overlap.
proof fn hits_are_counted(groups: Seq<IconGroup>, boxes: Seq<Bbox>, n: int)
    requires
        0 <= n <= groups.len(),
    ensures
        sorted_out(groups, boxes, true, n).len() == counting::count_below(
            |i: int| is_hit(groups[i], boxes),
            n,
        ),
    decreases n,
{
    if n > 0 {
        hits_are_counted(groups, boxes, n - 1);
    }
}

/// A selection joins groups only where it hits two or more; one that hits fewer
/// changes nothing, and one that joins is counted as an edit.
pub proof fn selections_join_two_or_more(
    c0: GroupingReport,
    cache0: Seq<EntryText>,
    boxes: Seq<Bbox>,
    p: RefineParams,
    c1: GroupingReport,
    cache1: Seq<EntryText>,
)
    requires
        is_group_selected(c0, cache0, boxes, p, c1, cache1),
    ensures
        ({
            let hits = counting::count_below(|i: int| is_hit(c0.groups@[i], boxes), c0.groups@.len() as int);
            &&& hits < 2 ==> c1 == c0 && cache1 == cache0
            &&& hits >= 2 && c0.manual_edits < u32::MAX ==> c1.manual_edits == c0.manual_edits + 1
            &&& hits >= 2 ==> c1.sheet_key == c0.sheet_key && c1.width == c0.width && c1.height == c0.height
        }),
{
    hits_are_counted(c0.groups@, boxes, c0.groups@.len() as int);
}

} // verus!
