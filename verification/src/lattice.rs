//! The grid stage: a regular lattice proves some merges wrong.
//!
//! A group that straddles a valley and is large enough for more than one icon
//! is taken apart. One that was merged from several components is handed back
//! as those components; one that is a single component is split again with the
//! size gate skipped. When there are more of the latter than the limit allows,
//! the largest boxes win, ties in scan order, and the rest stay as they are.
use vstd::prelude::*;
use crate::containment;
use crate::counting;
use crate::fuse;
use crate::fuse::{Bundle, Lot};
use crate::geometry::{Bbox, IconGroup};
use crate::grid;
use crate::grid::{GridFit, GridHint, GridParams};
use crate::group;
use crate::mask::ForegroundMask;
use crate::sorting;
use crate::sorting::SortKey;
use crate::split;
use crate::split::{SplitOutcome, SplitParams, SplitStats};

verus! {

/// The box could hold the given multiple of median-sized icons, the product
/// rounded to whole pixels.
pub open spec fn is_roomy(b: Bbox, p: GridParams, mh2: int) -> bool {
    (2 * (b.w * b.h) + 1) * 2000 > p.min_cells_to_resplit * (mh2 * mh2)
}

/// What the stage reads.
pub struct LatticeInput {
    /// The lots.
    pub lots: Seq<Lot>,
    /// The lattice.
    pub hint: GridHint,
    /// Tunables.
    pub params: GridParams,
    /// Twice the median height.
    pub mh2: int,
}

/// Lot `i` straddles a valley.
pub open spec fn is_flagged(q: LatticeInput, i: int) -> bool {
    grid::spans_cells(q.lots[i].0.bbox, q.hint, q.params.span_tolerance as int)
}

/// Lot `i` straddles a valley and is roomy.
pub open spec fn is_eligible(q: LatticeInput, i: int) -> bool {
    is_flagged(q, i) && is_roomy(q.lots[i].0.bbox, q.params, q.mh2)
}

/// Lot `i` is a merge to undo.
pub open spec fn is_undone(q: LatticeInput, i: int) -> bool {
    is_eligible(q, i) && q.lots[i].1.len() >= 2
}

/// Lot `i` is one component to split.
pub open spec fn is_glued(q: LatticeInput, i: int) -> bool {
    is_eligible(q, i) && q.lots[i].1.len() < 2
}

/// The rank key of lot `i`: components to split first, larger boxes first.
pub open spec fn rank_key(q: LatticeInput, i: int) -> SortKey {
    let b = q.lots[i].0.bbox;
    (
        if is_glued(q, i) {
            0u64
        } else {
            1u64
        },
        (u64::MAX - b.w * b.h) as u64,
        0u64,
        0u64,
    )
}

/// The rank keys of all lots.
pub open spec fn rank_keys(q: LatticeInput) -> Seq<SortKey> {
    Seq::new(q.lots.len(), |i: int| rank_key(q, i))
}

/// `i` is among the first `m` of the order.
pub open spec fn in_first(order: Seq<usize>, m: int, i: int) -> bool {
    exists|t: int| 0 <= t < m && t < order.len() && #[trigger] order[t] == i
}

/// Lot `i` is split again.
pub open spec fn is_chosen(q: LatticeInput, order: Seq<usize>, i: int) -> bool {
    is_glued(q, i) && in_first(order, q.params.max_resplit as int, i)
}

/// The groups that stay, among the first `n`.
pub open spec fn staying(q: LatticeInput, order: Seq<usize>, n: int) -> Seq<IconGroup>
    decreases n,
{
    if n <= 0 {
        Seq::empty()
    } else if is_undone(q, n - 1) || is_chosen(q, order, n - 1) {
        staying(q, order, n - 1)
    } else {
        staying(q, order, n - 1).push(q.lots[n - 1].0)
    }
}

/// The components handed back, among the first `n`.
pub open spec fn handed_back(q: LatticeInput, n: int) -> Seq<IconGroup>
    decreases n,
{
    if n <= 0 {
        Seq::empty()
    } else if is_undone(q, n - 1) {
        handed_back(q, n - 1) + q.lots[n - 1].1
    } else {
        handed_back(q, n - 1)
    }
}

/// The groups to split again, among the first `n`.
pub open spec fn chosen_ones(q: LatticeInput, order: Seq<usize>, n: int) -> Seq<IconGroup>
    decreases n,
{
    if n <= 0 {
        Seq::empty()
    } else if is_chosen(q, order, n - 1) {
        chosen_ones(q, order, n - 1).push(q.lots[n - 1].0)
    } else {
        chosen_ones(q, order, n - 1)
    }
}

/// Which lots are flagged.
pub open spec fn flagged(q: LatticeInput) -> spec_fn(int) -> bool {
    |i: int| is_flagged(q, i)
}

/// Which lots are handed back.
pub open spec fn undone(q: LatticeInput) -> spec_fn(int) -> bool {
    |i: int| is_undone(q, i)
}

/// What the stage gives back.
#[derive(Clone, Debug, PartialEq, Eq)]
pub struct LatticeOutcome {
    /// The groups, in canonical order when any changed.
    pub groups: Vec<IconGroup>,
    /// The components handed back.
    pub restored: Vec<IconGroup>,
    /// Groups that straddle a valley.
    pub flagged: u64,
    /// Merges undone.
    pub undone: u64,
    /// Groups that were acted on.
    pub candidates: u64,
    /// Groups that the second split took apart.
    pub resplit: u64,
    /// Regions that it produced.
    pub regions: u64,
    /// Counters of the second split alone.
    pub split: SplitStats,
}

/// The pieces of the groups that were split again.
pub open spec fn are_resplit(
    m: ForegroundMask,
    chosen: Seq<IconGroup>,
    mh2: int,
    p: SplitParams,
    pieces: Seq<Vec<IconGroup>>,
    o: LatticeOutcome,
) -> bool {
    if !p.enabled || mh2 == 0 {
        &&& pieces.len() == chosen.len()
        &&& forall|i: int| 0 <= i < chosen.len() ==> (#[trigger] pieces[i])@ == seq![chosen[i]]
        &&& o.split == split::zero_stats()
        &&& o.resplit == 0
        &&& o.regions == 0
    } else {
        exists|outs: Seq<Option<SplitOutcome>>| #[trigger]
            split::are_outcomes(m, chosen, p, mh2, true, outs) && split::are_pieces(
                chosen,
                outs,
                pieces,
            ) && o.split == split::bumped(split::zero_stats(), outs, chosen.len() as int)
                && o.resplit == o.split.split && o.regions == o.split.regions
    }
}

/// `o` is what the stage makes of its input, given the rank order and the pieces.
pub open spec fn settles(
    m: ForegroundMask,
    q: LatticeInput,
    p: SplitParams,
    order: Seq<usize>,
    pieces: Seq<Vec<IconGroup>>,
    o: LatticeOutcome,
) -> bool {
    let n = q.lots.len() as int;
    let chosen = chosen_ones(q, order, n);
    &&& sorting::is_order(rank_keys(q), order, 0, n)
    &&& o.flagged == counting::count_below(flagged(q), n)
    &&& o.undone == counting::count_below(undone(q), n)
    &&& o.restored@ == handed_back(q, n)
    &&& if o.undone == 0 && chosen.len() == 0 {
        &&& o.groups@ == fuse::groups_of(q.lots)
        &&& o.candidates == 0
        &&& o.resplit == 0
        &&& o.regions == 0
        &&& o.split == split::zero_stats()
    } else {
        &&& o.candidates == chosen.len() + o.undone
        &&& are_resplit(m, chosen, q.mh2, p, pieces, o)
        &&& group::is_sorted_listing(
            staying(q, order, n) + o.restored@ + split::flattened(pieces, pieces.len() as int),
            o.groups@,
        )
    }
}

/// `o` is what the stage makes of its input.
pub open spec fn is_lattice_outcome(m: ForegroundMask, q: LatticeInput, p: SplitParams, o: LatticeOutcome) -> bool {
    exists|order: Seq<usize>, pieces: Seq<Vec<IconGroup>>| #[trigger]
        settles(m, q, p, order, pieces, o)
}

fn roomy(b: &Bbox, p: &GridParams, mh2: u64) -> (r: bool)
    requires
        mh2 <= 0x1_ffff_fffe,
    ensures
        r == is_roomy(*b, *p, mh2 as int),
{
    assert(mh2 * mh2 <= 0x1_ffff_fffe * 0x1_ffff_fffe) by (nonlinear_arith)
        requires
            mh2 <= 0x1_ffff_fffe,
    ;
    let square: u128 = mh2 as u128 * mh2 as u128;
    assert(p.min_cells_to_resplit * square <= 0xffff_ffff * (0x1_ffff_fffe * 0x1_ffff_fffe))
        by (nonlinear_arith)
        requires
            p.min_cells_to_resplit <= 0xffff_ffff,
            square <= 0x1_ffff_fffe * 0x1_ffff_fffe,
    ;
    assert(b.w * b.h >= 0) by (nonlinear_arith);
    let area: u128 = b.area() as u128;
    (2 * area + 1) * 2000 > p.min_cells_to_resplit as u128 * square
}

/// Whether every lot is flagged, and whether it is eligible.
fn classify_all(bs: &Vec<Bundle>, hint: &GridHint, params: &GridParams, mh2: u64, Ghost(q): Ghost<LatticeInput>) -> (r: (Vec<bool>, u64))
    requires
        q.lots == fuse::lots_of(bs@),
        q.hint == *hint,
        q.params == *params,
        q.mh2 == mh2,
        mh2 <= 0x1_ffff_fffe,
        hint.valley_x@.len() <= u32::MAX,
        hint.valley_y@.len() <= u32::MAX,
    ensures
        r.0@.len() == bs@.len(),
        forall|i: int| 0 <= i < bs@.len() ==> #[trigger] r.0@[i] == is_eligible(q, i),
        r.1 == counting::count_below(flagged(q), bs@.len() as int),
{
    let n: usize = bs.len();
    let mut eligible: Vec<bool> = Vec::new();
    let mut count: u64 = 0;
    let mut i: usize = 0;
    while i < n
        invariant
            i <= n,
            n == bs@.len(),
            q.lots == fuse::lots_of(bs@),
            q.hint == *hint,
            q.params == *params,
            q.mh2 == mh2,
            mh2 <= 0x1_ffff_fffe,
            hint.valley_x@.len() <= u32::MAX,
            hint.valley_y@.len() <= u32::MAX,
            eligible@.len() == i,
            forall|k: int| 0 <= k < i ==> #[trigger] eligible@[k] == is_eligible(q, k),
            count == counting::count_below(flagged(q), i as int),
            count <= i,
        decreases n - i,
    {
        let b = bs[i].group.bbox;
        let spans: bool = match grid::classify(&b, hint, params.span_tolerance) {
            GridFit::SpansMultipleCells { axes: _ } => true,
            _ => false,
        };
        assert(q.lots[i as int].0.bbox == b);
        if spans {
            count = count + 1;
        }
        eligible.push(spans && roomy(&b, params, mh2));
        i = i + 1;
    }
    (eligible, count)
}

/// Setting one flag raises the count by at most one.
proof fn flag_count(a: Seq<bool>, s: int, n: int)
    requires
        0 <= s < a.len(),
        0 <= n <= a.len(),
    ensures
        counting::count_below(|i: int| a.update(s, true)[i], n) <= counting::count_below(
            |i: int| a[i],
            n,
        ) + (if s < n {
            1int
        } else {
            0int
        }),
    decreases n,
{
    if n > 0 {
        flag_count(a, s, n - 1);
    }
}

/// Marks the lots that are split again.
fn choose_glued(bs: &Vec<Bundle>, eligible: &Vec<bool>, params: &GridParams, Ghost(q): Ghost<LatticeInput>) -> (r: (Vec<bool>, Ghost<Seq<usize>>))
    requires
        q.lots == fuse::lots_of(bs@),
        q.params == *params,
        eligible@.len() == bs@.len(),
        forall|i: int| 0 <= i < bs@.len() ==> #[trigger] eligible@[i] == is_eligible(q, i),
    ensures
        sorting::is_order(rank_keys(q), r.1@, 0, bs@.len() as int),
        r.0@.len() == bs@.len(),
        forall|i: int| 0 <= i < bs@.len() ==> #[trigger] r.0@[i] == is_chosen(q, r.1@, i),
        counting::count_below(|i: int| r.0@[i], bs@.len() as int) <= params.max_resplit,
{
    let n: usize = bs.len();
    let mut keys: Vec<SortKey> = Vec::new();
    let mut marks: Vec<bool> = Vec::new();
    let mut i: usize = 0;
    while i < n
        invariant
            i <= n,
            n == bs@.len(),
            q.lots == fuse::lots_of(bs@),
            eligible@.len() == n,
            forall|k: int| 0 <= k < n ==> #[trigger] eligible@[k] == is_eligible(q, k),
            keys@.len() == i,
            marks@.len() == i,
            forall|k: int| 0 <= k < i ==> #[trigger] keys@[k] == rank_key(q, k),
            forall|k: int| 0 <= k < i ==> #[trigger] marks@[k] == false,
        decreases n - i,
    {
        let glued: bool = eligible[i] && bs[i].members.len() < 2;
        let area: u64 = bs[i].group.bbox.area();
        assert(q.lots[i as int] == (bs@[i as int].group, bs@[i as int].members@));
        keys.push((
            if glued {
                0
            } else {
                1
            },
            u64::MAX - area,
            0,
            0,
        ));
        marks.push(false);
        i = i + 1;
    }
    assert(keys@ =~= rank_keys(q));
    let order = sorting::sort_order(&keys);
    proof {
        counting::count_span(|i: int| marks@[i], 0, n as int, false);
    }
    let mut t: usize = 0;
    while t < n && t < params.max_resplit as usize
        invariant
            t <= n,
            t <= params.max_resplit,
            n == bs@.len(),
            q.lots == fuse::lots_of(bs@),
            q.params == *params,
            eligible@.len() == n,
            forall|k: int| 0 <= k < n ==> #[trigger] eligible@[k] == is_eligible(q, k),
            sorting::is_order(rank_keys(q), order@, 0, n as int),
            order@.len() == n,
            marks@.len() == n,
            forall|k: int|
                0 <= k < n ==> #[trigger] marks@[k] == (is_glued(q, k) && in_first(
                    order@,
                    t as int,
                    k,
                )),
            counting::count_below(|i: int| marks@[i], n as int) <= t,
        decreases n - t,
    {
        let i: usize = order[t];
        let ghost m0 = marks@;
        assert(q.lots[i as int] == (bs@[i as int].group, bs@[i as int].members@));
        if eligible[i] && bs[i].members.len() < 2 {
            marks.set(i, true);
            proof {
                flag_count(m0, i as int, n as int);
                assert(marks@ =~= m0.update(i as int, true));
                counting::count_ext(
                    |k: int| marks@[k],
                    |k: int| m0.update(i as int, true)[k],
                    n as int,
                );
                counting::count_ext(|k: int| m0[k], |k: int| m0[k], n as int);
            }
        }
        proof {
            assert forall|k: int| 0 <= k < n implies #[trigger] marks@[k] == (is_glued(q, k)
                && in_first(order@, t as int + 1, k)) by {
                assert(m0[k] == (is_glued(q, k) && in_first(order@, t as int, k)));
                if in_first(order@, t as int, k) {
                    let u = choose|u: int|
                        0 <= u < t && u < order@.len() && #[trigger] order@[u] == k;
                    assert(order@[u] == k);
                    assert(in_first(order@, t as int + 1, k));
                }
                if k == i {
                    assert(order@[t as int] == k);
                } else if in_first(order@, t as int + 1, k) {
                    let u = choose|u: int|
                        0 <= u < t + 1 && u < order@.len() && #[trigger] order@[u] == k;
                    assert(u != t);
                    assert(in_first(order@, t as int, k));
                }
            }
        }
        t = t + 1;
    }
    proof {
        assert forall|k: int| 0 <= k < n implies #[trigger] marks@[k] == is_chosen(q, order@, k) by {
            assert(marks@[k] == (is_glued(q, k) && in_first(order@, t as int, k)));
            if t < params.max_resplit {
                if in_first(order@, params.max_resplit as int, k) {
                    let u = choose|u: int|
                        0 <= u < params.max_resplit && u < order@.len() && #[trigger] order@[u] == k;
                    assert(u < t);
                    assert(in_first(order@, t as int, k));
                }
                if in_first(order@, t as int, k) {
                    let u = choose|u: int|
                        0 <= u < t && u < order@.len() && #[trigger] order@[u] == k;
                    assert(in_first(order@, params.max_resplit as int, k));
                }
            }
        }
    }
    (marks, Ghost(order@))
}

/// The groups that a pass over the lots sorts apart.
struct Parted {
    keep: Vec<IconGroup>,
    restored: Vec<IconGroup>,
    glue: Vec<IconGroup>,
    undone: u64,
}

/// Sorts the lots into those that stay, go back, and are split again.
fn part(bs: &Vec<Bundle>, eligible: &Vec<bool>, chosen: &Vec<bool>, Ghost(q): Ghost<LatticeInput>, Ghost(order): Ghost<Seq<usize>>) -> (r: Parted)
    requires
        q.lots == fuse::lots_of(bs@),
        eligible@.len() == bs@.len(),
        chosen@.len() == bs@.len(),
        forall|i: int| 0 <= i < bs@.len() ==> #[trigger] eligible@[i] == is_eligible(q, i),
        forall|i: int| 0 <= i < bs@.len() ==> #[trigger] chosen@[i] == is_chosen(q, order, i),
    ensures
        r.keep@ == staying(q, order, bs@.len() as int),
        r.restored@ == handed_back(q, bs@.len() as int),
        r.glue@ == chosen_ones(q, order, bs@.len() as int),
        r.undone == counting::count_below(undone(q), bs@.len() as int),
        r.undone <= bs@.len(),
        r.glue@.len() == counting::count_below(|i: int| chosen@[i], bs@.len() as int),
{
    let n: usize = bs.len();
    let mut keep: Vec<IconGroup> = Vec::new();
    let mut restored: Vec<IconGroup> = Vec::new();
    let mut glue: Vec<IconGroup> = Vec::new();
    let mut count: u64 = 0;
    let ghost f = |i: int| chosen@[i];
    let mut i: usize = 0;
    while i < n
        invariant
            i <= n,
            n == bs@.len(),
            q.lots == fuse::lots_of(bs@),
            eligible@.len() == n,
            chosen@.len() == n,
            forall|k: int| 0 <= k < n ==> #[trigger] eligible@[k] == is_eligible(q, k),
            forall|k: int| 0 <= k < n ==> #[trigger] chosen@[k] == is_chosen(q, order, k),
            keep@ == staying(q, order, i as int),
            restored@ == handed_back(q, i as int),
            glue@ == chosen_ones(q, order, i as int),
            count == counting::count_below(undone(q), i as int),
            count <= i,
            f == (|i: int| chosen@[i]),
            glue@.len() == counting::count_below(f, i as int),
        decreases n - i,
    {
        let b = &bs[i];
        assert(q.lots[i as int] == (b.group, b.members@));
        if eligible[i] && b.members.len() >= 2 {
            count = count + 1;
            fuse::extend_groups(&mut restored, &b.members);
        } else if chosen[i] {
            glue.push(b.group);
        } else {
            keep.push(b.group);
        }
        i = i + 1;
    }
    Parted { keep, restored, glue, undone: count }
}

/// The groups to split again lie on the sheet.
proof fn chosen_fit(m: ForegroundMask, q: LatticeInput, order: Seq<usize>, n: int)
    requires
        fuse::lots_fit(q.lots, m.width as int, m.height as int),
        n <= q.lots.len(),
    ensures
        containment::groups_fit(m, chosen_ones(q, order, n)),
    decreases n,
{
    if n > 0 {
        chosen_fit(m, q, order, n - 1);
        assert(fuse::lot_fits(q.lots[n - 1], m.width as int, m.height as int));
    }
}

/// Takes apart what straddles a valley.
pub fn apply_lattice(bs: &Vec<Bundle>, mask: &ForegroundMask, mh2: u64, hint: &GridHint, params: &GridParams, sp: &SplitParams) -> (r: LatticeOutcome)
    requires
        mask.wf(),
        split::has_frame_room(*mask),
        fuse::lots_fit(fuse::lots_of(bs@), mask.width as int, mask.height as int),
        mh2 <= 0x1_ffff_fffe,
        hint.valley_x@.len() <= u32::MAX,
        hint.valley_y@.len() <= u32::MAX,
        params.max_resplit <= split::MAX_GROUPS,
        split::split_params_ok(*sp),
    ensures
        is_lattice_outcome(
            *mask,
            (LatticeInput {
                lots: fuse::lots_of(bs@),
                hint: *hint,
                params: *params,
                mh2: mh2 as int,
            }),
            *sp,
            r,
        ),
        split::stats_within(split::zero_stats(), r.split, split::MAX_GROUPS as int),
        r.undone <= bs@.len(),
{
    let ghost q = LatticeInput {
        lots: fuse::lots_of(bs@),
        hint: *hint,
        params: *params,
        mh2: mh2 as int,
    };
    let n: usize = bs.len();
    let (eligible, count) = classify_all(bs, hint, params, mh2, Ghost(q));
    let (chosen, Ghost(order)) = choose_glued(bs, &eligible, params, Ghost(q));
    let parted = part(bs, &eligible, &chosen, Ghost(q), Ghost(order));
    if parted.undone == 0 && parted.glue.len() == 0 {
        let groups = fuse::bundle_groups(bs);
        let o = LatticeOutcome {
            groups,
            restored: parted.restored,
            flagged: count,
            undone: 0,
            candidates: 0,
            resplit: 0,
            regions: 0,
            split: SplitStats::default(),
        };
        assert(settles(*mask, q, *sp, order, Seq::empty(), o));
        return o;
    }
    let mut stats = SplitStats::default();
    proof {
        chosen_fit(*mask, q, order, n as int);
        every_lot_is_placed(q, order, n as int);
    }
    let (pieces, resplit, regions) = split::resplit_forced(&parted.glue, mask, mh2, sp, &mut stats);
    let flat = split::flatten(&pieces);
    let mut all = parted.keep;
    fuse::extend_groups(&mut all, &parted.restored);
    fuse::extend_groups(&mut all, &flat);
    let groups = group::sort_groups(&all);
    let ghost chosen_seq = parted.glue@;
    let o = LatticeOutcome {
        groups,
        restored: parted.restored,
        flagged: count,
        undone: parted.undone,
        candidates: parted.glue.len() as u64 + parted.undone,
        resplit,
        regions,
        split: stats,
    };
    proof {
        assert(are_resplit(*mask, chosen_seq, mh2 as int, *sp, pieces@, o)) by {
            if sp.enabled && mh2 > 0 {
                let outs = choose|outs: Seq<Option<SplitOutcome>>| #[trigger]
                    split::are_outcomes(*mask, chosen_seq, *sp, mh2 as int, true, outs)
                        && split::are_pieces(chosen_seq, outs, pieces@) && stats == split::bumped(
                        split::zero_stats(),
                        outs,
                        chosen_seq.len() as int,
                    );
                assert(split::are_outcomes(*mask, chosen_seq, *sp, mh2 as int, true, outs));
            }
        }
        assert(settles(*mask, q, *sp, order, pieces@, o));
        within_more(stats, chosen_seq.len() as int, split::MAX_GROUPS as int);
    }
    o
}

proof fn within_more(s: SplitStats, m: int, n: int)
    requires
        split::stats_within(split::zero_stats(), s, m),
        0 <= m <= n,
    ensures
        split::stats_within(split::zero_stats(), s, n),
{
    let k = crate::mask::MAX_PIXELS as int;
    assert(m * k <= n * k && m * (8 * k) <= n * (8 * k)) by (nonlinear_arith)
        requires
            0 <= m <= n,
            0 <= k,
    ;
}

// ---- laws ---------------------------------------------------------------------------

/// What the stage gives back lies on the sheet.
pub proof fn outcome_lies_on_sheet(m: ForegroundMask, q: LatticeInput, p: SplitParams, o: LatticeOutcome)
    requires
        m.wf(),
        fuse::lots_fit(q.lots, m.width as int, m.height as int),
        is_lattice_outcome(m, q, p, o),
    ensures
        fuse::all_fit(o.groups@, m.width as int, m.height as int),
        fuse::all_fit(o.restored@, m.width as int, m.height as int),
{
    let w = m.width as int;
    let h = m.height as int;
    let (order, pieces) = choose|order: Seq<usize>, pieces: Seq<Vec<IconGroup>>| #[trigger]
        settles(m, q, p, order, pieces, o);
    let n = q.lots.len() as int;
    parts_fit(m, q, order, n);
    let chosen = chosen_ones(q, order, n);
    if o.undone == 0 && chosen.len() == 0 {
        assert forall|i: int| 0 <= i < n implies #[trigger] fuse::group_fits(o.groups@[i], w, h) by {
            assert(fuse::lot_fits(q.lots[i], w, h));
        }
    } else {
        if !p.enabled || q.mh2 == 0 {
            assert forall|i: int| 0 <= i < pieces.len() implies fuse::all_fit(
                (#[trigger] pieces[i])@,
                w,
                h,
            ) by {
                assert(pieces[i]@ == seq![chosen[i]]);
                assert(fuse::group_fits(chosen[i], w, h));
            }
        } else {
            let outs = choose|outs: Seq<Option<SplitOutcome>>| #[trigger]
                split::are_outcomes(m, chosen, p, q.mh2, true, outs) && split::are_pieces(
                    chosen,
                    outs,
                    pieces,
                );
            pieces_fit(m, chosen, p, q.mh2, true, outs, pieces);
        }
        flattened_fit(pieces, pieces.len() as int, w, h);
        let all = staying(q, order, n) + o.restored@ + split::flattened(pieces, pieces.len() as int);
        assert(fuse::all_fit(all, w, h)) by {
            let a = staying(q, order, n).len();
            let b = o.restored@.len();
            assert forall|i: int| 0 <= i < all.len() implies #[trigger] fuse::group_fits(all[i], w, h) by {
                if i < a {
                    assert(all[i] == staying(q, order, n)[i]);
                } else if i < a + b {
                    assert(all[i] == o.restored@[i - a]);
                } else {
                    assert(all[i] == split::flattened(pieces, pieces.len() as int)[i - a - b]);
                }
            }
        }
        sorted_fit(all, o.groups@, w, h);
    }
}

/// Sorting keeps everything on the sheet.
pub proof fn sorted_fit(gs: Seq<IconGroup>, out: Seq<IconGroup>, w: int, h: int)
    requires
        fuse::all_fit(gs, w, h),
        group::is_sorted_listing(gs, out),
    ensures
        fuse::all_fit(out, w, h),
        out.len() == gs.len(),
{
    let order = choose|order: Seq<usize>| #[trigger]
        sorting::is_order(group::keys_of(gs), order, 0, gs.len() as int) && out == group::picked(
            gs,
            order,
        );
    assert forall|i: int| 0 <= i < out.len() implies #[trigger] fuse::group_fits(out[i], w, h) by {
        assert(fuse::group_fits(gs[order[i] as int], w, h));
    }
}

/// The pieces of groups on a sheet lie on the sheet.
pub proof fn pieces_fit(m: ForegroundMask, groups: Seq<IconGroup>, p: SplitParams, mh2: int, forced: bool, outs: Seq<Option<SplitOutcome>>, pieces: Seq<Vec<IconGroup>>)
    requires
        m.wf(),
        fuse::all_fit(groups, m.width as int, m.height as int),
        split::are_outcomes(m, groups, p, mh2, forced, outs),
        split::are_pieces(groups, outs, pieces),
    ensures
        forall|i: int|
            0 <= i < pieces.len() ==> fuse::all_fit(
                (#[trigger] pieces[i])@,
                m.width as int,
                m.height as int,
            ),
{
    let w = m.width as int;
    let h = m.height as int;
    assert forall|i: int| 0 <= i < pieces.len() implies fuse::all_fit((#[trigger] pieces[i])@, w, h) by {
        assert(fuse::group_fits(groups[i], w, h));
        assert forall|t: int| 0 <= t < pieces[i]@.len() implies #[trigger] fuse::group_fits(
            pieces[i]@[t],
            w,
            h,
        ) by {
            match outs[i] {
                Some(o) => {
                    if o.regions@.len() > 0 {
                        split::outcome_fits(m, groups[i], p, mh2, o, t);
                    }
                },
                None => {},
            }
        }
    }
}

proof fn flattened_fit(pieces: Seq<Vec<IconGroup>>, n: int, w: int, h: int)
    requires
        0 <= n <= pieces.len(),
        forall|i: int| 0 <= i < pieces.len() ==> fuse::all_fit((#[trigger] pieces[i])@, w, h),
    ensures
        fuse::all_fit(split::flattened(pieces, n), w, h),
    decreases n,
{
    if n > 0 {
        flattened_fit(pieces, n - 1, w, h);
        let a = split::flattened(pieces, n - 1);
        let all = split::flattened(pieces, n);
        assert forall|i: int| 0 <= i < all.len() implies #[trigger] fuse::group_fits(all[i], w, h) by {
            if i < a.len() {
                assert(fuse::group_fits(a[i], w, h));
            } else {
                assert(fuse::group_fits(pieces[n - 1]@[i - a.len()], w, h));
            }
        }
    }
}

proof fn parts_fit(m: ForegroundMask, q: LatticeInput, order: Seq<usize>, n: int)
    requires
        fuse::lots_fit(q.lots, m.width as int, m.height as int),
        n <= q.lots.len(),
    ensures
        fuse::all_fit(staying(q, order, n), m.width as int, m.height as int),
        fuse::all_fit(handed_back(q, n), m.width as int, m.height as int),
        fuse::all_fit(chosen_ones(q, order, n), m.width as int, m.height as int),
    decreases n,
{
    if n > 0 {
        let w = m.width as int;
        let h = m.height as int;
        parts_fit(m, q, order, n - 1);
        assert(fuse::lot_fits(q.lots[n - 1], w, h));
        let a = handed_back(q, n - 1);
        let both = a + q.lots[n - 1].1;
        assert forall|i: int| 0 <= i < both.len() implies #[trigger] fuse::group_fits(both[i], w, h) by {
            if i < a.len() {
                assert(fuse::group_fits(a[i], w, h));
            } else {
                assert(fuse::group_fits(q.lots[n - 1].1[i - a.len()], w, h));
            }
        }
    }
}

/// Nothing is lost: what neither stays nor goes back is split again.
pub proof fn every_lot_is_placed(q: LatticeInput, order: Seq<usize>, n: int)
    requires
        0 <= n <= q.lots.len(),
    ensures
        staying(q, order, n).len() + counting::count_below(undone(q), n) + chosen_ones(
            q,
            order,
            n,
        ).len() == n,
    decreases n,
{
    if n > 0 {
        every_lot_is_placed(q, order, n - 1);
    }
}

/// Without a lattice the stage changes nothing.
pub proof fn no_lattice_no_change(m: ForegroundMask, q: LatticeInput, p: SplitParams, o: LatticeOutcome)
    requires
        !q.hint.grid_x,
        !q.hint.grid_y,
        is_lattice_outcome(m, q, p, o),
    ensures
        o.groups@ == fuse::groups_of(q.lots),
        o.flagged == 0,
        o.restored@.len() == 0,
{
    let (order, pieces) = choose|order: Seq<usize>, pieces: Seq<Vec<IconGroup>>| #[trigger]
        settles(m, q, p, order, pieces, o);
    let n = q.lots.len() as int;
    counting::count_span(flagged(q), 0, n, false);
    counting::count_span(undone(q), 0, n, false);
    nothing_moves(q, order, n);
}

proof fn nothing_moves(q: LatticeInput, order: Seq<usize>, n: int)
    requires
        !q.hint.grid_x,
        !q.hint.grid_y,
    ensures
        handed_back(q, n).len() == 0,
        chosen_ones(q, order, n).len() == 0,
    decreases n,
{
    if n > 0 {
        nothing_moves(q, order, n - 1);
    }
}

// ---- one outcome --------------------------------------------------------------------

/// Two outcomes are the same.
pub open spec fn same_outcome(a: LatticeOutcome, b: LatticeOutcome) -> bool {
    &&& a.groups@ == b.groups@
    &&& a.restored@ == b.restored@
    &&& a.flagged == b.flagged
    &&& a.undone == b.undone
    &&& a.candidates == b.candidates
    &&& a.resplit == b.resplit
    &&& a.regions == b.regions
    &&& a.split == b.split
}

/// Two inputs are the same.
pub open spec fn same_input(a: LatticeInput, b: LatticeInput) -> bool {
    a.lots == b.lots && a.params == b.params && a.mh2 == b.mh2 && grid::same_hint(a.hint, b.hint)
}

proof fn lists_agree(q: LatticeInput, r: LatticeInput, order: Seq<usize>, n: int)
    requires
        same_input(q, r),
    ensures
        staying(q, order, n) == staying(r, order, n),
        handed_back(q, n) == handed_back(r, n),
        chosen_ones(q, order, n) == chosen_ones(r, order, n),
    decreases n,
{
    if n > 0 {
        lists_agree(q, r, order, n - 1);
        assert(is_flagged(q, n - 1) == is_flagged(r, n - 1));
    }
}

proof fn flattened_same(a: Seq<Vec<IconGroup>>, b: Seq<Vec<IconGroup>>, n: int)
    requires
        0 <= n <= a.len(),
        a.len() == b.len(),
        forall|i: int| 0 <= i < a.len() ==> (#[trigger] a[i])@ == b[i]@,
    ensures
        split::flattened(a, n) == split::flattened(b, n),
    decreases n,
{
    if n > 0 {
        flattened_same(a, b, n - 1);
        assert(a[n - 1]@ == b[n - 1]@);
    }
}

proof fn resplit_same(
    m: ForegroundMask,
    chosen: Seq<IconGroup>,
    mh2: int,
    p: SplitParams,
    x: Seq<Vec<IconGroup>>,
    a: LatticeOutcome,
    y: Seq<Vec<IconGroup>>,
    b: LatticeOutcome,
)
    requires
        m.wf(),
        fuse::all_fit(chosen, m.width as int, m.height as int),
        are_resplit(m, chosen, mh2, p, x, a),
        are_resplit(m, chosen, mh2, p, y, b),
    ensures
        a.split == b.split,
        a.resplit == b.resplit,
        a.regions == b.regions,
        x.len() == y.len(),
        forall|i: int| 0 <= i < x.len() ==> (#[trigger] x[i])@ == y[i]@,
{
    if !(!p.enabled || mh2 == 0) {
        let s = choose|outs: Seq<Option<SplitOutcome>>| #[trigger]
            split::are_outcomes(m, chosen, p, mh2, true, outs) && split::are_pieces(chosen, outs, x)
                && a.split == split::bumped(split::zero_stats(), outs, chosen.len() as int) && a.resplit
                == a.split.split && a.regions == a.split.regions;
        let t = choose|outs: Seq<Option<SplitOutcome>>| #[trigger]
            split::are_outcomes(m, chosen, p, mh2, true, outs) && split::are_pieces(chosen, outs, y)
                && b.split == split::bumped(split::zero_stats(), outs, chosen.len() as int) && b.resplit
                == b.split.split && b.regions == b.split.regions;
        assert forall|i: int| 0 <= i < chosen.len() implies (#[trigger] chosen[i]).bbox.fits(
            m.width as int,
            m.height as int,
        ) by {
            assert(fuse::group_fits(chosen[i], m.width as int, m.height as int));
        }
        split::outcomes_are_determined(m, chosen, p, mh2, true, s, t);
        split::bumped_same(split::zero_stats(), s, t, chosen.len() as int);
        assert forall|i: int| 0 <= i < x.len() implies (#[trigger] x[i])@ == y[i]@ by {
            assert(y[i]@ == split::pieces_for(chosen[i], t[i]));
            assert(s[i] is Some || s[i] is None);
        }
    } else {
        assert forall|i: int| 0 <= i < x.len() implies (#[trigger] x[i])@ == y[i]@ by {
            assert(y[i]@ == seq![chosen[i]]);
        }
    }
}

/// The stage makes one thing of its input.
pub proof fn outcome_is_determined(
    m: ForegroundMask,
    q: LatticeInput,
    r: LatticeInput,
    p: SplitParams,
    a: LatticeOutcome,
    b: LatticeOutcome,
)
    requires
        m.wf(),
        fuse::lots_fit(q.lots, m.width as int, m.height as int),
        same_input(q, r),
        is_lattice_outcome(m, q, p, a),
        is_lattice_outcome(m, r, p, b),
    ensures
        same_outcome(a, b),
{
    let n = q.lots.len() as int;
    let (s, x) = choose|order: Seq<usize>, pieces: Seq<Vec<IconGroup>>| #[trigger]
        settles(m, q, p, order, pieces, a);
    let (t, y) = choose|order: Seq<usize>, pieces: Seq<Vec<IconGroup>>| #[trigger]
        settles(m, r, p, order, pieces, b);
    assert forall|i: int| #[trigger] is_flagged(q, i) == is_flagged(r, i) by {}
    assert(rank_keys(q) =~= rank_keys(r)) by {
        assert forall|i: int| 0 <= i < n implies rank_keys(q)[i] == rank_keys(r)[i] by {
            assert(is_flagged(q, i) == is_flagged(r, i));
        }
    }
    sorting::order_is_unique(rank_keys(q), s, t, 0, n);
    lists_agree(q, r, s, n);
    counting::count_ext(flagged(q), flagged(r), n);
    counting::count_ext(undone(q), undone(r), n);
    let chosen = chosen_ones(q, s, n);
    if a.undone == 0 && chosen.len() == 0 {
    } else {
        chosen_fit(m, q, s, n);
        resplit_same(m, chosen, q.mh2, p, x, a, y, b);
        flattened_same(x, y, x.len() as int);
        group::listing_is_unique(
            staying(q, s, n) + a.restored@ + split::flattened(x, x.len() as int),
            a.groups@,
            b.groups@,
        );
    }
}

// ---- what the lattice decides -------------------------------------------------------

/// A lot is flagged where it reaches over a valley, and acted on where its box
/// could also hold enough median squares; then it is handed back where it was
/// merged, and a candidate for a split where it was not.
pub proof fn flagged_lots_are_large_and_cross(q: LatticeInput, i: int)
    requires
        0 <= i < q.lots.len(),
        q.lots[i].0.bbox.w > 0,
        q.lots[i].0.bbox.h > 0,
        forall|a: int, b: int|
            0 <= a < b < q.hint.valley_x@.len() ==> #[trigger] q.hint.valley_x@[a] < #[trigger] q.hint.valley_x@[b],
        forall|a: int, b: int|
            0 <= a < b < q.hint.valley_y@.len() ==> #[trigger] q.hint.valley_y@[a] < #[trigger] q.hint.valley_y@[b],
    ensures
        ({
            let b = q.lots[i].0.bbox;
            let large = 2000 * (2 * (b.w * b.h) + 1) > q.params.min_cells_to_resplit * (q.mh2 * q.mh2);
            let over = crate::confidence::reaches_over_a_valley(b, q.hint, q.params.span_tolerance as int);
            &&& is_flagged(q, i) == over
            &&& is_undone(q, i) == (over && large && q.lots[i].1.len() >= 2)
            &&& is_glued(q, i) == (over && large && q.lots[i].1.len() < 2)
        }),
{
    let b = q.lots[i].0.bbox;
    crate::confidence::spanning_is_reaching(b, q.hint, q.params.span_tolerance as int);
}

proof fn members_are_handed_back(q: LatticeInput, n: int, i: int, k: int)
    requires
        0 <= i < n <= q.lots.len(),
        is_undone(q, i),
        0 <= k < q.lots[i].1.len(),
    ensures
        handed_back(q, n).contains(q.lots[i].1[k]),
    decreases n,
{
    if i == n - 1 {
        let before = handed_back(q, n - 1);
        assert(handed_back(q, n)[before.len() + k] == q.lots[i].1[k]);
    } else {
        members_are_handed_back(q, n - 1, i, k);
        let before = handed_back(q, n - 1);
        let t = choose|t: int| 0 <= t < before.len() && before[t] == q.lots[i].1[k];
        assert(handed_back(q, n)[t] == q.lots[i].1[k]);
    }
}

/// Every component of a merge that is undone is handed back.
pub proof fn undone_merges_give_their_parts_back(
    m: ForegroundMask,
    q: LatticeInput,
    p: SplitParams,
    o: LatticeOutcome,
    i: int,
    k: int,
)
    requires
        is_lattice_outcome(m, q, p, o),
        0 <= i < q.lots.len(),
        is_undone(q, i),
        0 <= k < q.lots[i].1.len(),
    ensures
        o.restored@.contains(q.lots[i].1[k]),
        o.undone > 0,
{
    let (order, pieces) = choose|order: Seq<usize>, pieces: Seq<Vec<IconGroup>>| #[trigger]
        settles(m, q, p, order, pieces, o);
    members_are_handed_back(q, q.lots.len() as int, i, k);
    counting::count_positive(undone(q), q.lots.len() as int, i);
}

proof fn first_in_order(q: LatticeInput, order: Seq<usize>, m: int, i: int, j: int)
    requires
        sorting::is_order(rank_keys(q), order, 0, q.lots.len() as int),
        q.lots.len() <= usize::MAX,
        in_first(order, m, i),
        0 <= j < q.lots.len(),
        !in_first(order, m, j),
    ensures
        0 <= i < q.lots.len(),
        sorting::pos_lt(rank_keys(q), i, j),
{
    let t = choose|t: int| 0 <= t < m && t < order.len() && #[trigger] order[t] == i;
    assert(order.contains(j as usize));
    let u = choose|u: int| 0 <= u < order.len() && order[u] == j as usize;
    assert(order[u] == j);
    assert(u >= m);
    assert(sorting::pos_lt(rank_keys(q), order[t] as int, order[u] as int));
}

/// Where not all candidates for a split may be taken, the largest boxes are: none
/// that is passed over is larger than one that is taken.
pub proof fn largest_boxes_are_split_again(q: LatticeInput, order: Seq<usize>, i: int, j: int)
    requires
        sorting::is_order(rank_keys(q), order, 0, q.lots.len() as int),
        q.lots.len() <= usize::MAX,
        is_chosen(q, order, i),
        0 <= j < q.lots.len(),
        is_glued(q, j),
        !is_chosen(q, order, j),
    ensures
        q.lots[i].0.bbox.w * q.lots[i].0.bbox.h >= q.lots[j].0.bbox.w * q.lots[j].0.bbox.h,
{
    first_in_order(q, order, q.params.max_resplit as int, i, j);
    let a = q.lots[i].0.bbox;
    let b = q.lots[j].0.bbox;
    assert(0 <= a.w * a.h <= 0xffff_ffff * 0xffff_ffff) by (nonlinear_arith)
        requires
            0 <= a.w <= 0xffff_ffff,
            0 <= a.h <= 0xffff_ffff,
    ;
    assert(0 <= b.w * b.h <= 0xffff_ffff * 0xffff_ffff) by (nonlinear_arith)
        requires
            0 <= b.w <= 0xffff_ffff,
            0 <= b.h <= 0xffff_ffff,
    ;
    assert(rank_keys(q)[i] == rank_key(q, i) && rank_keys(q)[j] == rank_key(q, j));
}

} // verus!
