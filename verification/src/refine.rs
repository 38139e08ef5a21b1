//! The refine chain: from connected components to icon-sized groups.
//!
//! Noise is filtered before anything else, then fragments are merged, merges
//! that are too large are split, and a regular lattice undoes what crossed a
//! valley. Containment and confidence only measure the result. The chain is
//! deterministic: every stage works on canonically ordered groups.
use vstd::prelude::*;
use crate::background;
use crate::background::BackgroundModel;
use crate::confidence;
use crate::confidence::{ConfidenceReport, ScoreInput};
use crate::containment;
use crate::containment::{Containment, ContainmentStats};
use crate::counting;
use crate::fuse;
use crate::fuse::{Bundle, Lot, MergeTally};
use crate::geometry::IconGroup;
use crate::grid;
use crate::grid::{GridHint, GridStats};
use crate::group;
use crate::lattice;
use crate::lattice::{LatticeInput, LatticeOutcome};
use crate::mask;
use crate::mask::ForegroundMask;
use crate::median;
use crate::merge;
use crate::merge::{MergeContext, MergeRule, PairVerdict, RefineParams};
use crate::nearby;
use crate::sorting;
use crate::split;
use crate::split::{SplitOutcome, SplitStats};

verus! {

/// What the chain did.
#[derive(Clone, Debug, PartialEq, Eq)]
pub struct RefineStats {
    /// Components handed in.
    pub input: u64,
    /// Components dropped by the size gates.
    pub removed_noise: u64,
    /// Components dropped as isolated specks.
    pub removed_specks: u64,
    /// Twice the median height of the survivors.
    pub median_h2: u64,
    /// Twice the median area of the survivors.
    pub median_area2: u64,
    /// Merge distance, in two-thousandths of a pixel.
    pub gap: u64,
    /// Merge rounds that changed the grouping.
    pub iterations: u8,
    /// Components merged away.
    pub merges: u64,
    /// Merges by the first rule.
    pub rule1: u64,
    /// Merges by the fourth rule.
    pub rule4: u64,
    /// Merges by the fifth rule.
    pub rule5: u64,
    /// Pairs refused as too long.
    pub refused_aspect: u64,
    /// Pairs refused as too tall.
    pub refused_height: u64,
    /// Split counters.
    pub split: SplitStats,
    /// Grid counters.
    pub grid: GridStats,
    /// Containment counters.
    pub containment: ContainmentStats,
    /// The measured lattice.
    pub hint: GridHint,
    /// Components handed back from merges that crossed a valley.
    pub restored_originals: Vec<IconGroup>,
    /// The confidence report.
    pub confidence: ConfidenceReport,
}

/// No containment counts.
pub open spec fn zero_containment() -> ContainmentStats {
    ContainmentStats { pairs_tested: 0, contained: 0, rejected_open: 0, holes: 0, max_depth: 0 }
}

/// Stats that count nothing but the input.
pub open spec fn is_blank_stats(s: RefineStats, input: int) -> bool {
    &&& s.input == input
    &&& s.removed_noise == 0
    &&& s.removed_specks == 0
    &&& s.median_h2 == 0
    &&& s.median_area2 == 0
    &&& s.gap == 0
    &&& s.iterations == 0
    &&& s.merges == 0
    &&& s.rule1 == 0
    &&& s.rule4 == 0
    &&& s.rule5 == 0
    &&& s.refused_aspect == 0
    &&& s.refused_height == 0
    &&& s.split == split::zero_stats()
    &&& s.grid == grid::zero_grid_stats()
    &&& s.containment == zero_containment()
    &&& grid::is_blank_hint(s.hint)
    &&& s.restored_originals@.len() == 0
    &&& confidence::is_perfect(s.confidence)
}

impl Default for RefineStats {
    fn default() -> (r: Self)
        ensures
            is_blank_stats(r, 0),
    {
        RefineStats {
            input: 0,
            removed_noise: 0,
            removed_specks: 0,
            median_h2: 0,
            median_area2: 0,
            gap: 0,
            iterations: 0,
            merges: 0,
            rule1: 0,
            rule4: 0,
            rule5: 0,
            refused_aspect: 0,
            refused_height: 0,
            split: SplitStats::default(),
            grid: GridStats::default(),
            containment: ContainmentStats::default(),
            hint: GridHint::default(),
            restored_originals: Vec::new(),
            confidence: ConfidenceReport::default(),
        }
    }
}

// ---- survivors ----------------------------------------------------------------------

/// Box heights.
pub open spec fn heights(gs: Seq<IconGroup>) -> Seq<u64> {
    Seq::new(gs.len(), |i: int| gs[i].bbox.h as u64)
}

/// Ink counts.
pub open spec fn areas(gs: Seq<IconGroup>) -> Seq<u64> {
    Seq::new(gs.len(), |i: int| gs[i].area as u64)
}

fn median_height2(gs: &Vec<IconGroup>) -> (r: u64)
    ensures
        median::is_median2(heights(gs@), r as int),
        r <= 0x1_ffff_fffe,
{
    let mut v: Vec<u64> = Vec::new();
    let mut i: usize = 0;
    while i < gs.len()
        invariant
            i <= gs@.len(),
            v@.len() == i,
            forall|k: int| 0 <= k < i ==> #[trigger] v@[k] == gs@[k].bbox.h,
            median::all_at_most(v@, 0xffff_ffff),
        decreases gs@.len() - i,
    {
        v.push(gs[i].bbox.h as u64);
        i = i + 1;
    }
    assert(v@ =~= heights(gs@));
    assert(median::all_at_most(v@, 0xffff_ffff));
    median::median2(&v)
}

fn median_area2(gs: &Vec<IconGroup>) -> (r: u64)
    ensures
        median::is_median2(areas(gs@), r as int),
        r <= 0x1_ffff_fffe,
{
    let mut v: Vec<u64> = Vec::new();
    let mut i: usize = 0;
    while i < gs.len()
        invariant
            i <= gs@.len(),
            v@.len() == i,
            forall|k: int| 0 <= k < i ==> #[trigger] v@[k] == gs@[k].area,
            median::all_at_most(v@, 0xffff_ffff),
        decreases gs@.len() - i,
    {
        v.push(gs[i].area as u64);
        i = i + 1;
    }
    assert(v@ =~= areas(gs@));
    assert(median::all_at_most(v@, 0xffff_ffff));
    median::median2(&v)
}

/// `sound` passes the size gates, and `kept` is `sound` without its specks, in
/// canonical order; specks are measured against the median height of `sound`.
pub open spec fn are_survivors(
    groups: Seq<IconGroup>,
    m: ForegroundMask,
    p: RefineParams,
    sound: Seq<IconGroup>,
    kept: Seq<IconGroup>,
) -> bool {
    &&& sound == (if p.noise_enabled {
        merge::sound_ones(groups, m.width as int, m.height as int, p, groups.len() as int)
    } else {
        groups
    })
    &&& exists|mh2: int| #[trigger]
        median::is_median2(heights(sound), mh2) && group::is_sorted_listing(
            merge::unspecked(sound, mh2, p, sound.len() as int),
            kept,
        )
}

/// Whatever survives was there before.
proof fn survivors_fit(groups: Seq<IconGroup>, m: ForegroundMask, p: RefineParams, mh2: int)
    requires
        fuse::all_fit(groups, m.width as int, m.height as int),
    ensures
        fuse::all_fit(
            merge::sound_ones(groups, m.width as int, m.height as int, p, groups.len() as int),
            m.width as int,
            m.height as int,
        ),
        fuse::all_fit(
            merge::unspecked(groups, mh2, p, groups.len() as int),
            m.width as int,
            m.height as int,
        ),
        merge::sound_ones(groups, m.width as int, m.height as int, p, groups.len() as int).len()
            <= groups.len(),
        merge::unspecked(groups, mh2, p, groups.len() as int).len() <= groups.len(),
{
    let w = m.width as int;
    let h = m.height as int;
    let n = groups.len() as int;
    merge::filters_only_drop(groups, w, h, p, mh2, n);
    let a = merge::sound_ones(groups, w, h, p, n);
    let b = merge::unspecked(groups, mh2, p, n);
    assert forall|i: int| 0 <= i < a.len() implies #[trigger] fuse::group_fits(a[i], w, h) by {
        assert(groups.contains(a[i]));
        let k = choose|k: int| 0 <= k < groups.len() && groups[k] == a[i];
        assert(fuse::group_fits(groups[k], w, h));
    }
    assert forall|i: int| 0 <= i < b.len() implies #[trigger] fuse::group_fits(b[i], w, h) by {
        assert(groups.contains(b[i]));
        let k = choose|k: int| 0 <= k < groups.len() && groups[k] == b[i];
        assert(fuse::group_fits(groups[k], w, h));
    }
}

/// Filters noise and specks. Also returns how many of each were dropped.
fn survivors(groups: &Vec<IconGroup>, mask: &ForegroundMask, p: &RefineParams) -> (r: (Vec<IconGroup>, u64, u64))
    requires
        fuse::all_fit(groups@, mask.width as int, mask.height as int),
        merge::area_sum(groups@, groups@.len() as int) <= u32::MAX,
    ensures
        exists|sound: Seq<IconGroup>| #[trigger]
            are_survivors(groups@, *mask, *p, sound, r.0@) && r.1 == groups@.len() - sound.len()
                && r.2 == sound.len() - r.0@.len(),
        fuse::all_fit(r.0@, mask.width as int, mask.height as int),
        r.0@.len() <= groups@.len(),
        merge::area_sum(r.0@, r.0@.len() as int) <= u32::MAX,
{
    let input: usize = groups.len();
    let sound = if p.noise_enabled {
        merge::noise_filter(groups, mask.width, mask.height, p)
    } else {
        let mut all: Vec<IconGroup> = Vec::new();
        fuse::extend_groups(&mut all, groups);
        assert(all@ =~= groups@);
        all
    };
    let mh2: u64 = median_height2(&sound);
    proof {
        survivors_fit(groups@, *mask, *p, mh2 as int);
        survivors_fit(sound@, *mask, *p, mh2 as int);
        merge::filters_only_drop(
            groups@,
            mask.width as int,
            mask.height as int,
            *p,
            mh2 as int,
            groups@.len() as int,
        );
        merge::filters_only_drop(
            sound@,
            mask.width as int,
            mask.height as int,
            *p,
            mh2 as int,
            sound@.len() as int,
        );
    }
    let clear = merge::speck_filter(&sound, mh2, p);
    let kept = group::sort_groups(&clear);
    proof {
        lattice::sorted_fit(clear@, kept@, mask.width as int, mask.height as int);
        let order = choose|order: Seq<usize>| #[trigger]
            sorting::is_order(group::keys_of(clear@), order, 0, clear@.len() as int) && kept@
                == group::picked(clear@, order);
        fuse::sorting_keeps_area(clear@, order);
        assert(median::is_median2(heights(sound@), mh2 as int));
        assert(are_survivors(groups@, *mask, *p, sound@, kept@));
    }
    let noise: u64 = (input - sound.len()) as u64;
    let specks: u64 = (sound.len() - kept.len()) as u64;
    let ghost sv = sound@;
    let r = (kept, noise, specks);
    proof {
        assert(are_survivors(groups@, *mask, *p, sv, r.0@));
        assert(r.1 == groups@.len() - sv.len());
        assert(r.2 == sv.len() - r.0@.len());
    }
    r
}

// ---- merge rounds ---------------------------------------------------------------------

/// Every group on its own.
pub open spec fn single_lots(gs: Seq<IconGroup>) -> Seq<Lot> {
    Seq::new(gs.len(), |i: int| (gs[i], seq![gs[i]]))
}

/// `rounds` are the states before, between and after the merge rounds: each
/// round but the last accepts a pair, and the rounds end when none is accepted
/// or the limit is reached.
pub open spec fn are_rounds(start: Seq<Lot>, c: MergeContext, limit: int, rounds: Seq<Seq<Lot>>) -> bool {
    &&& 1 <= rounds.len() <= limit + 1
    &&& rounds[0] == start
    &&& forall|t: int| 0 <= t < rounds.len() - 1 ==> #[trigger] is_step(rounds, c, t)
    &&& rounds.len() == limit + 1 || !fuse::any_accepted(
        fuse::groups_of(rounds[rounds.len() - 1]),
        c,
    )
}

/// Round `t` accepts a pair and leads to the next state.
pub open spec fn is_step(rounds: Seq<Seq<Lot>>, c: MergeContext, t: int) -> bool {
    &&& fuse::any_accepted(fuse::groups_of(rounds[t]), c)
    &&& fuse::is_round(rounds[t], c, rounds[t + 1])
}

/// How many rounds looked at pairs.
pub open spec fn looked(limit: int, rounds: Seq<Seq<Lot>>) -> int {
    if rounds.len() == limit + 1 {
        limit
    } else {
        rounds.len() as int
    }
}

/// Components merged away in each round.
pub open spec fn merges_in(rounds: Seq<Seq<Lot>>, c: MergeContext) -> spec_fn(int) -> int {
    |t: int|
        {
            let es = fuse::edges_of(fuse::groups_of(rounds[t]), c);
            counting::count_below(fuse::fresh(es), es.len() as int)
        }
}

/// Merges of one rule in each round.
pub open spec fn rule_in(rounds: Seq<Seq<Lot>>, c: MergeContext, rule: MergeRule) -> spec_fn(int) -> int {
    |t: int|
        {
            let es = fuse::edges_of(fuse::groups_of(rounds[t]), c);
            counting::count_below(fuse::fresh_by(es, rule), es.len() as int)
        }
}

/// Refusals of one kind in each round.
pub open spec fn refused_in(rounds: Seq<Seq<Lot>>, c: MergeContext, v: PairVerdict) -> spec_fn(int) -> int {
    |t: int| fuse::judged_count(fuse::groups_of(rounds[t]), c, v)
}

/// `t` counts what the first `n` rounds did.
pub open spec fn sums_to(rounds: Seq<Seq<Lot>>, c: MergeContext, n: int, t: MergeTally) -> bool {
    &&& t.merges == counting::sum_below(merges_in(rounds, c), n)
    &&& t.rule1 == counting::sum_below(rule_in(rounds, c, MergeRule::Rule1), n)
    &&& t.rule4 == counting::sum_below(rule_in(rounds, c, MergeRule::Rule4), n)
    &&& t.rule5 == counting::sum_below(rule_in(rounds, c, MergeRule::Rule5), n)
    &&& t.refused_aspect == counting::sum_below(refused_in(rounds, c, PairVerdict::TooLong), n)
    &&& t.refused_height == counting::sum_below(refused_in(rounds, c, PairVerdict::TooTall), n)
}

/// A longer trace sums to the same over its beginning.
proof fn sums_prefix(a: Seq<Seq<Lot>>, b: Seq<Seq<Lot>>, c: MergeContext, n: int, t: MergeTally)
    requires
        sums_to(a, c, n, t),
        n <= a.len(),
        n <= b.len(),
        forall|i: int| 0 <= i < n ==> #[trigger] a[i] == b[i],
    ensures
        sums_to(b, c, n, t),
{
    counting::sum_ext(merges_in(a, c), merges_in(b, c), n);
    counting::sum_ext(rule_in(a, c, MergeRule::Rule1), rule_in(b, c, MergeRule::Rule1), n);
    counting::sum_ext(rule_in(a, c, MergeRule::Rule4), rule_in(b, c, MergeRule::Rule4), n);
    counting::sum_ext(rule_in(a, c, MergeRule::Rule5), rule_in(b, c, MergeRule::Rule5), n);
    counting::sum_ext(
        refused_in(a, c, PairVerdict::TooLong),
        refused_in(b, c, PairVerdict::TooLong),
        n,
    );
    counting::sum_ext(
        refused_in(a, c, PairVerdict::TooTall),
        refused_in(b, c, PairVerdict::TooTall),
        n,
    );
}

/// Everything on the sheet has its far edges in range.
proof fn fit_boxes_ok(ls: Seq<Lot>, w: int, h: int)
    requires
        fuse::lots_fit(ls, w, h),
        w <= u32::MAX,
        h <= u32::MAX,
    ensures
        nearby::boxes_ok(fuse::groups_of(ls)),
{
    assert forall|i: int| 0 <= i < ls.len() implies merge::box_ok(
        (#[trigger] fuse::groups_of(ls)[i]).bbox,
    ) by {
        assert(fuse::lot_fits(ls[i], w, h));
    }
}

proof fn tally_grows(a: u64, b: u64, k: int, n: int)
    requires
        a <= k * (n * n),
        b <= n * n,
        0 <= k < 255,
        0 <= n <= 0x0fff_ffff,
    ensures
        a + b <= (k + 1) * (n * n),
        a + b <= u64::MAX,
{
    assert(k * (n * n) + n * n == (k + 1) * (n * n)) by (nonlinear_arith);
    assert((k + 1) * (n * n) <= 255 * (0x0fff_ffff * 0x0fff_ffff)) by (nonlinear_arith)
        requires
            0 <= k < 255,
            0 <= n <= 0x0fff_ffff,
    ;
}

proof fn square_monotone(m: int, n: int)
    requires
        0 <= m <= n,
    ensures
        m * m <= n * n,
{
    assert(m * m <= n * n) by (nonlinear_arith)
        requires
            0 <= m <= n,
    ;
}

/// The sum of two tallies.
fn add_tally(a: &MergeTally, b: &MergeTally) -> (r: MergeTally)
    requires
        a.merges + b.merges <= u64::MAX,
        a.rule1 + b.rule1 <= u64::MAX,
        a.rule4 + b.rule4 <= u64::MAX,
        a.rule5 + b.rule5 <= u64::MAX,
        a.refused_aspect + b.refused_aspect <= u64::MAX,
        a.refused_height + b.refused_height <= u64::MAX,
    ensures
        r.merges == a.merges + b.merges,
        r.rule1 == a.rule1 + b.rule1,
        r.rule4 == a.rule4 + b.rule4,
        r.rule5 == a.rule5 + b.rule5,
        r.refused_aspect == a.refused_aspect + b.refused_aspect,
        r.refused_height == a.refused_height + b.refused_height,
{
    MergeTally {
        merges: a.merges + b.merges,
        rule1: a.rule1 + b.rule1,
        rule4: a.rule4 + b.rule4,
        rule5: a.rule5 + b.rule5,
        refused_aspect: a.refused_aspect + b.refused_aspect,
        refused_height: a.refused_height + b.refused_height,
    }
}

/// Every group as a bundle of its own.
fn single_bundles(gs: &Vec<IconGroup>) -> (r: Vec<Bundle>)
    ensures
        fuse::lots_of(r@) == single_lots(gs@),
{
    let mut out: Vec<Bundle> = Vec::new();
    let mut i: usize = 0;
    while i < gs.len()
        invariant
            i <= gs@.len(),
            out@.len() == i,
            forall|k: int|
                0 <= k < i ==> (#[trigger] out@[k]).group == gs@[k] && out@[k].members@ == seq![gs@[k]],
        decreases gs@.len() - i,
    {
        let mut one: Vec<IconGroup> = Vec::new();
        one.push(gs[i]);
        assert(one@ =~= seq![gs@[i as int]]);
        out.push(Bundle { group: gs[i], members: one });
        i = i + 1;
    }
    assert(fuse::lots_of(out@) =~= single_lots(gs@));
    out
}

/// Runs merge rounds until no pair is accepted or the limit is reached.
fn merge_rounds(start: Vec<Bundle>, c: &MergeContext, limit: u8, mask: &ForegroundMask) -> (r: (Vec<Bundle>, u8, MergeTally))
    requires
        start@.len() <= split::MAX_GROUPS,
        fuse::lots_fit(fuse::lots_of(start@), mask.width as int, mask.height as int),
        merge::area_sum(fuse::groups_of(fuse::lots_of(start@)), start@.len() as int) <= u32::MAX,
        merge::context_ok(*c),
    ensures
        exists|rounds: Seq<Seq<Lot>>| #[trigger]
            are_rounds(fuse::lots_of(start@), *c, limit as int, rounds) && rounds[rounds.len() - 1]
                == fuse::lots_of(r.0@) && r.1 == rounds.len() - 1 && sums_to(
                rounds,
                *c,
                looked(limit as int, rounds),
                r.2,
            ),
        fuse::lots_fit(fuse::lots_of(r.0@), mask.width as int, mask.height as int),
        r.2.merges + r.0@.len() == start@.len(),
        start@.len() > 0 ==> r.0@.len() > 0,
{
    let ghost ls0 = fuse::lots_of(start@);
    let n0: usize = start.len();
    let ghost mut rounds: Seq<Seq<Lot>> = seq![ls0];
    let mut current = start;
    let mut tally = MergeTally {
        merges: 0,
        rule1: 0,
        rule4: 0,
        rule5: 0,
        refused_aspect: 0,
        refused_height: 0,
    };
    let mut k: u8 = 0;
    let mut going: bool = true;
    while k < limit && going
        invariant
            k <= limit,
            n0 <= split::MAX_GROUPS,
            merge::context_ok(*c),
            rounds.len() == k + 1,
            rounds[0] == ls0,
            forall|t: int| 0 <= t < k ==> #[trigger] is_step(rounds, *c, t),
            rounds[k as int] == fuse::lots_of(current@),
            going ==> sums_to(rounds, *c, k as int, tally),
            !going ==> k < limit && sums_to(rounds, *c, k as int + 1, tally)
                && !fuse::any_accepted(fuse::groups_of(rounds[k as int]), *c),
            fuse::lots_fit(fuse::lots_of(current@), mask.width as int, mask.height as int),
            merge::area_sum(fuse::groups_of(fuse::lots_of(current@)), current@.len() as int)
                <= u32::MAX,
            tally.merges + current@.len() == n0,
            n0 > 0 ==> current@.len() > 0,
            tally.rule1 <= tally.merges,
            tally.rule4 <= tally.merges,
            tally.rule5 <= tally.merges,
            going ==> tally.refused_aspect <= k * (n0 * n0),
            going ==> tally.refused_height <= k * (n0 * n0),
        decreases limit - k + (if going {
            1int
        } else {
            0int
        }),
    {
        proof {
            fit_boxes_ok(fuse::lots_of(current@), mask.width as int, mask.height as int);
            square_monotone(current@.len() as int, n0 as int);
        }
        let ghost t0 = tally;
        let (merged, one) = fuse::merge_pass(&current, c);
        proof {
            tally_grows(tally.refused_aspect, one.refused_aspect, k as int, n0 as int);
            tally_grows(tally.refused_height, one.refused_height, k as int, n0 as int);
            let es = fuse::edges_of(fuse::groups_of(fuse::lots_of(current@)), *c);
            counting::count_le(fuse::fresh_by(es, MergeRule::Rule1), fuse::fresh(es), es.len() as int);
            counting::count_le(fuse::fresh_by(es, MergeRule::Rule4), fuse::fresh(es), es.len() as int);
            counting::count_le(fuse::fresh_by(es, MergeRule::Rule5), fuse::fresh(es), es.len() as int);
        }
        tally = add_tally(&tally, &one);
        assert(sums_to(rounds, *c, k as int + 1, tally));
        match merged {
            Some(next) => {
                proof {
                    let r1 = rounds.push(fuse::lots_of(next@));
                    fuse::round_fits(
                        fuse::lots_of(current@),
                        *c,
                        fuse::lots_of(next@),
                        mask.width as int,
                        mask.height as int,
                    );
                    sums_prefix(rounds, r1, *c, k as int + 1, tally);
                    assert forall|t: int| 0 <= t < k + 1 implies #[trigger] is_step(r1, *c, t) by {
                        if t < k {
                            assert(is_step(rounds, *c, t));
                        }
                    }
                    some_class(fuse::lots_of(current@), *c, fuse::lots_of(next@));
                    rounds = r1;
                }
                current = next;
                k = k + 1;
            },
            None => {
                proof {
                    no_edges_no_merges(fuse::groups_of(fuse::lots_of(current@)), *c);
                }
                going = false;
            },
        }
    }
    assert(are_rounds(ls0, *c, limit as int, rounds));
    (current, k, tally)
}

/// A list that is not empty has a first class.
proof fn some_class(ls: Seq<Lot>, c: MergeContext, out: Seq<Lot>)
    requires
        fuse::is_round(ls, c, out),
    ensures
        ls.len() > 0 ==> out.len() > 0,
{
    let e = fuse::one_icon(fuse::groups_of(ls), c);
    if ls.len() > 0 {
        first_head(e, ls.len() as int);
    }
}

proof fn first_head(e: spec_fn(int, int) -> bool, n: int)
    requires
        n >= 1,
    ensures
        fuse::heads_upto(e, n).len() > 0,
    decreases n,
{
    if n > 1 {
        first_head(e, n - 1);
    } else {
        assert(fuse::is_head(e, 0));
    }
}

proof fn no_edges_no_merges(gs: Seq<IconGroup>, c: MergeContext)
    requires
        !fuse::any_accepted(gs, c),
    ensures
        counting::count_below(
            fuse::fresh(fuse::edges_of(gs, c)),
            fuse::edges_of(gs, c).len() as int,
        ) == 0,
{
}

// ---- split --------------------------------------------------------------------------

/// What stands for a lot after the split: its regions, each on its own, or the
/// lot as it was.
pub open spec fn lots_for(l: Lot, o: Option<SplitOutcome>) -> Seq<Lot> {
    match o {
        Some(v) => if v.regions@.len() > 0 {
            single_lots(v.regions@)
        } else {
            seq![l]
        },
        None => seq![l],
    }
}

/// What stands for the first `n` lots after the split.
pub open spec fn split_lots(ls: Seq<Lot>, outs: Seq<Option<SplitOutcome>>, n: int) -> Seq<Lot>
    decreases n,
{
    if n <= 0 {
        Seq::empty()
    } else {
        split_lots(ls, outs, n - 1) + lots_for(ls[n - 1], outs[n - 1])
    }
}

/// `parts` and `s` are what the split stage makes of `ls`.
pub open spec fn is_split_stage(
    m: ForegroundMask,
    ls: Seq<Lot>,
    p: RefineParams,
    mh2: int,
    parts: Seq<Lot>,
    s: SplitStats,
) -> bool {
    if p.split.enabled && ls.len() > 0 && mh2 > 0 {
        exists|outs: Seq<Option<SplitOutcome>>| #[trigger]
            split::are_outcomes(m, fuse::groups_of(ls), p.split, mh2, false, outs)
                && fuse::is_sorted_lots(split_lots(ls, outs, ls.len() as int), parts) && s
                == split::bumped(split::zero_stats(), outs, ls.len() as int)
    } else {
        parts == ls && s == split::zero_stats()
    }
}

/// What stands for lots on the sheet lies on the sheet.
proof fn split_lots_fit(
    m: ForegroundMask,
    ls: Seq<Lot>,
    p: split::SplitParams,
    mh2: int,
    outs: Seq<Option<SplitOutcome>>,
    n: int,
)
    requires
        m.wf(),
        fuse::lots_fit(ls, m.width as int, m.height as int),
        split::are_outcomes(m, fuse::groups_of(ls), p, mh2, false, outs),
        0 <= n <= ls.len(),
    ensures
        fuse::lots_fit(split_lots(ls, outs, n), m.width as int, m.height as int),
        n > 0 ==> split_lots(ls, outs, n).len() > 0,
    decreases n,
{
    if n > 0 {
        let w = m.width as int;
        let h = m.height as int;
        split_lots_fit(m, ls, p, mh2, outs, n - 1);
        assert(fuse::lot_fits(ls[n - 1], w, h));
        let a = split_lots(ls, outs, n - 1);
        let b = lots_for(ls[n - 1], outs[n - 1]);
        assert(b.len() > 0);
        assert forall|i: int| 0 <= i < b.len() implies #[trigger] fuse::lot_fits(b[i], w, h) by {
            match outs[n - 1] {
                Some(o) => {
                    if o.regions@.len() > 0 {
                        assert(fuse::groups_of(ls)[n - 1] == ls[n - 1].0);
                        split::outcome_fits(m, ls[n - 1].0, p, mh2, o, i);
                    }
                },
                None => {},
            }
        }
        let all = a + b;
        assert forall|i: int| 0 <= i < all.len() implies #[trigger] fuse::lot_fits(all[i], w, h) by {
            if i < a.len() {
                assert(fuse::lot_fits(a[i], w, h));
            } else {
                assert(fuse::lot_fits(b[i - a.len()], w, h));
            }
        }
    }
}

/// Splits the bundles that are too large; the components of everyone else stay
/// with them.
fn split_bundles(bs: &Vec<Bundle>, mask: &ForegroundMask, mh2: u64, p: &RefineParams) -> (r: (Vec<Bundle>, SplitStats))
    requires
        mask.wf(),
        split::has_frame_room(*mask),
        fuse::lots_fit(fuse::lots_of(bs@), mask.width as int, mask.height as int),
        0 < bs@.len() <= split::MAX_GROUPS,
        split::split_params_ok(p.split),
        p.split.enabled,
        0 < mh2 <= 0x1_ffff_fffe,
    ensures
        is_split_stage(*mask, fuse::lots_of(bs@), *p, mh2 as int, fuse::lots_of(r.0@), r.1),
        fuse::lots_fit(fuse::lots_of(r.0@), mask.width as int, mask.height as int),
        r.0@.len() > 0,
        split::stats_within(split::zero_stats(), r.1, split::MAX_GROUPS as int),
{
    let n: usize = bs.len();
    let ghost ls = fuse::lots_of(bs@);
    let gs = fuse::bundle_groups(bs);
    proof {
        assert(containment::groups_fit(*mask, gs@)) by {
            assert forall|i: int| 0 <= i < gs@.len() implies (#[trigger] gs@[i]).bbox.fits(
                mask.width as int,
                mask.height as int,
            ) && gs@[i].bbox.covers(gs@[i].origin.0 as int, gs@[i].origin.1 as int) by {
                assert(fuse::lot_fits(ls[i], mask.width as int, mask.height as int));
            }
        }
    }
    let mut stats = SplitStats::default();
    let pieces = split::split_pieces(&gs, mask, mh2, &p.split, false, &mut stats);
    let ghost outs = choose|outs: Seq<Option<SplitOutcome>>| #[trigger]
        split::are_outcomes(*mask, gs@, p.split, mh2 as int, false, outs) && split::are_pieces(
            gs@,
            outs,
            pieces@,
        ) && stats == split::bumped(split::zero_stats(), outs, gs@.len() as int);
    let mut all: Vec<Bundle> = Vec::new();
    let mut i: usize = 0;
    while i < n
        invariant
            i <= n,
            n == bs@.len(),
            mask.wf(),
            ls == fuse::lots_of(bs@),
            gs@ == fuse::groups_of(ls),
            pieces@.len() == n,
            fuse::lots_fit(ls, mask.width as int, mask.height as int),
            split::are_outcomes(*mask, gs@, p.split, mh2 as int, false, outs),
            split::are_pieces(gs@, outs, pieces@),
            fuse::lots_of(all@) == split_lots(ls, outs, i as int),
        decreases n - i,
    {
        let ghost all0 = all@;
        let piece = &pieces[i];
        proof {
            assert(fuse::lot_fits(ls[i as int], mask.width as int, mask.height as int));
            assert(gs@[i as int] == ls[i as int].0);
            assert(piece@ == split::pieces_for(gs@[i as int], outs[i as int]));
            match outs[i as int] {
                Some(o) => {
                    if o.regions@.len() > 0 {
                        split::outcome_fits(*mask, gs@[i as int], p.split, mh2 as int, o, 0);
                    }
                },
                None => {},
            }
        }
        if piece.len() >= 2 {
            let more = single_bundles(piece);
            append_bundles(&mut all, more);
            assert(fuse::lots_of(all@) =~= fuse::lots_of(all0) + single_lots(piece@));
        } else {
            let mut members: Vec<IconGroup> = Vec::new();
            fuse::extend_groups(&mut members, &bs[i].members);
            all.push(Bundle { group: bs[i].group, members });
            assert(members@ =~= bs@[i as int].members@);
            assert(fuse::lots_of(all@) =~= fuse::lots_of(all0) + seq![ls[i as int]]);
        }
        i = i + 1;
    }
    let out = fuse::sort_bundles(&all);
    proof {
        split_lots_fit(*mask, ls, p.split, mh2 as int, outs, n as int);
        sorted_lots_fit(fuse::lots_of(all@), fuse::lots_of(out@), mask.width as int, mask.height as int);
        within_more(stats, n as int, split::MAX_GROUPS as int);
    }
    (out, stats)
}

proof fn within_more(s: SplitStats, m: int, n: int)
    requires
        split::stats_within(split::zero_stats(), s, m),
        0 <= m <= n,
    ensures
        split::stats_within(split::zero_stats(), s, n),
{
    let k = mask::MAX_PIXELS as int;
    assert(m * k <= n * k && m * (8 * k) <= n * (8 * k)) by (nonlinear_arith)
        requires
            0 <= m <= n,
            0 <= k,
    ;
}

fn append_bundles(out: &mut Vec<Bundle>, mut more: Vec<Bundle>)
    ensures
        final(out)@ == old(out)@ + more@,
{
    out.append(&mut more);
}

proof fn sorted_lots_fit(ls: Seq<Lot>, out: Seq<Lot>, w: int, h: int)
    requires
        fuse::lots_fit(ls, w, h),
        fuse::is_sorted_lots(ls, out),
    ensures
        fuse::lots_fit(out, w, h),
{
    let order = choose|order: Seq<usize>| #[trigger]
        sorting::is_order(group::keys_of(fuse::groups_of(ls)), order, 0, ls.len() as int) && out
            == fuse::picked_lots(ls, order);
    assert forall|i: int| 0 <= i < out.len() implies #[trigger] fuse::lot_fits(out[i], w, h) by {
        assert(fuse::lot_fits(ls[order[i] as int], w, h));
    }
}

// ---- the chain ----------------------------------------------------------------------

/// The states that the chain passes through.
pub struct RefineTrace {
    /// What passes the size gates.
    pub sound: Seq<IconGroup>,
    /// What is left after the specks, in canonical order.
    pub kept: Seq<IconGroup>,
    /// What pairs are judged against.
    pub context: MergeContext,
    /// The states of the merge rounds.
    pub rounds: Seq<Seq<Lot>>,
    /// What the split makes of the last one.
    pub parts: Seq<Lot>,
    /// The counters of the split.
    pub split: SplitStats,
    /// What the lattice makes of the parts.
    pub lattice: LatticeOutcome,
    /// The containment forest.
    pub forest: Seq<Containment>,
}

/// The medians and the merge distance of the survivors.
pub open spec fn is_context(p: RefineParams, kept: Seq<IconGroup>, c: MergeContext) -> bool {
    &&& c.params == p
    &&& median::is_median2(heights(kept), c.mh2 as int)
    &&& median::is_median2(areas(kept), c.ma2 as int)
    &&& c.gap == merge::merge_gap_of(p, c.mh2 as int)
}

/// How many merge rounds may run.
pub open spec fn round_limit(p: RefineParams, kept: Seq<IconGroup>, mh2: int) -> int {
    if p.merge_enabled && kept.len() > 0 && mh2 > 0 {
        p.max_iterations as int
    } else {
        0
    }
}

/// The merge counters of the stats.
pub open spec fn merge_counts(s: RefineStats) -> MergeTally {
    MergeTally {
        merges: s.merges,
        rule1: s.rule1,
        rule4: s.rule4,
        rule5: s.rule5,
        refused_aspect: s.refused_aspect,
        refused_height: s.refused_height,
    }
}

/// The lattice is measured when the grid stage or the score needs it.
pub open spec fn is_hint_stage(m: ForegroundMask, p: RefineParams, parts: Seq<Lot>, mh2: int, h: GridHint) -> bool {
    if (p.grid.enabled || p.confidence.enabled) && parts.len() > 0 && mh2 > 0 {
        grid::is_hint(m, p.grid, h)
    } else {
        grid::is_blank_hint(h)
    }
}

/// What the grid stage makes of the parts.
pub open spec fn is_lattice_stage(m: ForegroundMask, p: RefineParams, parts: Seq<Lot>, mh2: int, h: GridHint, o: LatticeOutcome) -> bool {
    if p.grid.enabled && (h.grid_x || h.grid_y) {
        lattice::is_lattice_outcome(
            m,
            LatticeInput { lots: parts, hint: h, params: p.grid, mh2 },
            p.split,
            o,
        )
    } else {
        &&& o.groups@ == fuse::groups_of(parts)
        &&& o.restored@.len() == 0
        &&& o.flagged == 0
        &&& o.undone == 0
        &&& o.candidates == 0
        &&& o.resplit == 0
        &&& o.regions == 0
        &&& o.split == split::zero_stats()
    }
}

/// The sum of two sets of split counters.
pub open spec fn split_sum(a: SplitStats, b: SplitStats) -> SplitStats {
    SplitStats {
        candidates: (a.candidates + b.candidates) as u64,
        split: (a.split + b.split) as u64,
        regions: (a.regions + b.regions) as u64,
        slivers: (a.slivers + b.slivers) as u64,
        fallback_profile: (a.fallback_profile + b.fallback_profile) as u64,
        fallback_reseed: (a.fallback_reseed + b.fallback_reseed) as u64,
        skipped_fat: (a.skipped_fat + b.skipped_fat) as u64,
        skipped_no_structure: (a.skipped_no_structure + b.skipped_no_structure) as u64,
    }
}

/// The grid counters.
pub open spec fn grid_counts(h: GridHint, o: LatticeOutcome) -> GridStats {
    GridStats {
        valleys_x: h.valley_x@.len() as u32,
        valleys_y: h.valley_y@.len() as u32,
        flagged: o.flagged,
        resplit_candidates: o.candidates,
        restored: o.undone,
        resplit: o.resplit,
        regions: o.regions,
    }
}

/// The containment counters of the result.
pub open spec fn is_containment_stage(m: ForegroundMask, p: RefineParams, out: Seq<IconGroup>, nodes: Seq<Containment>, s: ContainmentStats) -> bool {
    let n = out.len() as int;
    if p.containment.enabled && 0 < n <= u32::MAX {
        &&& containment::is_forest(m, out, p.containment.max_depth, nodes)
        &&& s.pairs_tested == counting::count_below(containment::tested(out), n)
        &&& s.contained == counting::count_below(containment::nested(nodes), n)
        &&& s.rejected_open == s.pairs_tested - s.contained
        &&& s.holes == counting::sum_below(containment::node_holes(nodes), n)
        &&& containment::is_max_depth(nodes, n, 0, s.max_depth)
    } else {
        s == zero_containment()
    }
}

/// The confidence report of the result, with the merges that were not undone.
pub open spec fn is_confidence_stage(
    m: ForegroundMask,
    bg: Option<BackgroundModel>,
    p: RefineParams,
    out: Seq<IconGroup>,
    s: RefineStats,
) -> bool {
    if p.confidence.enabled && 0 < out.len() <= u32::MAX {
        exists|i: ScoreInput| #[trigger]
            confidence::is_report(i, p.confidence, s.confidence) && i.groups@ == out && *i.mask == m
                && i.merges == (if s.merges >= s.grid.restored {
                s.merges - s.grid.restored
            } else {
                0
            }) && i.restored@ == s.restored_originals@ && *i.hint == s.hint && (match i.background {
                Some(b) => bg == Some(*b),
                None => bg is None,
            })
    } else {
        confidence::is_perfect(s.confidence)
    }
}

/// `out` and `s` are what the chain makes of `groups`, by way of `t`.
pub open spec fn follows(
    groups: Seq<IconGroup>,
    m: ForegroundMask,
    bg: Option<BackgroundModel>,
    p: RefineParams,
    t: RefineTrace,
    out: Seq<IconGroup>,
    s: RefineStats,
) -> bool {
    let c = t.context;
    let limit = round_limit(p, t.kept, c.mh2 as int);
    &&& are_survivors(groups, m, p, t.sound, t.kept)
    &&& s.input == groups.len()
    &&& s.removed_noise == groups.len() - t.sound.len()
    &&& s.removed_specks == t.sound.len() - t.kept.len()
    &&& is_context(p, t.kept, c)
    &&& s.median_h2 == c.mh2
    &&& s.median_area2 == c.ma2
    &&& s.gap == c.gap
    &&& are_rounds(single_lots(t.kept), c, limit, t.rounds)
    &&& s.iterations == t.rounds.len() - 1
    &&& sums_to(t.rounds, c, looked(limit, t.rounds), merge_counts(s))
    &&& is_split_stage(m, t.rounds[t.rounds.len() - 1], p, c.mh2 as int, t.parts, t.split)
    &&& is_hint_stage(m, p, t.parts, c.mh2 as int, s.hint)
    &&& is_lattice_stage(m, p, t.parts, c.mh2 as int, s.hint, t.lattice)
    &&& s.split == split_sum(t.split, t.lattice.split)
    &&& s.grid == grid_counts(s.hint, t.lattice)
    &&& s.restored_originals@ == t.lattice.restored@
    &&& group::is_sorted_listing(t.lattice.groups@, out)
    &&& is_containment_stage(m, p, out, t.forest, s.containment)
    &&& is_confidence_stage(m, bg, p, out, s)
}

/// `out` and `s` are what the chain makes of `groups`; switched off, it leaves
/// them as they are.
pub open spec fn is_refined(
    groups: Seq<IconGroup>,
    m: ForegroundMask,
    bg: Option<BackgroundModel>,
    p: RefineParams,
    out: Seq<IconGroup>,
    s: RefineStats,
) -> bool {
    if !p.enabled {
        out == groups && is_blank_stats(s, groups.len() as int)
    } else {
        exists|t: RefineTrace| #[trigger] follows(groups, m, bg, p, t, out, s)
    }
}

/// The tunables are consistent.
pub open spec fn refine_params_ok(p: RefineParams) -> bool {
    &&& p.gap_min <= p.gap_max
    &&& split::split_params_ok(p.split)
    &&& p.grid.max_resplit <= split::MAX_GROUPS
}

/// The groups come from the mask: on the sheet, and no more ink than fits.
pub open spec fn refine_input_ok(groups: Seq<IconGroup>, m: ForegroundMask) -> bool {
    &&& m.wf()
    &&& split::has_frame_room(m)
    &&& groups.len() <= split::MAX_GROUPS
    &&& fuse::all_fit(groups, m.width as int, m.height as int)
    &&& merge::area_sum(groups, groups.len() as int) <= u32::MAX
}

/// The result lies on the sheet, and its numbers are in range.
pub open spec fn refine_output_ok(out: Seq<IconGroup>, s: RefineStats, m: ForegroundMask) -> bool {
    &&& fuse::all_fit(out, m.width as int, m.height as int)
    &&& s.median_h2 <= 0x1_ffff_fffe
    &&& s.merges <= split::MAX_GROUPS
    &&& s.hint.valley_x@.len() <= u32::MAX
    &&& s.hint.valley_y@.len() <= u32::MAX
}

fn add_split(a: &SplitStats, b: &SplitStats) -> (r: SplitStats)
    requires
        split::stats_within(split::zero_stats(), *a, split::MAX_GROUPS as int),
        split::stats_within(split::zero_stats(), *b, split::MAX_GROUPS as int),
    ensures
        r == split_sum(*a, *b),
{
    assert(split::MAX_GROUPS * mask::MAX_PIXELS <= 0x0800_0000_0000_0000);
    SplitStats {
        candidates: a.candidates + b.candidates,
        split: a.split + b.split,
        regions: a.regions + b.regions,
        slivers: a.slivers + b.slivers,
        fallback_profile: a.fallback_profile + b.fallback_profile,
        fallback_reseed: a.fallback_reseed + b.fallback_reseed,
        skipped_fat: a.skipped_fat + b.skipped_fat,
        skipped_no_structure: a.skipped_no_structure + b.skipped_no_structure,
    }
}

/// A sheet with something on it has sides that can be counted past.
proof fn sides_are_short(m: ForegroundMask, parts: Seq<Lot>)
    requires
        m.wf(),
        parts.len() > 0,
        fuse::lots_fit(parts, m.width as int, m.height as int),
    ensures
        m.width < u32::MAX,
        m.height < u32::MAX,
{
    assert(fuse::lot_fits(parts[0], m.width as int, m.height as int));
    assert(m.width <= m.width * m.height && m.height <= m.width * m.height) by (nonlinear_arith)
        requires
            m.width > 0,
            m.height > 0,
    ;
}

proof fn singles_fit(gs: Seq<IconGroup>, w: int, h: int)
    requires
        fuse::all_fit(gs, w, h),
    ensures
        fuse::lots_fit(single_lots(gs), w, h),
        fuse::groups_of(single_lots(gs)) == gs,
{
    assert(fuse::groups_of(single_lots(gs)) =~= gs);
    assert forall|i: int| 0 <= i < gs.len() implies #[trigger] fuse::lot_fits(
        single_lots(gs)[i],
        w,
        h,
    ) by {
        assert(fuse::group_fits(gs[i], w, h));
    }
}

/// Measures the lattice when anyone needs it.
fn hint_stage(mask: &ForegroundMask, p: &RefineParams, parts: &Vec<Bundle>, mh2: u64) -> (h: GridHint)
    requires
        mask.wf(),
        fuse::lots_fit(fuse::lots_of(parts@), mask.width as int, mask.height as int),
    ensures
        is_hint_stage(*mask, *p, fuse::lots_of(parts@), mh2 as int, h),
        h.valley_x@.len() <= u32::MAX,
        h.valley_y@.len() <= u32::MAX,
{
    if (p.grid.enabled || p.confidence.enabled) && parts.len() > 0 && mh2 > 0 {
        proof {
            sides_are_short(*mask, fuse::lots_of(parts@));
        }
        let mut unused = GridStats::default();
        grid::measure_grid(mask, &p.grid, &mut unused)
    } else {
        GridHint::default()
    }
}

/// Takes apart what straddles a valley, when the grid stage is on.
fn lattice_stage(mask: &ForegroundMask, p: &RefineParams, parts: &Vec<Bundle>, mh2: u64, hint: &GridHint) -> (o: LatticeOutcome)
    requires
        mask.wf(),
        split::has_frame_room(*mask),
        refine_params_ok(*p),
        fuse::lots_fit(fuse::lots_of(parts@), mask.width as int, mask.height as int),
        mh2 <= 0x1_ffff_fffe,
        hint.valley_x@.len() <= u32::MAX,
        hint.valley_y@.len() <= u32::MAX,
    ensures
        is_lattice_stage(*mask, *p, fuse::lots_of(parts@), mh2 as int, *hint, o),
        fuse::all_fit(o.groups@, mask.width as int, mask.height as int),
        split::stats_within(split::zero_stats(), o.split, split::MAX_GROUPS as int),
{
    if p.grid.enabled && hint.any() {
        let o = lattice::apply_lattice(parts, mask, mh2, hint, &p.grid, &p.split);
        proof {
            lattice::outcome_lies_on_sheet(
                *mask,
                LatticeInput {
                    lots: fuse::lots_of(parts@),
                    hint: *hint,
                    params: p.grid,
                    mh2: mh2 as int,
                },
                p.split,
                o,
            );
        }
        o
    } else {
        let groups = fuse::bundle_groups(parts);
        proof {
            assert forall|i: int| 0 <= i < groups@.len() implies #[trigger] fuse::group_fits(
                groups@[i],
                mask.width as int,
                mask.height as int,
            ) by {
                assert(fuse::lot_fits(
                    fuse::lots_of(parts@)[i],
                    mask.width as int,
                    mask.height as int,
                ));
            }
        }
        LatticeOutcome {
            groups,
            restored: Vec::new(),
            flagged: 0,
            undone: 0,
            candidates: 0,
            resplit: 0,
            regions: 0,
            split: SplitStats::default(),
        }
    }
}

/// Measures the containment of the result.
fn containment_stage(mask: &ForegroundMask, p: &RefineParams, out: &Vec<IconGroup>) -> (r: (ContainmentStats, Ghost<Seq<Containment>>))
    requires
        mask.wf(),
        fuse::all_fit(out@, mask.width as int, mask.height as int),
    ensures
        is_containment_stage(*mask, *p, out@, r.1@, r.0),
{
    let mut stats = ContainmentStats::default();
    if p.containment.enabled && out.len() > 0 && out.len() as u64 <= 0xffff_ffff {
        proof {
            assert(containment::groups_fit(*mask, out@)) by {
                assert forall|i: int| 0 <= i < out@.len() implies (#[trigger] out@[i]).bbox.fits(
                    mask.width as int,
                    mask.height as int,
                ) && out@[i].bbox.covers(out@[i].origin.0 as int, out@[i].origin.1 as int) by {
                    assert(fuse::group_fits(out@[i], mask.width as int, mask.height as int));
                }
            }
            let n = out@.len() as int;
            assert(n * mask::MAX_PIXELS <= 0xffff_ffff * mask::MAX_PIXELS) by (nonlinear_arith)
                requires
                    0 <= n <= 0xffff_ffff,
            ;
        }
        let forest = containment::build_containment(out, mask, &p.containment, &mut stats);
        return (stats, Ghost(forest.nodes@));
    }
    (stats, Ghost(Seq::empty()))
}

/// The whole chain, with the background model for the confidence score.
pub fn refine_groups_with_context(
    groups: Vec<IconGroup>,
    mask: &ForegroundMask,
    background: Option<&BackgroundModel>,
    params: &RefineParams,
) -> (r: (Vec<IconGroup>, RefineStats))
    requires
        params.enabled ==> refine_input_ok(groups@, *mask) && refine_params_ok(*params),
        match background {
            Some(b) => background::model_ok(*b),
            None => true,
        },
    ensures
        is_refined(
            groups@,
            *mask,
            match background {
                Some(b) => Some(*b),
                None => None,
            },
            *params,
            r.0@,
            r.1,
        ),
        fuse::all_fit(groups@, mask.width as int, mask.height as int) ==> refine_output_ok(
            r.0@,
            r.1,
            *mask,
        ),
{
    let mut stats = RefineStats::default();
    stats.input = groups.len() as u64;
    if !params.enabled {
        return (groups, stats);
    }
    let (kept, removed_noise, removed_specks) = survivors(&groups, mask, params);
    let ghost sound = choose|sound: Seq<IconGroup>| #[trigger]
        are_survivors(groups@, *mask, *params, sound, kept@) && removed_noise == groups@.len()
            - sound.len() && removed_specks == sound.len() - kept@.len();
    let mh2: u64 = median_height2(&kept);
    let ma2: u64 = median_area2(&kept);
    let gap: u64 = merge::merge_gap(params, mh2);
    let context = MergeContext { params: *params, mh2, ma2, gap };
    let start = single_bundles(&kept);
    proof {
        singles_fit(kept@, mask.width as int, mask.height as int);
    }
    let limit: u8 = if params.merge_enabled && kept.len() > 0 && mh2 > 0 {
        params.max_iterations
    } else {
        0
    };
    let (merged, iterations, tally) = merge_rounds(start, &context, limit, mask);
    let ghost rounds = choose|rounds: Seq<Seq<Lot>>| #[trigger]
        are_rounds(single_lots(kept@), context, limit as int, rounds) && rounds[rounds.len() - 1]
            == fuse::lots_of(merged@) && iterations == rounds.len() - 1 && sums_to(
            rounds,
            context,
            looked(limit as int, rounds),
            tally,
        );
    let ghost merged_lots = fuse::lots_of(merged@);
    let (parts, split1): (Vec<Bundle>, SplitStats) = if params.split.enabled && merged.len() > 0
        && mh2 > 0 {
        split_bundles(&merged, mask, mh2, params)
    } else {
        (merged, SplitStats::default())
    };
    proof {
        within_more(split::zero_stats(), 0, split::MAX_GROUPS as int);
        assert(is_split_stage(
            *mask,
            merged_lots,
            *params,
            mh2 as int,
            fuse::lots_of(parts@),
            split1,
        ));
    }
    let hint = hint_stage(mask, params, &parts, mh2);
    let outcome = lattice_stage(mask, params, &parts, mh2, &hint);
    let ghost outcome_value = outcome;
    let out = group::sort_groups(&outcome.groups);
    proof {
        lattice::sorted_fit(outcome.groups@, out@, mask.width as int, mask.height as int);
    }
    let (contained, Ghost(forest)) = containment_stage(mask, params, &out);
    let surviving: u64 = if tally.merges >= outcome.undone {
        tally.merges - outcome.undone
    } else {
        0
    };
    let report = if params.confidence.enabled && out.len() > 0 && out.len() as u64 <= 0xffff_ffff {
        confidence::score_groups(
            ScoreInput {
                groups: &out,
                mask,
                merges: surviving as u32,
                restored: &outcome.restored,
                hint: &hint,
                background,
            },
            &params.confidence,
        )
    } else {
        ConfidenceReport::default()
    };
    let ghost input = ScoreInput {
        groups: &out,
        mask,
        merges: surviving as u32,
        restored: &outcome.restored,
        hint: &hint,
        background,
    };
    stats.removed_noise = removed_noise;
    stats.removed_specks = removed_specks;
    stats.median_h2 = mh2;
    stats.median_area2 = ma2;
    stats.gap = gap;
    stats.iterations = iterations;
    stats.merges = tally.merges;
    stats.rule1 = tally.rule1;
    stats.rule4 = tally.rule4;
    stats.rule5 = tally.rule5;
    stats.refused_aspect = tally.refused_aspect;
    stats.refused_height = tally.refused_height;
    stats.split = add_split(&split1, &outcome.split);
    stats.grid = GridStats {
        valleys_x: hint.valley_x.len() as u32,
        valleys_y: hint.valley_y.len() as u32,
        flagged: outcome.flagged,
        resplit_candidates: outcome.candidates,
        restored: outcome.undone,
        resplit: outcome.resplit,
        regions: outcome.regions,
    };
    stats.containment = contained;
    stats.hint = hint;
    stats.restored_originals = outcome.restored;
    stats.confidence = report;
    proof {
        let bg = match background {
            Some(b) => Some(*b),
            None => None,
        };
        let t = RefineTrace {
            sound,
            kept: kept@,
            context,
            rounds,
            parts: fuse::lots_of(parts@),
            split: split1,
            lattice: outcome_value,
            forest,
        };
        assert(merge_counts(stats) == tally);
        assert(is_confidence_stage(*mask, bg, *params, out@, stats)) by {
            if params.confidence.enabled && 0 < out@.len() <= u32::MAX {
                assert(confidence::is_report(input, params.confidence, stats.confidence));
            }
        }
        assert(follows(groups@, *mask, bg, *params, t, out@, stats));
    }
    (out, stats)
}

/// The chain without a background model: the background signal stays silent.
pub fn refine_groups_with_stats(groups: Vec<IconGroup>, mask: &ForegroundMask, params: &RefineParams) -> (r: (Vec<IconGroup>, RefineStats))
    requires
        params.enabled ==> refine_input_ok(groups@, *mask) && refine_params_ok(*params),
    ensures
        is_refined(groups@, *mask, None, *params, r.0@, r.1),
{
    refine_groups_with_context(groups, mask, None, params)
}

/// The refined groups alone.
pub fn refine_groups(groups: Vec<IconGroup>, mask: &ForegroundMask, params: &RefineParams) -> (r: Vec<IconGroup>)
    requires
        params.enabled ==> refine_input_ok(groups@, *mask) && refine_params_ok(*params),
    ensures
        exists|s: RefineStats| #[trigger] is_refined(groups@, *mask, None, *params, r@, s),
{
    let (out, stats) = refine_groups_with_stats(groups, mask, params);
    out
}

// ---- one outcome --------------------------------------------------------------------

/// Two sets of stats are the same.
pub open spec fn same_stats(a: RefineStats, b: RefineStats) -> bool {
    &&& a.input == b.input
    &&& a.removed_noise == b.removed_noise
    &&& a.removed_specks == b.removed_specks
    &&& a.median_h2 == b.median_h2
    &&& a.median_area2 == b.median_area2
    &&& a.gap == b.gap
    &&& a.iterations == b.iterations
    &&& merge_counts(a) == merge_counts(b)
    &&& a.split == b.split
    &&& a.grid == b.grid
    &&& a.containment == b.containment
    &&& grid::same_hint(a.hint, b.hint)
    &&& a.restored_originals@ == b.restored_originals@
    &&& confidence::same_report(a.confidence, b.confidence)
}

proof fn survivors_one(
    groups: Seq<IconGroup>,
    m: ForegroundMask,
    p: RefineParams,
    sound: Seq<IconGroup>,
    a: Seq<IconGroup>,
    b: Seq<IconGroup>,
)
    requires
        fuse::all_fit(groups, m.width as int, m.height as int),
        are_survivors(groups, m, p, sound, a),
        are_survivors(groups, m, p, sound, b),
    ensures
        a == b,
        fuse::all_fit(a, m.width as int, m.height as int),
{
    let w = m.width as int;
    let h = m.height as int;
    let x = choose|mh2: int| #[trigger]
        median::is_median2(heights(sound), mh2) && group::is_sorted_listing(
            merge::unspecked(sound, mh2, p, sound.len() as int),
            a,
        );
    let y = choose|mh2: int| #[trigger]
        median::is_median2(heights(sound), mh2) && group::is_sorted_listing(
            merge::unspecked(sound, mh2, p, sound.len() as int),
            b,
        );
    median::median_is_unique(heights(sound), x, y);
    let left = merge::unspecked(sound, x, p, sound.len() as int);
    group::listing_is_unique(left, a, b);
    survivors_fit(groups, m, p, x);
    survivors_fit(sound, m, p, x);
    lattice::sorted_fit(left, a, w, h);
}

proof fn rounds_prefix(
    start: Seq<Lot>,
    c: MergeContext,
    limit: int,
    a: Seq<Seq<Lot>>,
    b: Seq<Seq<Lot>>,
    n: int,
)
    requires
        are_rounds(start, c, limit, a),
        are_rounds(start, c, limit, b),
        1 <= n <= a.len(),
    ensures
        n <= b.len(),
        forall|i: int| 0 <= i < n ==> #[trigger] a[i] == b[i],
    decreases n,
{
    if n > 1 {
        let k = n - 1;
        rounds_prefix(start, c, limit, a, b, k);
        assert(is_step(a, c, k - 1));
        assert(a[k - 1] == b[k - 1]);
        assert(k < b.len());
        assert(is_step(b, c, k - 1));
        let base = fuse::class_lots(a[k - 1], fuse::one_icon(fuse::groups_of(a[k - 1]), c));
        fuse::sorted_lots_are_unique(base, a[k], b[k]);
    }
}

proof fn rounds_fit(start: Seq<Lot>, c: MergeContext, limit: int, a: Seq<Seq<Lot>>, n: int, w: int, h: int)
    requires
        are_rounds(start, c, limit, a),
        fuse::lots_fit(start, w, h),
        w <= u32::MAX,
        h <= u32::MAX,
        0 <= n < a.len(),
    ensures
        fuse::lots_fit(a[n], w, h),
    decreases n,
{
    if n > 0 {
        rounds_fit(start, c, limit, a, n - 1, w, h);
        assert(is_step(a, c, n - 1));
        fuse::round_fits(a[n - 1], c, a[n], w, h);
    }
}

proof fn split_lots_same(ls: Seq<Lot>, a: Seq<Option<SplitOutcome>>, b: Seq<Option<SplitOutcome>>, n: int)
    requires
        0 <= n <= a.len(),
        a.len() == b.len() == ls.len(),
        forall|i: int|
            0 <= i < a.len() ==> match (#[trigger] a[i], b[i]) {
                (Some(x), Some(y)) => split::same_outcome(x, y),
                (None, None) => true,
                _ => false,
            },
    ensures
        split_lots(ls, a, n) == split_lots(ls, b, n),
    decreases n,
{
    if n > 0 {
        split_lots_same(ls, a, b, n - 1);
        assert(a[n - 1] is Some || a[n - 1] is None);
        assert(lots_for(ls[n - 1], a[n - 1]) == lots_for(ls[n - 1], b[n - 1]));
    }
}

proof fn split_stage_one(
    m: ForegroundMask,
    ls: Seq<Lot>,
    p: RefineParams,
    mh2: int,
    a: Seq<Lot>,
    s: SplitStats,
    b: Seq<Lot>,
    t: SplitStats,
)
    requires
        m.wf(),
        fuse::lots_fit(ls, m.width as int, m.height as int),
        is_split_stage(m, ls, p, mh2, a, s),
        is_split_stage(m, ls, p, mh2, b, t),
    ensures
        a == b,
        s == t,
        fuse::lots_fit(a, m.width as int, m.height as int),
{
    let w = m.width as int;
    let h = m.height as int;
    let n = ls.len() as int;
    if p.split.enabled && ls.len() > 0 && mh2 > 0 {
        let gs = fuse::groups_of(ls);
        let x = choose|outs: Seq<Option<SplitOutcome>>| #[trigger]
            split::are_outcomes(m, gs, p.split, mh2, false, outs) && fuse::is_sorted_lots(
                split_lots(ls, outs, n),
                a,
            ) && s == split::bumped(split::zero_stats(), outs, n);
        let y = choose|outs: Seq<Option<SplitOutcome>>| #[trigger]
            split::are_outcomes(m, gs, p.split, mh2, false, outs) && fuse::is_sorted_lots(
                split_lots(ls, outs, n),
                b,
            ) && t == split::bumped(split::zero_stats(), outs, n);
        assert forall|i: int| 0 <= i < gs.len() implies (#[trigger] gs[i]).bbox.fits(w, h) by {
            assert(fuse::lot_fits(ls[i], w, h));
        }
        split::outcomes_are_determined(m, gs, p.split, mh2, false, x, y);
        split::bumped_same(split::zero_stats(), x, y, n);
        split_lots_same(ls, x, y, n);
        fuse::sorted_lots_are_unique(split_lots(ls, x, n), a, b);
        split_lots_fit(m, ls, p.split, mh2, x, n);
        sorted_lots_fit(split_lots(ls, x, n), a, w, h);
    }
}

proof fn lattice_stage_one(
    m: ForegroundMask,
    p: RefineParams,
    parts: Seq<Lot>,
    mh2: int,
    g: GridHint,
    a: LatticeOutcome,
    h: GridHint,
    b: LatticeOutcome,
)
    requires
        m.wf(),
        fuse::lots_fit(parts, m.width as int, m.height as int),
        grid::same_hint(g, h),
        is_lattice_stage(m, p, parts, mh2, g, a),
        is_lattice_stage(m, p, parts, mh2, h, b),
    ensures
        lattice::same_outcome(a, b),
{
    if p.grid.enabled && (g.grid_x || g.grid_y) {
        lattice::outcome_is_determined(
            m,
            LatticeInput { lots: parts, hint: g, params: p.grid, mh2 },
            LatticeInput { lots: parts, hint: h, params: p.grid, mh2 },
            p.split,
            a,
            b,
        );
    } else {
        assert(a.restored@ =~= b.restored@);
    }
}

proof fn containment_stage_one(
    m: ForegroundMask,
    p: RefineParams,
    out: Seq<IconGroup>,
    x: Seq<Containment>,
    s: ContainmentStats,
    y: Seq<Containment>,
    t: ContainmentStats,
)
    requires
        is_containment_stage(m, p, out, x, s),
        is_containment_stage(m, p, out, y, t),
    ensures
        s == t,
{
    let n = out.len() as int;
    if p.containment.enabled && 0 < n <= u32::MAX {
        containment::forest_is_unique(m, out, p.containment.max_depth, x, y);
        assert(s.max_depth == t.max_depth) by {
            if s.max_depth < t.max_depth {
                let i = choose|i: int| 0 <= i < n && (#[trigger] y[i]).depth == t.max_depth;
                assert(x[i].depth <= s.max_depth);
            } else if t.max_depth < s.max_depth {
                let i = choose|i: int| 0 <= i < n && (#[trigger] x[i]).depth == s.max_depth;
                assert(y[i].depth <= t.max_depth);
            }
        }
    }
}

proof fn confidence_stage_one(
    m: ForegroundMask,
    bg: Option<BackgroundModel>,
    p: RefineParams,
    out: Seq<IconGroup>,
    s: RefineStats,
    t: RefineStats,
)
    requires
        is_confidence_stage(m, bg, p, out, s),
        is_confidence_stage(m, bg, p, out, t),
        s.merges == t.merges,
        s.grid == t.grid,
        s.restored_originals@ == t.restored_originals@,
        grid::same_hint(s.hint, t.hint),
    ensures
        confidence::same_report(s.confidence, t.confidence),
{
    if p.confidence.enabled && 0 < out.len() <= u32::MAX {
        let i = choose|i: ScoreInput| #[trigger]
            confidence::is_report(i, p.confidence, s.confidence) && i.groups@ == out && *i.mask == m
                && i.merges == (if s.merges >= s.grid.restored {
                s.merges - s.grid.restored
            } else {
                0
            }) && i.restored@ == s.restored_originals@ && *i.hint == s.hint && (match i.background {
                Some(b) => bg == Some(*b),
                None => bg is None,
            });
        let j = choose|i: ScoreInput| #[trigger]
            confidence::is_report(i, p.confidence, t.confidence) && i.groups@ == out && *i.mask == m
                && i.merges == (if t.merges >= t.grid.restored {
                t.merges - t.grid.restored
            } else {
                0
            }) && i.restored@ == t.restored_originals@ && *i.hint == t.hint && (match i.background {
                Some(b) => bg == Some(*b),
                None => bg is None,
            });
        confidence::report_is_determined(i, j, p.confidence, s.confidence, t.confidence);
    } else {
        confidence::perfect_reports_are_same(s.confidence, t.confidence);
    }
}

proof fn hint_stage_one(m: ForegroundMask, p: RefineParams, parts: Seq<Lot>, mh2: int, a: GridHint, b: GridHint)
    requires
        is_hint_stage(m, p, parts, mh2, a),
        is_hint_stage(m, p, parts, mh2, b),
    ensures
        grid::same_hint(a, b),
{
    if (p.grid.enabled || p.confidence.enabled) && parts.len() > 0 && mh2 > 0 {
        grid::hint_is_determined(m, p.grid, a, b);
    } else {
        grid::blank_hints_are_same(a, b);
    }
}

proof fn chain_tail(
    groups: Seq<IconGroup>,
    others: Seq<IconGroup>,
    m: ForegroundMask,
    bg: Option<BackgroundModel>,
    p: RefineParams,
    x: RefineTrace,
    a: Seq<IconGroup>,
    s: RefineStats,
    y: RefineTrace,
    b: Seq<IconGroup>,
    t: RefineStats,
)
    requires
        m.wf(),
        groups.len() == others.len(),
        follows(groups, m, bg, p, x, a, s),
        follows(others, m, bg, p, y, b, t),
        x.sound.len() == y.sound.len(),
        x.kept == y.kept,
        fuse::all_fit(x.kept, m.width as int, m.height as int),
    ensures
        a == b,
        same_stats(s, t),
{
    let w = m.width as int;
    let h = m.height as int;
    median::median_is_unique(heights(x.kept), x.context.mh2 as int, y.context.mh2 as int);
    median::median_is_unique(areas(x.kept), x.context.ma2 as int, y.context.ma2 as int);
    let c = x.context;
    assert(c == y.context);
    let start = single_lots(x.kept);
    let limit = round_limit(p, x.kept, c.mh2 as int);
    rounds_prefix(start, c, limit, x.rounds, y.rounds, x.rounds.len() as int);
    rounds_prefix(start, c, limit, y.rounds, x.rounds, y.rounds.len() as int);
    assert(x.rounds =~= y.rounds);
    singles_fit(x.kept, w, h);
    let last = x.rounds.len() - 1;
    rounds_fit(start, c, limit, x.rounds, last, w, h);
    split_stage_one(m, x.rounds[last], p, c.mh2 as int, x.parts, x.split, y.parts, y.split);
    hint_stage_one(m, p, x.parts, c.mh2 as int, s.hint, t.hint);
    lattice_stage_one(m, p, x.parts, c.mh2 as int, s.hint, x.lattice, t.hint, y.lattice);
    group::listing_is_unique(x.lattice.groups@, a, b);
    containment_stage_one(m, p, a, x.forest, s.containment, y.forest, t.containment);
    assert(s.grid == t.grid);
    confidence_stage_one(m, bg, p, a, s, t);
}

/// The chain makes one thing of the groups of a mask: the same groups, mask,
/// background and parameters give the same groups and the same stats.
pub proof fn refinement_is_determined(
    groups: Seq<IconGroup>,
    m: ForegroundMask,
    bg: Option<BackgroundModel>,
    p: RefineParams,
    a: Seq<IconGroup>,
    s: RefineStats,
    b: Seq<IconGroup>,
    t: RefineStats,
)
    requires
        m.wf(),
        fuse::all_fit(groups, m.width as int, m.height as int),
        is_refined(groups, m, bg, p, a, s),
        is_refined(groups, m, bg, p, b, t),
    ensures
        a == b,
        same_stats(s, t),
{
    if !p.enabled {
        grid::blank_hints_are_same(s.hint, t.hint);
        confidence::perfect_reports_are_same(s.confidence, t.confidence);
        assert(s.restored_originals@ =~= t.restored_originals@);
    } else {
        let x = choose|x: RefineTrace| #[trigger] follows(groups, m, bg, p, x, a, s);
        let y = choose|y: RefineTrace| #[trigger] follows(groups, m, bg, p, y, b, t);
        survivors_one(groups, m, p, x.sound, x.kept, y.kept);
        chain_tail(groups, groups, m, bg, p, x, a, s, y, b, t);
    }
}

/// No two groups have the same key.
pub open spec fn keys_differ(gs: Seq<IconGroup>) -> bool {
    forall|i: int, j: int|
        0 <= i < j < gs.len() ==> group::group_key(#[trigger] gs[i]) != group::group_key(
            #[trigger] gs[j],
        )
}

/// Two lists hold the same groups.
pub open spec fn same_members(a: Seq<IconGroup>, b: Seq<IconGroup>) -> bool {
    forall|g: IconGroup| #[trigger] a.contains(g) == b.contains(g)
}

proof fn sound_members(gs: Seq<IconGroup>, w: int, h: int, p: RefineParams, n: int)
    requires
        0 <= n <= gs.len(),
        keys_differ(gs),
    ensures
        keys_differ(merge::sound_ones(gs, w, h, p, n)),
        forall|g: IconGroup| #[trigger] merge::sound_ones(gs, w, h, p, n).contains(g) == (gs.subrange(
            0,
            n,
        ).contains(g) && merge::is_sound(g, w, h, p)),
    decreases n,
{
    let out = merge::sound_ones(gs, w, h, p, n);
    if n > 0 {
        sound_members(gs, w, h, p, n - 1);
        let before = merge::sound_ones(gs, w, h, p, n - 1);
        let head = gs.subrange(0, n - 1);
        let last = gs[n - 1];
        assert forall|g: IconGroup| #[trigger] gs.subrange(0, n).contains(g) == (head.contains(g) || g
            == last) by {
            last_or_before(gs, n, g);
        }
        assert forall|g: IconGroup| #[trigger] before.push(last).contains(g) == (before.contains(g) || g
            == last) by {
            pushed_or_before(before, last, g);
        }
        assert forall|i: int| 0 <= i < before.len() implies group::group_key(#[trigger] before[i])
            != group::group_key(last) by {
            assert(before.contains(before[i]));
            assert(head.contains(before[i]));
            let j = choose|j: int| 0 <= j < head.len() && head[j] == before[i];
            assert(gs[j] == before[i]);
        }
    } else {
        assert(gs.subrange(0, 0) =~= Seq::<IconGroup>::empty());
    }
}

proof fn unspecked_members(gs: Seq<IconGroup>, mh2: int, p: RefineParams, n: int)
    requires
        0 <= n <= gs.len(),
        keys_differ(gs),
    ensures
        keys_differ(merge::unspecked(gs, mh2, p, n)),
        forall|g: IconGroup| #[trigger] merge::unspecked(gs, mh2, p, n).contains(g) == (gs.subrange(
            0,
            n,
        ).contains(g) && !merge::is_speck(g, mh2, p)),
    decreases n,
{
    if n > 0 {
        unspecked_members(gs, mh2, p, n - 1);
        let before = merge::unspecked(gs, mh2, p, n - 1);
        let head = gs.subrange(0, n - 1);
        let last = gs[n - 1];
        assert forall|g: IconGroup| #[trigger] gs.subrange(0, n).contains(g) == (head.contains(g) || g
            == last) by {
            last_or_before(gs, n, g);
        }
        assert forall|g: IconGroup| #[trigger] before.push(last).contains(g) == (before.contains(g) || g
            == last) by {
            pushed_or_before(before, last, g);
        }
        assert forall|i: int| 0 <= i < before.len() implies group::group_key(#[trigger] before[i])
            != group::group_key(last) by {
            assert(before.contains(before[i]));
            assert(head.contains(before[i]));
            let j = choose|j: int| 0 <= j < head.len() && head[j] == before[i];
            assert(gs[j] == before[i]);
        }
    } else {
        assert(gs.subrange(0, 0) =~= Seq::<IconGroup>::empty());
    }
}

proof fn last_or_before(gs: Seq<IconGroup>, n: int, g: IconGroup)
    requires
        0 < n <= gs.len(),
    ensures
        gs.subrange(0, n).contains(g) == (gs.subrange(0, n - 1).contains(g) || g == gs[n - 1]),
{
    let all = gs.subrange(0, n);
    assert(all =~= gs.subrange(0, n - 1).push(gs[n - 1]));
    pushed_or_before(gs.subrange(0, n - 1), gs[n - 1], g);
}

proof fn pushed_or_before(s: Seq<IconGroup>, x: IconGroup, g: IconGroup)
    ensures
        s.push(x).contains(g) == (s.contains(g) || g == x),
{
    if s.contains(g) {
        let i = choose|i: int| 0 <= i < s.len() && s[i] == g;
        assert(s.push(x)[i] == g);
    }
    if g == x {
        assert(s.push(x)[s.len() as int] == g);
    }
}

proof fn listing_is_strict(gs: Seq<IconGroup>, order: Seq<usize>, out: Seq<IconGroup>)
    requires
        gs.len() <= usize::MAX,
        keys_differ(gs),
        sorting::is_order(group::keys_of(gs), order, 0, gs.len() as int),
        out == group::picked(gs, order),
    ensures
        median::lists_all(order, gs.len() as int),
        same_members(gs, out),
        forall|i: int, j: int|
            0 <= i < j < out.len() ==> sorting::key_lt(
                group::group_key(#[trigger] out[i]),
                group::group_key(#[trigger] out[j]),
            ),
{
    let keys = group::keys_of(gs);
    let n = gs.len() as int;
    assert forall|i: int, j: int| 0 <= i < j < n implies #[trigger] order[i] != #[trigger] order[j] by {
        assert(sorting::pos_lt(keys, order[i] as int, order[j] as int));
    }
    assert forall|i: int, j: int| 0 <= i < j < out.len() implies sorting::key_lt(
        group::group_key(#[trigger] out[i]),
        group::group_key(#[trigger] out[j]),
    ) by {
        let x = order[i] as int;
        let y = order[j] as int;
        assert(sorting::pos_lt(keys, x, y));
        assert(keys[x] == group::group_key(gs[x]) && keys[y] == group::group_key(gs[y]));
        if x < y {
            assert(group::group_key(gs[x]) != group::group_key(gs[y]));
        }
    }
    assert forall|g: IconGroup| #[trigger] gs.contains(g) == out.contains(g) by {
        if gs.contains(g) {
            let k = choose|k: int| 0 <= k < n && gs[k] == g;
            assert(order.contains(k as usize));
            let i = choose|i: int| 0 <= i < order.len() && order[i] == k as usize;
            assert(out[i] == g);
        }
        if out.contains(g) {
            let i = choose|i: int| 0 <= i < out.len() && out[i] == g;
            assert(gs[order[i] as int] == g);
        }
    }
}

proof fn strict_prefix(a: Seq<IconGroup>, b: Seq<IconGroup>, n: int)
    requires
        same_members(a, b),
        forall|i: int, j: int|
            0 <= i < j < a.len() ==> sorting::key_lt(
                group::group_key(#[trigger] a[i]),
                group::group_key(#[trigger] a[j]),
            ),
        forall|i: int, j: int|
            0 <= i < j < b.len() ==> sorting::key_lt(
                group::group_key(#[trigger] b[i]),
                group::group_key(#[trigger] b[j]),
            ),
        0 <= n <= a.len(),
    ensures
        n <= b.len(),
        forall|i: int| 0 <= i < n ==> a[i] == b[i],
    decreases n,
{
    if n > 0 {
        let k = n - 1;
        strict_prefix(a, b, k);
        assert(a.contains(a[k]));
        let j = choose|j: int| 0 <= j < b.len() && b[j] == a[k];
        if j < k {
            assert(a[j] == b[j]);
            assert(sorting::key_lt(group::group_key(a[j]), group::group_key(a[k])));
        }
        assert(b.contains(b[k]));
        assert(a.contains(b[k]));
        let l = choose|l: int| 0 <= l < a.len() && a[l] == b[k];
        if l < k {
            assert(a[l] == b[l]);
            assert(sorting::key_lt(group::group_key(b[l]), group::group_key(b[k])));
        }
        if j > k && l > k {
            assert(sorting::key_lt(group::group_key(b[k]), group::group_key(b[j])));
            assert(sorting::key_lt(group::group_key(a[k]), group::group_key(a[l])));
        }
    }
}

/// Lists of the same groups have the same canonical order.
proof fn listings_agree(x: Seq<IconGroup>, y: Seq<IconGroup>, a: Seq<IconGroup>, b: Seq<IconGroup>)
    requires
        x.len() <= usize::MAX,
        y.len() <= usize::MAX,
        keys_differ(x),
        keys_differ(y),
        same_members(x, y),
        group::is_sorted_listing(x, a),
        group::is_sorted_listing(y, b),
    ensures
        a == b,
{
    let o = choose|order: Seq<usize>| #[trigger]
        sorting::is_order(group::keys_of(x), order, 0, x.len() as int) && a == group::picked(x, order);
    let q = choose|order: Seq<usize>| #[trigger]
        sorting::is_order(group::keys_of(y), order, 0, y.len() as int) && b == group::picked(y, order);
    listing_is_strict(x, o, a);
    listing_is_strict(y, q, b);
    assert forall|g: IconGroup| #[trigger] a.contains(g) == b.contains(g) by {
        assert(x.contains(g) == y.contains(g));
    }
    strict_prefix(a, b, a.len() as int);
    assert forall|g: IconGroup| #[trigger] b.contains(g) == a.contains(g) by {
        assert(x.contains(g) == y.contains(g));
    }
    strict_prefix(b, a, b.len() as int);
    assert(a =~= b);
}

/// Two listings meet the same groups.
pub open spec fn matched(x: Seq<IconGroup>, o: Seq<usize>, y: Seq<IconGroup>, q: Seq<usize>) -> bool {
    &&& x.len() == y.len()
    &&& median::lists_all(o, x.len() as int)
    &&& median::lists_all(q, y.len() as int)
    &&& forall|i: int| 0 <= i < x.len() ==> x[#[trigger] o[i] as int] == y[q[i] as int]
}

/// Where a group stands in a list.
pub open spec fn place_of(y: Seq<IconGroup>, g: IconGroup) -> int {
    choose|j: int| 0 <= j < y.len() && y[j] == g
}

proof fn pairing(x: Seq<IconGroup>, y: Seq<IconGroup>)
    requires
        keys_differ(x),
        keys_differ(y),
        same_members(x, y),
        x.len() <= usize::MAX,
        y.len() <= usize::MAX,
    ensures
        exists|o: Seq<usize>, q: Seq<usize>| #[trigger] matched(x, o, y, q),
{
    assert(x.no_duplicates()) by {
        assert forall|i: int, j: int| 0 <= i < x.len() && 0 <= j < x.len() && i != j implies x[i] != x[j] by {
            if i < j {
                assert(group::group_key(x[i]) != group::group_key(x[j]));
            } else {
                assert(group::group_key(x[j]) != group::group_key(x[i]));
            }
        }
    }
    assert(y.no_duplicates()) by {
        assert forall|i: int, j: int| 0 <= i < y.len() && 0 <= j < y.len() && i != j implies y[i] != y[j] by {
            if i < j {
                assert(group::group_key(y[i]) != group::group_key(y[j]));
            } else {
                assert(group::group_key(y[j]) != group::group_key(y[i]));
            }
        }
    }
    x.unique_seq_to_set();
    y.unique_seq_to_set();
    assert(x.to_set() =~= y.to_set()) by {
        assert forall|g: IconGroup| x.to_set().contains(g) == y.to_set().contains(g) by {
            assert(x.contains(g) == y.contains(g));
        }
    }
    let n = x.len() as int;
    let o = Seq::new(n as nat, |i: int| i as usize);
    let q = Seq::new(n as nat, |i: int| place_of(y, x[i]) as usize);
    assert forall|i: int| 0 <= i < n implies 0 <= place_of(y, x[i]) < n && y[#[trigger] place_of(y, x[i])]
        == x[i] by {
        assert(x.contains(x[i]));
        assert(y.contains(x[i]));
    }
    assert forall|v: int| 0 <= v < n implies #[trigger] o.contains(v as usize) by {
        assert(o[v] == v as usize);
    }
    assert forall|i: int, j: int| 0 <= i < j < n implies #[trigger] q[i] != #[trigger] q[j] by {
        assert(y[place_of(y, x[i])] == x[i] && y[place_of(y, x[j])] == x[j]);
    }
    assert forall|i: int| 0 <= i < n implies 0 <= #[trigger] q[i] < n by {
        assert(y[place_of(y, x[i])] == x[i]);
    }
    assert forall|v: int| 0 <= v < n implies #[trigger] q.contains(v as usize) by {
        assert(y.contains(y[v]));
        assert(x.contains(y[v]));
        let i = choose|i: int| 0 <= i < n && x[i] == y[v];
        assert(y[place_of(y, x[i])] == x[i]);
        assert(place_of(y, x[i]) == v);
        assert(q[i] == v as usize);
    }
    assert forall|i: int| 0 <= i < n implies x[#[trigger] o[i] as int] == y[q[i] as int] by {
        assert(y[place_of(y, x[i])] == x[i]);
    }
    assert(matched(x, o, y, q));
}

proof fn survivors_agree(
    groups: Seq<IconGroup>,
    others: Seq<IconGroup>,
    m: ForegroundMask,
    p: RefineParams,
    sound1: Seq<IconGroup>,
    a: Seq<IconGroup>,
    sound2: Seq<IconGroup>,
    b: Seq<IconGroup>,
)
    requires
        keys_differ(groups),
        keys_differ(others),
        same_members(groups, others),
        groups.len() <= usize::MAX,
        others.len() <= usize::MAX,
        fuse::all_fit(groups, m.width as int, m.height as int),
        are_survivors(groups, m, p, sound1, a),
        are_survivors(others, m, p, sound2, b),
    ensures
        groups.len() == others.len(),
        sound1.len() == sound2.len(),
        a == b,
        fuse::all_fit(a, m.width as int, m.height as int),
{
    let w = m.width as int;
    let h = m.height as int;
    pairing(groups, others);
    sound_members(groups, w, h, p, groups.len() as int);
    sound_members(others, w, h, p, others.len() as int);
    assert(groups.subrange(0, groups.len() as int) =~= groups);
    assert(others.subrange(0, others.len() as int) =~= others);
    assert(keys_differ(sound1) && keys_differ(sound2));
    assert forall|g: IconGroup| #[trigger] sound1.contains(g) == sound2.contains(g) by {
        assert(groups.contains(g) == others.contains(g));
    }
    survivors_fit(groups, m, p, 0);
    merge::filters_only_drop(groups, w, h, p, 0, groups.len() as int);
    merge::filters_only_drop(others, w, h, p, 0, others.len() as int);
    pairing(sound1, sound2);
    let (o, q) = choose|o: Seq<usize>, q: Seq<usize>| #[trigger] matched(sound1, o, sound2, q);
    let x = choose|mh2: int| #[trigger]
        median::is_median2(heights(sound1), mh2) && group::is_sorted_listing(
            merge::unspecked(sound1, mh2, p, sound1.len() as int),
            a,
        );
    let y = choose|mh2: int| #[trigger]
        median::is_median2(heights(sound2), mh2) && group::is_sorted_listing(
            merge::unspecked(sound2, mh2, p, sound2.len() as int),
            b,
        );
    assert forall|i: int| 0 <= i < sound1.len() implies heights(sound1)[#[trigger] o[i] as int] == heights(
        sound2,
    )[q[i] as int] by {
        assert(sound1[o[i] as int] == sound2[q[i] as int]);
        assert(0 <= o[i] < sound1.len() && 0 <= q[i] < sound2.len());
    }
    median::medians_agree(heights(sound1), o, heights(sound2), q, x, y);
    unspecked_members(sound1, x, p, sound1.len() as int);
    unspecked_members(sound2, x, p, sound2.len() as int);
    assert(sound1.subrange(0, sound1.len() as int) =~= sound1);
    assert(sound2.subrange(0, sound2.len() as int) =~= sound2);
    let left1 = merge::unspecked(sound1, x, p, sound1.len() as int);
    let left2 = merge::unspecked(sound2, x, p, sound2.len() as int);
    assert forall|g: IconGroup| #[trigger] left1.contains(g) == left2.contains(g) by {
        assert(sound1.contains(g) == sound2.contains(g));
    }
    merge::filters_only_drop(sound1, w, h, p, x, sound1.len() as int);
    merge::filters_only_drop(sound2, w, h, p, x, sound2.len() as int);
    listings_agree(left1, left2, a, b);
    survivors_fit(sound1, m, p, x);
    lattice::sorted_fit(left1, a, w, h);
}

/// The order of the groups does not matter, as long as no two have the same key:
/// the chain puts them into canonical order itself.
pub proof fn input_order_does_not_matter(
    groups: Seq<IconGroup>,
    others: Seq<IconGroup>,
    m: ForegroundMask,
    bg: Option<BackgroundModel>,
    p: RefineParams,
    a: Seq<IconGroup>,
    s: RefineStats,
    b: Seq<IconGroup>,
    t: RefineStats,
)
    requires
        p.enabled,
        m.wf(),
        fuse::all_fit(groups, m.width as int, m.height as int),
        groups.len() <= usize::MAX,
        others.len() <= usize::MAX,
        keys_differ(groups),
        keys_differ(others),
        same_members(groups, others),
        is_refined(groups, m, bg, p, a, s),
        is_refined(others, m, bg, p, b, t),
    ensures
        a == b,
        same_stats(s, t),
{
    let x = choose|x: RefineTrace| #[trigger] follows(groups, m, bg, p, x, a, s);
    let y = choose|y: RefineTrace| #[trigger] follows(others, m, bg, p, y, b, t);
    survivors_agree(groups, others, m, p, x.sound, x.kept, y.sound, y.kept);
    chain_tail(groups, others, m, bg, p, x, a, s, y, b, t);
}

/// What is in scan order stays so, and what is refined comes in scan order.
pub proof fn refined_is_in_scan_order(
    groups: Seq<IconGroup>,
    m: ForegroundMask,
    bg: Option<BackgroundModel>,
    p: RefineParams,
    out: Seq<IconGroup>,
    s: RefineStats,
)
    requires
        group::in_scan_order(groups),
        is_refined(groups, m, bg, p, out, s),
    ensures
        group::in_scan_order(out),
{
    if p.enabled {
        let t = choose|t: RefineTrace| #[trigger] follows(groups, m, bg, p, t, out, s);
        group::listing_is_in_scan_order(t.lattice.groups@, out);
    }
}

proof fn rounds_count_by_rule(rounds: Seq<Seq<Lot>>, c: MergeContext, n: int)
    ensures
        counting::sum_below(merges_in(rounds, c), n) == counting::sum_below(rule_in(rounds, c, MergeRule::Rule1), n)
            + counting::sum_below(rule_in(rounds, c, MergeRule::Rule4), n) + counting::sum_below(
            rule_in(rounds, c, MergeRule::Rule5),
            n,
        ),
    decreases n,
{
    if n > 0 {
        rounds_count_by_rule(rounds, c, n - 1);
        let es = fuse::edges_of(fuse::groups_of(rounds[n - 1]), c);
        fuse::rules_part_the_merges(es, es.len() as int);
    }
}

/// What refinement counts adds up: what came in was dropped as noise, dropped as a
/// speck or looked at; every merge was made by one rule; and no more merges were
/// undone than boxes were flagged.
pub proof fn refinement_counts_add_up(
    groups: Seq<IconGroup>,
    m: ForegroundMask,
    bg: Option<BackgroundModel>,
    p: RefineParams,
    out: Seq<IconGroup>,
    s: RefineStats,
)
    requires
        is_refined(groups, m, bg, p, out, s),
    ensures
        s.input == groups.len(),
        s.merges == s.rule1 + s.rule4 + s.rule5,
        s.removed_noise + s.removed_specks <= s.input,
        !p.noise_enabled ==> s.removed_noise == 0,
        s.grid.restored <= s.grid.flagged,
        s.iterations <= p.max_iterations,
{
    if p.enabled {
        let t = choose|t: RefineTrace| #[trigger] follows(groups, m, bg, p, t, out, s);
        let c = t.context;
        let limit = round_limit(p, t.kept, c.mh2 as int);
        rounds_count_by_rule(t.rounds, c, looked(limit, t.rounds));
        if p.grid.enabled && (s.hint.grid_x || s.hint.grid_y) {
            let q = LatticeInput { lots: t.parts, hint: s.hint, params: p.grid, mh2: c.mh2 as int };
            let (order, pieces) = choose|order: Seq<usize>, pieces: Seq<Vec<IconGroup>>| #[trigger]
                lattice::settles(m, q, p.split, order, pieces, t.lattice);
            counting::count_le(lattice::undone(q), lattice::flagged(q), q.lots.len() as int);
        }
    }
}

} // verus!
