//! The grid hint: empty columns and rows that separate icons.
//!
//! Projection profiles of the mask give the *valleys*, interior runs of empty
//! columns or rows. An axis whose valleys are evenly spaced is a grid axis. The
//! hint is never authoritative: what it says is that a box which reaches past a
//! valley centre on both sides cannot be one cell's icon.
use vstd::prelude::*;
use crate::counting;
use crate::geometry::Bbox;
use crate::mask;
use crate::mask::ForegroundMask;
use crate::median;
use crate::split::Milli;

verus! {

/// Bumped whenever the hint's semantics change.
pub const GRID_VERSION: u32 = 1;

/// Tunables of the grid stage.
#[derive(Clone, Copy, Debug, PartialEq, Eq, Structural)]
pub struct GridParams {
    /// Stage switch.
    pub enabled: bool,
    /// An axis is a grid axis when its regularity exceeds this.
    pub regularity_min: Milli,
    /// Valleys an axis needs before it is judged.
    pub min_valleys: u8,
    /// How far a box may reach past a valley centre on both sides.
    pub span_tolerance: u32,
    /// A flagged group is re-split only when its box could hold this many
    /// median-sized icons.
    pub min_cells_to_resplit: Milli,
    /// Most re-split candidates per sheet; the largest boxes win.
    pub max_resplit: u32,
}

impl Default for GridParams {
    fn default() -> (r: Self)
        ensures
            r == default_grid_params(),
    {
        GridParams {
            enabled: true,
            regularity_min: 750,
            min_valleys: 2,
            span_tolerance: 2,
            min_cells_to_resplit: 1500,
            max_resplit: 64,
        }
    }
}

/// The standard tunables.
pub open spec fn default_grid_params() -> GridParams {
    GridParams {
        enabled: true,
        regularity_min: 750,
        min_valleys: 2,
        span_tolerance: 2,
        min_cells_to_resplit: 1500,
        max_resplit: 64,
    }
}

/// The typical pitch between valleys and its typical deviation; the regularity
/// of an axis is `1 - mad / median`.
#[derive(Clone, Copy, Debug, PartialEq, Eq, Structural)]
pub struct Pitch {
    /// Median distance between neighbouring valley centres.
    pub median: u64,
    /// Median absolute deviation from it.
    pub mad: u64,
}

/// What detection found.
#[derive(Clone, Debug, PartialEq, Eq)]
pub struct GridHint {
    /// Columns form a regular lattice.
    pub grid_x: bool,
    /// Rows form a regular lattice.
    pub grid_y: bool,
    /// Cells along x when it is a grid axis, else zero.
    pub cells_x: u32,
    /// Cells along y when it is a grid axis, else zero.
    pub cells_y: u32,
    /// The pitch of the columns; zeros when there are too few valleys.
    pub pitch_x: Pitch,
    /// The pitch of the rows; zeros when there are too few valleys.
    pub pitch_y: Pitch,
    /// Column valley centres, ascending.
    pub valley_x: Vec<u32>,
    /// Row valley centres, ascending.
    pub valley_y: Vec<u32>,
}

/// The hint that says nothing.
pub open spec fn is_blank_hint(h: GridHint) -> bool {
    &&& !h.grid_x
    &&& !h.grid_y
    &&& h.cells_x == 0
    &&& h.cells_y == 0
    &&& h.pitch_x == (Pitch { median: 0, mad: 0 })
    &&& h.pitch_y == (Pitch { median: 0, mad: 0 })
    &&& h.valley_x@.len() == 0
    &&& h.valley_y@.len() == 0
}

impl Default for GridHint {
    fn default() -> (r: Self)
        ensures
            is_blank_hint(r),
    {
        GridHint {
            grid_x: false,
            grid_y: false,
            cells_x: 0,
            cells_y: 0,
            pitch_x: Pitch { median: 0, mad: 0 },
            pitch_y: Pitch { median: 0, mad: 0 },
            valley_x: Vec::new(),
            valley_y: Vec::new(),
        }
    }
}

impl GridHint {
    /// True when at least one axis is a grid axis.
    pub fn any(&self) -> (r: bool)
        ensures
            r == (self.grid_x || self.grid_y),
    {
        self.grid_x || self.grid_y
    }
}

/// How one box sits on the detected lattice.
#[derive(Clone, Copy, Debug, PartialEq, Eq, Structural)]
pub enum GridFit {
    /// Inside a single cell on every grid axis.
    Cell {
        /// Index of the column band, when the columns form a grid.
        col: u32,
        /// Index of the row band, when the rows form a grid.
        row: u32,
    },
    /// Straddles at least one valley.
    SpansMultipleCells {
        /// Bit 0 is the x axis, bit 1 the y axis.
        axes: u8,
    },
    /// The hint has nothing to say.
    OffGrid,
}

/// Counters of the grid stage.
#[derive(Clone, Copy, Debug, PartialEq, Eq, Structural)]
pub struct GridStats {
    /// Valleys found on the x axis.
    pub valleys_x: u32,
    /// Valleys found on the y axis.
    pub valleys_y: u32,
    /// Groups flagged as spanning several cells.
    pub flagged: u64,
    /// Flagged groups that were acted on.
    pub resplit_candidates: u64,
    /// Merges undone because they crossed a valley.
    pub restored: u64,
    /// Flagged groups that were split.
    pub resplit: u64,
    /// Regions that the re-split produced.
    pub regions: u64,
}

impl Default for GridStats {
    fn default() -> (r: Self)
        ensures
            r == zero_grid_stats(),
    {
        GridStats {
            valleys_x: 0,
            valleys_y: 0,
            flagged: 0,
            resplit_candidates: 0,
            restored: 0,
            resplit: 0,
            regions: 0,
        }
    }
}

/// All counters at zero.
pub open spec fn zero_grid_stats() -> GridStats {
    GridStats {
        valleys_x: 0,
        valleys_y: 0,
        flagged: 0,
        resplit_candidates: 0,
        restored: 0,
        resplit: 0,
        regions: 0,
    }
}

// ---- valleys ----------------------------------------------------------------------

/// Positions `s..e` are a maximal empty stretch that touches no border.
pub open spec fn is_valley(profile: Seq<u32>, s: int, e: int) -> bool {
    &&& 0 < s < e < profile.len()
    &&& profile[s - 1] != 0
    &&& profile[e] != 0
    &&& forall|k: int| s <= k < e ==> profile[k] == 0
}

/// `out` lists the centres of the valleys; `at[i]` is the `i`-th one.
pub open spec fn lists_valleys(profile: Seq<u32>, at: Seq<(int, int)>, out: Seq<u32>) -> bool {
    &&& at.len() == out.len()
    &&& forall|i: int|
        0 <= i < at.len() ==> is_valley(profile, (#[trigger] at[i]).0, at[i].1) && out[i] == (
        at[i].0 + at[i].1 - 1) / 2
    &&& forall|i: int, j: int|
        0 <= i < j < at.len() ==> (#[trigger] at[i]).1 < (#[trigger] at[j]).0
    &&& forall|s: int, e: int| #[trigger] is_valley(profile, s, e) ==> at.contains((s, e))
}

/// `out` are the valley centres of a profile, ascending.
pub open spec fn is_valley_list(profile: Seq<u32>, out: Seq<u32>) -> bool {
    exists|at: Seq<(int, int)>| #[trigger] lists_valleys(profile, at, out)
}

/// Centres of the interior empty stretches of a profile, ascending. Stretches
/// at the border are margins, not separators.
pub fn valley_centres(profile: &Vec<u32>) -> (r: Vec<u32>)
    requires
        profile@.len() <= u32::MAX,
    ensures
        is_valley_list(profile@, r@),
        r@.len() <= profile@.len(),
{
    let n: usize = profile.len();
    let mut out: Vec<u32> = Vec::new();
    let ghost mut at: Seq<(int, int)> = Seq::empty();
    let ghost p = profile@;
    let mut start: Option<usize> = None;
    let mut i: usize = 0;
    while i < n
        invariant
            i <= n,
            n == p.len(),
            n <= u32::MAX,
            p == profile@,
            at.len() == out@.len(),
            out@.len() <= i,
            forall|k: int|
                0 <= k < at.len() ==> is_valley(p, (#[trigger] at[k]).0, at[k].1) && at[k].1 < i
                    && out@[k] == (at[k].0 + at[k].1 - 1) / 2,
            forall|k: int, l: int|
                0 <= k < l < at.len() ==> (#[trigger] at[k]).1 < (#[trigger] at[l]).0,
            forall|s: int, e: int| #[trigger] is_valley(p, s, e) && e < i ==> at.contains((s, e)),
            match start {
                Some(s) => s < i && (forall|k: int| s <= k < i ==> p[k] == 0) && (s > 0 ==> p[s
                    - 1] != 0) && (at.len() > 0 ==> at[at.len() - 1].1 < s),
                None => i > 0 ==> p[i - 1] != 0,
            },
        decreases n - i,
    {
        let v: u32 = profile[i];
        if v == 0 {
            match start {
                Some(_) => {},
                None => {
                    proof {
                        if at.len() > 0 {
                            assert(is_valley(p, at[at.len() - 1].0, at[at.len() - 1].1));
                        }
                    }
                    start = Some(i);
                },
            }
            proof {
                assert forall|s: int, e: int| #[trigger] is_valley(p, s, e) && e < i + 1 implies at.contains(
                    (s, e),
                ) by {
                    assert(e != i);
                }
            }
        } else {
            let ghost at0 = at;
            match start {
                Some(s) => {
                    if s > 0 {
                        out.push((s + (i - 1 - s) / 2) as u32);
                        proof {
                            at = at.push((s as int, i as int));
                            assert(is_valley(p, s as int, i as int));
                        }
                    }
                    proof {
                        assert forall|a: int, e: int| #[trigger]
                            is_valley(p, a, e) && e < i + 1 implies at.contains((a, e)) by {
                            if e < i {
                                assert(at0.contains((a, e)));
                                let k = choose|k: int| 0 <= k < at0.len() && at0[k] == (a, e);
                                assert(at[k] == (a, e));
                            } else {
                                if a < s {
                                    assert(p[s - 1] == 0);
                                }
                                if a > s {
                                    assert(p[a - 1] == 0);
                                }
                                assert(at[at0.len() as int] == (a, e));
                            }
                        }
                    }
                },
                None => {
                    proof {
                        assert forall|a: int, e: int| #[trigger]
                            is_valley(p, a, e) && e < i + 1 implies at.contains((a, e)) by {
                            if e == i {
                                assert(p[i - 1] == 0);
                            }
                        }
                    }
                },
            }
            start = None;
        }
        i = i + 1;
    }
    proof {
        assert forall|s: int, e: int| #[trigger] is_valley(p, s, e) implies at.contains((s, e)) by {}
        assert(lists_valleys(p, at, out@));
    }
    out
}

/// Valley centres ascend strictly.
pub proof fn valleys_ascend(profile: Seq<u32>, out: Seq<u32>)
    requires
        is_valley_list(profile, out),
    ensures
        forall|i: int, j: int| 0 <= i < j < out.len() ==> #[trigger] out[i] < #[trigger] out[j],
        forall|i: int| 0 <= i < out.len() ==> (#[trigger] out[i]) < profile.len(),
{
    let at = choose|at: Seq<(int, int)>| #[trigger] lists_valleys(profile, at, out);
    assert forall|i: int, j: int| 0 <= i < j < out.len() implies #[trigger] out[i]
        < #[trigger] out[j] by {
        assert(is_valley(profile, at[i].0, at[i].1));
        assert(is_valley(profile, at[j].0, at[j].1));
    }
    assert forall|i: int| 0 <= i < out.len() implies (#[trigger] out[i]) < profile.len() by {
        assert(is_valley(profile, at[i].0, at[i].1));
    }
}

// ---- regularity -----------------------------------------------------------------------

/// The distances between neighbouring centres.
pub open spec fn widths_of(valleys: Seq<u32>) -> Seq<u64> {
    Seq::new(
        (if valleys.len() == 0 {
            0
        } else {
            valleys.len() - 1
        }) as nat,
        |i: int| (valleys[i + 1] - valleys[i]) as u64,
    )
}

/// The distance of each value from `m`.
pub open spec fn deviations(s: Seq<u64>, m: u64) -> Seq<u64> {
    Seq::new(
        s.len(),
        |i: int|
            if s[i] > m {
                (s[i] - m) as u64
            } else {
                (m - s[i]) as u64
            },
    )
}

/// The pitch of an axis, once it has enough valleys to be judged.
pub open spec fn is_pitch(valleys: Seq<u32>, min_valleys: u8, pitch: Option<Pitch>) -> bool {
    let need: int = if min_valleys < 2 {
        2
    } else {
        min_valleys as int
    };
    match pitch {
        None => valleys.len() < need,
        Some(p) => {
            &&& valleys.len() >= need
            &&& median::is_middle(widths_of(valleys), p.median)
            &&& median::is_middle(deviations(widths_of(valleys), p.median), p.mad)
        },
    }
}

/// The regularity `1 - mad / median` of a pitch exceeds `min`.
pub open spec fn is_regular(pitch: Option<Pitch>, min: Milli) -> bool {
    match pitch {
        None => false,
        Some(p) => p.median > 0 && (p.median - p.mad) * 1000 > min * p.median,
    }
}

/// Measures the pitch between consecutive valley centres.
pub fn pitch_of(valleys: &Vec<u32>, min_valleys: u8) -> (r: Option<Pitch>)
    requires
        forall|i: int, j: int| 0 <= i < j < valleys@.len() ==> #[trigger] valleys@[i] < #[trigger] valleys@[j],
    ensures
        is_pitch(valleys@, min_valleys, r),
{
    let need: usize = if min_valleys < 2 {
        2
    } else {
        min_valleys as usize
    };
    if valleys.len() < need {
        return None;
    }
    let mut widths: Vec<u64> = Vec::new();
    let mut i: usize = 0;
    let last: usize = valleys.len() - 1;
    while i < last
        invariant
            last == valleys@.len() - 1,
            i <= last,
            widths@.len() == i,
            forall|a: int, b: int|
                0 <= a < b < valleys@.len() ==> #[trigger] valleys@[a] < #[trigger] valleys@[b],
            forall|k: int| 0 <= k < i ==> #[trigger] widths@[k] == widths_of(valleys@)[k],
        decreases last - i,
    {
        assert(valleys@[i as int] < valleys@[i + 1]);
        widths.push((valleys[i + 1] - valleys[i]) as u64);
        i = i + 1;
    }
    assert(widths@ =~= widths_of(valleys@));
    let median: u64 = median::middle(&widths);
    let mut dev: Vec<u64> = Vec::new();
    let mut i: usize = 0;
    while i < widths.len()
        invariant
            i <= widths@.len(),
            dev@.len() == i,
            forall|k: int| 0 <= k < i ==> #[trigger] dev@[k] == deviations(widths@, median)[k],
        decreases widths@.len() - i,
    {
        let w: u64 = widths[i];
        dev.push(
            if w > median {
                w - median
            } else {
                median - w
            },
        );
        i = i + 1;
    }
    assert(dev@ =~= deviations(widths@, median));
    let mad: u64 = median::middle(&dev);
    Some(Pitch { median, mad })
}

fn regular(pitch: Option<Pitch>, min: Milli) -> (r: bool)
    ensures
        r == is_regular(pitch, min),
{
    match pitch {
        None => false,
        Some(p) => {
            assert(min * p.median <= 0xffff_ffff * 0xffff_ffff_ffff_ffff) by (nonlinear_arith)
                requires
                    min <= 0xffff_ffff,
                    p.median <= 0xffff_ffff_ffff_ffff,
            ;
            p.median > 0 && p.mad <= p.median && (p.median - p.mad) as u128 * 1000 > min as u128
                * p.median as u128
        },
    }
}

// ---- profiles -------------------------------------------------------------------------

/// Some pixel of column `x` is ink.
pub open spec fn column_inked(m: ForegroundMask, x: int) -> bool {
    exists|y: int| #[trigger] m.ink(x, y)
}

/// Some pixel of row `y` is ink.
pub open spec fn row_inked(m: ForegroundMask, y: int) -> bool {
    exists|x: int| #[trigger] m.ink(x, y)
}

/// `p` is zero exactly at the empty columns.
pub open spec fn is_column_profile(m: ForegroundMask, p: Seq<u32>) -> bool {
    &&& p.len() == m.width
    &&& forall|x: int| 0 <= x < p.len() ==> (#[trigger] p[x] != 0 <==> column_inked(m, x))
}

/// `p` is zero exactly at the empty rows.
pub open spec fn is_row_profile(m: ForegroundMask, p: Seq<u32>) -> bool {
    &&& p.len() == m.height
    &&& forall|y: int| 0 <= y < p.len() ==> (#[trigger] p[y] != 0 <==> row_inked(m, y))
}

spec fn diff_at(d: Seq<i64>) -> spec_fn(int) -> int {
    |k: int| d[k] as int
}

spec fn covering(runs: Seq<crate::geometry::RleRun>, x: int) -> spec_fn(int) -> bool {
    |i: int| runs[i].x_start <= x < runs[i].x_end
}

/// Raising one difference raises every later prefix sum.
proof fn prefix_add(d: Seq<i64>, e: Seq<i64>, a: int, v: int, n: int)
    requires
        0 <= a < d.len(),
        e.len() == d.len(),
        0 <= n <= d.len(),
        e[a] == d[a] + v,
        forall|k: int| 0 <= k < d.len() && k != a ==> #[trigger] e[k] == d[k],
    ensures
        counting::sum_below(diff_at(e), n) == counting::sum_below(diff_at(d), n) + (if n > a {
            v
        } else {
            0
        }),
    decreases n,
{
    if n > 0 {
        prefix_add(d, e, a, v, n - 1);
    }
}

/// Column and row profiles from the runs alone.
fn profiles(mask: &ForegroundMask) -> (r: (Vec<u32>, Vec<u32>))
    requires
        mask.wf(),
        0 < mask.width < u32::MAX,
        0 < mask.height,
    ensures
        is_column_profile(*mask, r.0@),
        is_row_profile(*mask, r.1@),
{
    let w: usize = mask.width as usize;
    let h: usize = mask.height as usize;
    let runs = mask.runs();
    let mut diff: Vec<i64> = Vec::new();
    let mut i: usize = 0;
    while i < w + 1
        invariant
            i <= w + 1,
            w < u32::MAX,
            diff@.len() == i,
            forall|k: int| 0 <= k < i ==> #[trigger] diff@[k] == 0,
        decreases w + 1 - i,
    {
        diff.push(0);
        i = i + 1;
    }
    let mut rows: Vec<u32> = Vec::new();
    let mut i: usize = 0;
    while i < h
        invariant
            i <= h,
            rows@.len() == i,
            forall|k: int| 0 <= k < i ==> #[trigger] rows@[k] == 0,
        decreases h - i,
    {
        rows.push(0);
        i = i + 1;
    }
    proof {
        assert forall|x: int| 0 <= x < w implies #[trigger] counting::sum_below(
            diff_at(diff@),
            x + 1,
        ) == counting::count_below(covering(runs@, x), 0) by {
            zero_prefix(diff@, x + 1);
        }
    }
    let mut i: usize = 0;
    while i < runs.len()
        invariant
            i <= runs@.len(),
            mask.wf(),
            w == mask.width,
            h == mask.height,
            mask::is_runs_of(*mask, runs@),
            diff@.len() == w + 1,
            rows@.len() == h,
            forall|k: int| 0 <= k <= w ==> -(i as int) <= #[trigger] diff@[k] <= i,
            forall|x: int|
                0 <= x < w ==> #[trigger] counting::sum_below(diff_at(diff@), x + 1)
                    == counting::count_below(covering(runs@, x), i as int),
            forall|y: int|
                0 <= y < h ==> (#[trigger] rows@[y] != 0 <==> exists|k: int|
                    0 <= k < i && (#[trigger] runs@[k]).y == y),
        decreases runs@.len() - i,
    {
        let r = runs[i];
        assert(mask::is_maximal_run(*mask, runs@[i as int]));
        let ghost d0 = diff@;
        let ghost rows0 = rows@;
        let a: usize = r.x_start as usize;
        let b: usize = r.x_end as usize;
        proof {
            assert(-(i as int) <= d0[a as int] <= i);
            assert(-(i as int) <= d0[b as int] <= i);
            runs_bound(*mask, runs@, i as int);
        }
        let va: i64 = diff[a];
        diff.set(a, va + 1);
        let ghost d1 = diff@;
        let vb: i64 = diff[b];
        diff.set(b, vb - 1);
        rows.set(r.y as usize, 1);
        proof {
            assert forall|x: int| 0 <= x < w implies #[trigger] counting::sum_below(
                diff_at(diff@),
                x + 1,
            ) == counting::count_below(covering(runs@, x), i + 1) by {
                prefix_add(d0, d1, a as int, 1, x + 1);
                prefix_add(d1, diff@, b as int, -1, x + 1);
                assert(counting::sum_below(diff_at(d0), x + 1) == counting::count_below(
                    covering(runs@, x),
                    i as int,
                ));
            }
            assert forall|y: int| 0 <= y < h implies (#[trigger] rows@[y] != 0 <==> exists|k: int|
                0 <= k < i + 1 && (#[trigger] runs@[k]).y == y) by {
                if y == r.y {
                    assert(runs@[i as int].y == y);
                }
                if rows0[y] != 0 {
                    let k = choose|k: int| 0 <= k < i && (#[trigger] runs@[k]).y == y;
                    assert(0 <= k < i + 1 && runs@[k].y == y);
                }
            }
        }
        i = i + 1;
    }
    let ghost total: usize = runs.len();
    proof {
        if total > 0 {
            runs_bound(*mask, runs@, total - 1);
        }
    }
    let mut cols: Vec<u32> = Vec::new();
    let mut run: i64 = 0;
    let mut x: usize = 0;
    while x < w
        invariant
            x <= w,
            w == mask.width,
            mask.wf(),
            mask::is_runs_of(*mask, runs@),
            total == runs@.len(),
            diff@.len() == w + 1,
            forall|k: int|
                0 <= k < w ==> #[trigger] counting::sum_below(diff_at(diff@), k + 1)
                    == counting::count_below(covering(runs@, k), runs@.len() as int),
            run == counting::sum_below(diff_at(diff@), x as int),
            forall|k: int| 0 <= k <= w ==> -(total as int) <= #[trigger] diff@[k] <= total,
            0 <= run <= total,
            total <= mask::MAX_PIXELS,
            cols@.len() == x,
            forall|k: int|
                0 <= k < x ==> (#[trigger] cols@[k] != 0 <==> counting::count_below(
                    covering(runs@, k),
                    runs@.len() as int,
                ) > 0),
        decreases w - x,
    {
        proof {
            assert(-(total as int) <= diff@[x as int] <= total);
            assert(counting::sum_below(diff_at(diff@), x + 1) == counting::count_below(
                covering(runs@, x as int),
                runs@.len() as int,
            ));
            counting::count_bounds(covering(runs@, x as int), runs@.len() as int);
        }
        run = run + diff[x];
        cols.push(run as u32);
        x = x + 1;
    }
    proof {
        assert forall|x: int| 0 <= x < w implies (#[trigger] cols@[x] != 0 <==> column_inked(
            *mask,
            x,
        )) by {
            let f = covering(runs@, x);
            let n = runs@.len() as int;
            if column_inked(*mask, x) {
                let y = choose|y: int| #[trigger] mask.ink(x, y);
                assert(mask::some_run_covers(runs@, x, y));
                let k = choose|k: int|
                    0 <= k < runs@.len() && mask::run_covers(#[trigger] runs@[k], x, y);
                counting::count_positive(f, n, k);
            } else {
                assert forall|k: int| 0 <= k < n implies #[trigger] f(k) == false by {
                    assert(mask::is_maximal_run(*mask, runs@[k]));
                    if f(k) {
                        assert(mask.ink(x, runs@[k].y as int));
                    }
                }
                counting::count_span(f, 0, n, false);
            }
        }
        assert forall|y: int| 0 <= y < h implies (#[trigger] rows@[y] != 0 <==> row_inked(
            *mask,
            y,
        )) by {
            if rows@[y] != 0 {
                let k = choose|k: int| 0 <= k < runs@.len() && (#[trigger] runs@[k]).y == y;
                assert(mask::is_maximal_run(*mask, runs@[k]));
                assert(mask.ink(runs@[k].x_start as int, y));
            }
            if row_inked(*mask, y) {
                let x = choose|x: int| #[trigger] mask.ink(x, y);
                assert(mask::some_run_covers(runs@, x, y));
                let k = choose|k: int|
                    0 <= k < runs@.len() && mask::run_covers(#[trigger] runs@[k], x, y);
                assert(runs@[k].y == y);
            }
        }
    }
    (cols, rows)
}

proof fn zero_prefix(d: Seq<i64>, n: int)
    requires
        forall|k: int| 0 <= k < d.len() ==> #[trigger] d[k] == 0,
        n <= d.len(),
    ensures
        counting::sum_below(diff_at(d), n) == 0,
    decreases n,
{
    if n > 0 {
        zero_prefix(d, n - 1);
    }
}

/// Runs start at distinct pixels, in order, so there are no more than pixels.
proof fn runs_bound(m: ForegroundMask, runs: Seq<crate::geometry::RleRun>, i: int)
    requires
        m.wf(),
        mask::is_runs_of(m, runs),
        0 <= i < runs.len(),
    ensures
        i <= mask::pixel_at(m.width as int, runs[i].x_start as int, runs[i].y as int),
        i < mask::MAX_PIXELS,
    decreases i,
{
    let w = m.width as int;
    let h = m.height as int;
    assert(mask::is_maximal_run(m, runs[i]));
    mask::lemma_pixel_in(w, h, runs[i].x_start as int, runs[i].y as int);
    if i > 0 {
        runs_bound(m, runs, i - 1);
        assert(mask::is_maximal_run(m, runs[i - 1]));
        assert(mask::run_before(runs[i - 1], runs[i]));
        mask::lemma_pixel_order(
            w,
            runs[i - 1].x_start as int,
            runs[i - 1].y as int,
            runs[i].x_start as int,
            runs[i].y as int,
        );
    }
}

// ---- detection --------------------------------------------------------------------------

/// What the hint says of one axis.
pub open spec fn is_axis(
    profile: Seq<u32>,
    params: GridParams,
    on: bool,
    cells: u32,
    pitch: Pitch,
    valleys: Seq<u32>,
) -> bool {
    exists|all: Seq<u32>, p: Option<Pitch>|
        #![trigger is_valley_list(profile, all), is_pitch(all, params.min_valleys, p)]
        is_valley_list(profile, all) && is_pitch(all, params.min_valleys, p) && on == is_regular(
            p,
            params.regularity_min,
        ) && cells == (if on {
            all.len() as int + 1
        } else {
            0
        }) && pitch == (match p {
            Some(q) => q,
            None => Pitch { median: 0, mad: 0 },
        }) && valleys == all
}

/// `h` is the hint of `m`.
pub open spec fn is_hint(m: ForegroundMask, params: GridParams, h: GridHint) -> bool {
    if m.width == 0 || m.height == 0 {
        is_blank_hint(h)
    } else {
        exists|cols: Seq<u32>, rows: Seq<u32>|
            #![trigger is_column_profile(m, cols), is_row_profile(m, rows)]
            is_column_profile(m, cols) && is_row_profile(m, rows) && is_axis(
                cols,
                params,
                h.grid_x,
                h.cells_x,
                h.pitch_x,
                h.valley_x@,
            ) && is_axis(rows, params, h.grid_y, h.cells_y, h.pitch_y, h.valley_y@)
    }
}

/// The valley counters that a hint sets.
pub open spec fn counts_hint(s: GridStats, h: GridHint, t: GridStats) -> bool {
    t == (GridStats {
        valleys_x: h.valley_x@.len() as u32,
        valleys_y: h.valley_y@.len() as u32,
        ..s
    })
}

/// One axis of the hint.
fn judge_axis(profile: &Vec<u32>, params: &GridParams) -> (r: (bool, u32, Pitch, Vec<u32>))
    requires
        profile@.len() < u32::MAX,
    ensures
        is_axis(profile@, *params, r.0, r.1, r.2, r.3@),
        r.3@.len() <= profile@.len(),
        forall|i: int, j: int| 0 <= i < j < r.3@.len() ==> #[trigger] r.3@[i] < #[trigger] r.3@[j],
{
    let all = valley_centres(profile);
    proof {
        valleys_ascend(profile@, all@);
    }
    let p = pitch_of(&all, params.min_valleys);
    let on: bool = regular(p, params.regularity_min);
    assert(is_valley_list(profile@, all@) && is_pitch(all@, params.min_valleys, p));
    let cells: u32 = if on {
        all.len() as u32 + 1
    } else {
        0
    };
    let pitch = match p {
        Some(q) => q,
        None => Pitch { median: 0, mad: 0 },
    };
    (on, cells, pitch, all)
}

/// Measures the lattice of a mask, whether or not the stage is switched on.
pub fn measure_grid(mask: &ForegroundMask, params: &GridParams, stats: &mut GridStats) -> (h: GridHint)
    requires
        mask.wf(),
        mask.width < u32::MAX,
        mask.height < u32::MAX,
    ensures
        is_hint(*mask, *params, h),
        mask.width > 0 && mask.height > 0 ==> counts_hint(*old(stats), h, *final(stats)),
        mask.width == 0 || mask.height == 0 ==> *final(stats) == *old(stats),
        forall|i: int, j: int|
            0 <= i < j < h.valley_x@.len() ==> #[trigger] h.valley_x@[i] < #[trigger] h.valley_x@[j],
        forall|i: int, j: int|
            0 <= i < j < h.valley_y@.len() ==> #[trigger] h.valley_y@[i] < #[trigger] h.valley_y@[j],
        h.valley_x@.len() <= mask.width,
        h.valley_y@.len() <= mask.height,
{
    if mask.width == 0 || mask.height == 0 {
        return GridHint::default();
    }
    let (cols, rows) = profiles(mask);
    let (grid_x, cells_x, pitch_x, valley_x) = judge_axis(&cols, params);
    let (grid_y, cells_y, pitch_y, valley_y) = judge_axis(&rows, params);
    stats.valleys_x = valley_x.len() as u32;
    stats.valleys_y = valley_y.len() as u32;
    let h = GridHint { grid_x, grid_y, cells_x, cells_y, pitch_x, pitch_y, valley_x, valley_y };
    assert(is_column_profile(*mask, cols@) && is_row_profile(*mask, rows@));
    h
}

/// Detects the lattice of a mask; a switched-off stage finds nothing.
pub fn detect_grid(mask: &ForegroundMask, params: &GridParams, stats: &mut GridStats) -> (h: GridHint)
    requires
        mask.wf(),
        mask.width < u32::MAX,
        mask.height < u32::MAX,
    ensures
        params.enabled ==> is_hint(*mask, *params, h),
        params.enabled && mask.width > 0 && mask.height > 0 ==> counts_hint(
            *old(stats),
            h,
            *final(stats),
        ),
        !params.enabled ==> is_blank_hint(h),
        !params.enabled || mask.width == 0 || mask.height == 0 ==> *final(stats) == *old(stats),
{
    if !params.enabled {
        return GridHint::default();
    }
    measure_grid(mask, params, stats)
}

// ---- classification ------------------------------------------------------------------------

/// The first `j` valleys do not lie behind `hi`, and the next one does.
pub open spec fn is_stop(valleys: Seq<u32>, hi: int, j: int) -> bool {
    &&& 0 <= j <= valleys.len()
    &&& forall|k: int| 0 <= k < j ==> #[trigger] valleys[k] <= hi
    &&& j < valleys.len() ==> valleys[j] > hi
}

/// The span `lo..=hi` reaches `tol` past centre `c` on both sides.
pub open spec fn straddles(lo: int, hi: int, c: int, tol: int) -> bool {
    lo <= c - tol && hi >= c + tol
}

/// Some valley centre not behind `hi` is straddled, and none before it lies
/// behind `hi`.
pub open spec fn is_crossed(lo: int, hi: int, valleys: Seq<u32>, tol: int) -> bool {
    exists|k: int| #[trigger] crosses_at(lo, hi, valleys, tol, k)
}

/// Centre `k` is straddled and reached.
pub open spec fn crosses_at(lo: int, hi: int, valleys: Seq<u32>, tol: int, k: int) -> bool {
    &&& 0 <= k < valleys.len()
    &&& forall|i: int| 0 <= i <= k ==> #[trigger] valleys[i] <= hi
    &&& straddles(lo, hi, valleys[k] as int, tol)
}

/// `band` is the band of the span `lo..=hi`, or `None` when it straddles a
/// valley or the axis is no grid axis.
pub open spec fn is_band(lo: int, hi: int, valleys: Seq<u32>, tol: int, on_grid: bool, band: Option<u32>) -> bool {
    match band {
        None => !on_grid || is_crossed(lo, hi, valleys, tol),
        Some(b) => on_grid && !is_crossed(lo, hi, valleys, tol) && is_stop(valleys, hi, b as int),
    }
}

/// Band index of a span, or `None` when it straddles a valley centre.
pub fn band_index(lo: i64, hi: i64, valleys: &Vec<u32>, tol: u32, on_grid: bool) -> (r: Option<u32>)
    requires
        valleys@.len() <= u32::MAX,
        0 <= lo <= 0x2_0000_0000,
        -1 <= hi <= 0x2_0000_0000,
    ensures
        is_band(lo as int, hi as int, valleys@, tol as int, on_grid, r),
{
    if !on_grid {
        return None;
    }
    let mut crossed: bool = false;
    let mut j: usize = 0;
    while j < valleys.len() && valleys[j] as i64 <= hi
        invariant
            j <= valleys@.len(),
            lo <= 0x2_0000_0000,
            hi <= 0x2_0000_0000,
            forall|k: int| 0 <= k < j ==> #[trigger] valleys@[k] <= hi,
            crossed ==> is_crossed(lo as int, hi as int, valleys@, tol as int),
            !crossed ==> forall|k: int|
                0 <= k < j ==> !straddles(
                    lo as int,
                    hi as int,
                    #[trigger] valleys@[k] as int,
                    tol as int,
                ),
        decreases valleys@.len() - j,
    {
        let c: i64 = valleys[j] as i64;
        let t: i64 = tol as i64;
        if lo <= c - t && hi >= c + t {
            crossed = true;
            assert(crosses_at(lo as int, hi as int, valleys@, tol as int, j as int));
        }
        j = j + 1;
    }
    assert(is_stop(valleys@, hi as int, j as int));
    proof {
        if !crossed {
            assert forall|k: int| !#[trigger] crosses_at(lo as int, hi as int, valleys@, tol as int, k) by {
                if crosses_at(lo as int, hi as int, valleys@, tol as int, k) && k >= j {
                    assert(valleys@[j as int] <= hi);
                }
            }
        }
    }
    if crossed {
        None
    } else {
        Some(j as u32)
    }
}

/// How box `b` sits on the lattice of `h`.
pub open spec fn is_fit(b: Bbox, h: GridHint, tol: int, fit: GridFit) -> bool {
    if b.w == 0 || b.h == 0 {
        fit == GridFit::OffGrid
    } else {
        exists|col: Option<u32>, row: Option<u32>|
            #![trigger is_band(b.x as int, b.right() - 1, h.valley_x@, tol, h.grid_x, col),
                is_band(b.y as int, b.bottom() - 1, h.valley_y@, tol, h.grid_y, row)]
            is_band(b.x as int, b.right() - 1, h.valley_x@, tol, h.grid_x, col) && is_band(
                b.y as int,
                b.bottom() - 1,
                h.valley_y@,
                tol,
                h.grid_y,
                row,
            ) && fit == fit_of(h, col, row)
    }
}

/// A box that straddles a valley of a grid axis.
pub open spec fn spans_cells(b: Bbox, h: GridHint, tol: int) -> bool {
    &&& b.w > 0
    &&& b.h > 0
    &&& (h.grid_x && is_crossed(b.x as int, b.right() - 1, h.valley_x@, tol)) || (h.grid_y
        && is_crossed(b.y as int, b.bottom() - 1, h.valley_y@, tol))
}

/// The fit that two bands amount to.
pub open spec fn fit_of(h: GridHint, col: Option<u32>, row: Option<u32>) -> GridFit {
    let cross_x = h.grid_x && col is None;
    let cross_y = h.grid_y && row is None;
    if cross_x || cross_y {
        GridFit::SpansMultipleCells {
            axes: if cross_x && cross_y {
                3
            } else if cross_x {
                1
            } else {
                2
            },
        }
    } else if h.grid_x || h.grid_y {
        GridFit::Cell {
            col: match col {
                Some(c) => c,
                None => 0,
            },
            row: match row {
                Some(r) => r,
                None => 0,
            },
        }
    } else {
        GridFit::OffGrid
    }
}

/// Classifies one box against the hint.
pub fn classify(bbox: &Bbox, hint: &GridHint, span_tolerance: u32) -> (r: GridFit)
    requires
        hint.valley_x@.len() <= u32::MAX,
        hint.valley_y@.len() <= u32::MAX,
    ensures
        is_fit(*bbox, *hint, span_tolerance as int, r),
        r is SpansMultipleCells <==> spans_cells(*bbox, *hint, span_tolerance as int),
{
    if bbox.w == 0 || bbox.h == 0 {
        return GridFit::OffGrid;
    }
    let col = band_index(
        bbox.x as i64,
        bbox.x as i64 + bbox.w as i64 - 1,
        &hint.valley_x,
        span_tolerance,
        hint.grid_x,
    );
    let row = band_index(
        bbox.y as i64,
        bbox.y as i64 + bbox.h as i64 - 1,
        &hint.valley_y,
        span_tolerance,
        hint.grid_y,
    );
    assert(is_band(bbox.x as int, bbox.right() - 1, hint.valley_x@, span_tolerance as int, hint.grid_x, col));
    assert(is_band(bbox.y as int, bbox.bottom() - 1, hint.valley_y@, span_tolerance as int, hint.grid_y, row));
    let cross_x: bool = hint.grid_x && col.is_none();
    let cross_y: bool = hint.grid_y && row.is_none();
    if cross_x || cross_y {
        GridFit::SpansMultipleCells {
            axes: if cross_x && cross_y {
                3
            } else if cross_x {
                1
            } else {
                2
            },
        }
    } else if hint.any() {
        GridFit::Cell {
            col: match col {
                Some(c) => c,
                None => 0,
            },
            row: match row {
                Some(v) => v,
                None => 0,
            },
        }
    } else {
        GridFit::OffGrid
    }
}

/// A box that straddles no valley centre is never flagged.
pub proof fn unflagged_when_clear(b: Bbox, h: GridHint, tol: int, fit: GridFit)
    requires
        is_fit(b, h, tol, fit),
        forall|k: int|
            0 <= k < h.valley_x@.len() ==> !straddles(
                b.x as int,
                b.right() - 1,
                #[trigger] h.valley_x@[k] as int,
                tol,
            ),
        forall|k: int|
            0 <= k < h.valley_y@.len() ==> !straddles(
                b.y as int,
                b.bottom() - 1,
                #[trigger] h.valley_y@[k] as int,
                tol,
            ),
    ensures
        !(fit is SpansMultipleCells),
{
}

// ---- one outcome --------------------------------------------------------------------

/// Two hints say the same.
pub open spec fn same_hint(a: GridHint, b: GridHint) -> bool {
    &&& a.grid_x == b.grid_x
    &&& a.grid_y == b.grid_y
    &&& a.cells_x == b.cells_x
    &&& a.cells_y == b.cells_y
    &&& a.pitch_x == b.pitch_x
    &&& a.pitch_y == b.pitch_y
    &&& a.valley_x@ == b.valley_x@
    &&& a.valley_y@ == b.valley_y@
}

proof fn valleys_prefix(
    p: Seq<u32>,
    q: Seq<u32>,
    s: Seq<(int, int)>,
    a: Seq<u32>,
    t: Seq<(int, int)>,
    b: Seq<u32>,
    n: int,
)
    requires
        p.len() == q.len(),
        forall|i: int| 0 <= i < p.len() ==> (#[trigger] p[i] == 0 <==> q[i] == 0),
        lists_valleys(p, s, a),
        lists_valleys(q, t, b),
        0 <= n <= s.len(),
    ensures
        n <= t.len(),
        forall|i: int| 0 <= i < n ==> s[i] == t[i],
    decreases n,
{
    if n > 0 {
        let k = n - 1;
        valleys_prefix(p, q, s, a, t, b, k);
        assert(is_valley(p, s[k].0, s[k].1));
        assert(is_valley(q, s[k].0, s[k].1)) by {
            assert forall|i: int| s[k].0 <= i < s[k].1 implies q[i] == 0 by {
                assert(p[i] == 0);
            }
        }
        assert(t.contains((s[k].0, s[k].1)));
        let j = choose|j: int| 0 <= j < t.len() && t[j] == s[k];
        if j < k {
            assert(s[j].1 < s[k].0);
        }
        assert(k < t.len());
        assert(is_valley(q, t[k].0, t[k].1));
        assert(is_valley(p, t[k].0, t[k].1)) by {
            assert forall|i: int| t[k].0 <= i < t[k].1 implies p[i] == 0 by {
                assert(q[i] == 0);
            }
        }
        assert(s.contains((t[k].0, t[k].1)));
        let l = choose|l: int| 0 <= l < s.len() && s[l] == t[k];
        if l < k {
            assert(t[l].1 < t[k].0);
        }
        if j > k && l > k {
            assert(t[k].1 < t[j].0);
            assert(s[k].1 < s[l].0);
        }
    }
}

proof fn axis_is_determined(
    p: Seq<u32>,
    q: Seq<u32>,
    params: GridParams,
    a: (bool, u32, Pitch, Seq<u32>),
    b: (bool, u32, Pitch, Seq<u32>),
)
    requires
        p.len() == q.len(),
        forall|i: int| 0 <= i < p.len() ==> (#[trigger] p[i] == 0 <==> q[i] == 0),
        is_axis(p, params, a.0, a.1, a.2, a.3),
        is_axis(q, params, b.0, b.1, b.2, b.3),
    ensures
        a == b,
{
    let (v, x) = choose|all: Seq<u32>, o: Option<Pitch>|
        #![trigger is_valley_list(p, all), is_pitch(all, params.min_valleys, o)]
        is_valley_list(p, all) && is_pitch(all, params.min_valleys, o) && a.0 == is_regular(
            o,
            params.regularity_min,
        ) && a.1 == (if a.0 {
            all.len() as int + 1
        } else {
            0
        }) && a.2 == (match o {
            Some(z) => z,
            None => Pitch { median: 0, mad: 0 },
        }) && a.3 == all;
    let (w, y) = choose|all: Seq<u32>, o: Option<Pitch>|
        #![trigger is_valley_list(q, all), is_pitch(all, params.min_valleys, o)]
        is_valley_list(q, all) && is_pitch(all, params.min_valleys, o) && b.0 == is_regular(
            o,
            params.regularity_min,
        ) && b.1 == (if b.0 {
            all.len() as int + 1
        } else {
            0
        }) && b.2 == (match o {
            Some(z) => z,
            None => Pitch { median: 0, mad: 0 },
        }) && b.3 == all;
    let s = choose|at: Seq<(int, int)>| #[trigger] lists_valleys(p, at, v);
    let t = choose|at: Seq<(int, int)>| #[trigger] lists_valleys(q, at, w);
    valleys_prefix(p, q, s, v, t, w, s.len() as int);
    assert forall|i: int| 0 <= i < p.len() implies (#[trigger] q[i] == 0 <==> p[i] == 0) by {
        assert(p[i] == 0 <==> q[i] == 0);
    }
    valleys_prefix(q, p, t, w, s, v, t.len() as int);
    assert forall|i: int| 0 <= i < v.len() implies v[i] == w[i] by {
        assert(s[i] == t[i]);
        assert(v[i] == (s[i].0 + s[i].1 - 1) / 2);
        assert(w[i] == (t[i].0 + t[i].1 - 1) / 2);
    }
    assert(v =~= w);
    if let (Some(e), Some(f)) = (x, y) {
        let ws = widths_of(v);
        median::rank_is_unique(ws, ws.len() as int / 2, e.median, f.median);
        let ds = deviations(ws, e.median);
        median::rank_is_unique(ds, ds.len() as int / 2, e.mad, f.mad);
    }
}

/// A mask has one hint under given parameters.
pub proof fn hint_is_determined(m: ForegroundMask, params: GridParams, a: GridHint, b: GridHint)
    requires
        is_hint(m, params, a),
        is_hint(m, params, b),
    ensures
        same_hint(a, b),
{
    if m.width == 0 || m.height == 0 {
        blank_hints_are_same(a, b);
    } else {
        let (c1, r1) = choose|cols: Seq<u32>, rows: Seq<u32>|
            #![trigger is_column_profile(m, cols), is_row_profile(m, rows)]
            is_column_profile(m, cols) && is_row_profile(m, rows) && is_axis(
                cols,
                params,
                a.grid_x,
                a.cells_x,
                a.pitch_x,
                a.valley_x@,
            ) && is_axis(rows, params, a.grid_y, a.cells_y, a.pitch_y, a.valley_y@);
        let (c2, r2) = choose|cols: Seq<u32>, rows: Seq<u32>|
            #![trigger is_column_profile(m, cols), is_row_profile(m, rows)]
            is_column_profile(m, cols) && is_row_profile(m, rows) && is_axis(
                cols,
                params,
                b.grid_x,
                b.cells_x,
                b.pitch_x,
                b.valley_x@,
            ) && is_axis(rows, params, b.grid_y, b.cells_y, b.pitch_y, b.valley_y@);
        assert forall|i: int| 0 <= i < c1.len() implies (#[trigger] c1[i] == 0 <==> c2[i] == 0) by {
            assert(c1[i] != 0 <==> column_inked(m, i));
            assert(c2[i] != 0 <==> column_inked(m, i));
        }
        assert forall|i: int| 0 <= i < r1.len() implies (#[trigger] r1[i] == 0 <==> r2[i] == 0) by {
            assert(r1[i] != 0 <==> row_inked(m, i));
            assert(r2[i] != 0 <==> row_inked(m, i));
        }
        axis_is_determined(
            c1,
            c2,
            params,
            (a.grid_x, a.cells_x, a.pitch_x, a.valley_x@),
            (b.grid_x, b.cells_x, b.pitch_x, b.valley_x@),
        );
        axis_is_determined(
            r1,
            r2,
            params,
            (a.grid_y, a.cells_y, a.pitch_y, a.valley_y@),
            (b.grid_y, b.cells_y, b.pitch_y, b.valley_y@),
        );
    }
}

/// Hints that say nothing say the same.
pub proof fn blank_hints_are_same(a: GridHint, b: GridHint)
    requires
        is_blank_hint(a),
        is_blank_hint(b),
    ensures
        same_hint(a, b),
{
    assert(a.valley_x@ =~= b.valley_x@);
    assert(a.valley_y@ =~= b.valley_y@);
}

// ---- what a lattice is --------------------------------------------------------------

/// The valley centres are the middles of the inkless stretches that have ink on
/// both sides, rounded down, and nothing else.
pub proof fn valleys_are_the_gaps_between_ink(profile: Seq<u32>, out: Seq<u32>, c: u32)
    requires
        is_valley_list(profile, out),
        profile.len() <= u32::MAX,
    ensures
        out.contains(c) == (exists|s: int, e: int|
            #![trigger profile[s - 1], profile[e]]
            0 < s < e < profile.len() && profile[s - 1] > 0 && profile[e] > 0 && (forall|k: int|
                s <= k < e ==> #[trigger] profile[k] == 0) && (2 * c == s + e - 1 || 2 * c == s + e - 2)),
{
    let at = choose|at: Seq<(int, int)>| #[trigger] lists_valleys(profile, at, out);
    if out.contains(c) {
        let i = choose|i: int| 0 <= i < out.len() && out[i] == c;
        let (s, e) = at[i];
        assert(is_valley(profile, at[i].0, at[i].1));
        assert(profile[s - 1] > 0 && profile[e] > 0);
    }
    if exists|s: int, e: int|
        #![trigger profile[s - 1], profile[e]]
        0 < s < e < profile.len() && profile[s - 1] > 0 && profile[e] > 0 && (forall|k: int|
            s <= k < e ==> #[trigger] profile[k] == 0) && (2 * c == s + e - 1 || 2 * c == s + e - 2) {
        let (s, e) = choose|s: int, e: int|
            #![trigger profile[s - 1], profile[e]]
            0 < s < e < profile.len() && profile[s - 1] > 0 && profile[e] > 0 && (forall|k: int|
                s <= k < e ==> #[trigger] profile[k] == 0) && (2 * c == s + e - 1 || 2 * c == s + e - 2);
        assert(is_valley(profile, s, e));
        let i = choose|i: int| 0 <= i < at.len() && at[i] == (s, e);
        assert(at[i].0 == s);
        assert(out[i] == c);
    }
}

/// A box gets a band of a grid axis exactly where it reaches over no valley of it,
/// and the band is the number of valleys that do not lie behind its end.
pub proof fn bands_count_the_valleys_before(
    lo: int,
    hi: int,
    valleys: Seq<u32>,
    tol: int,
    on_grid: bool,
    band: Option<u32>,
)
    requires
        is_band(lo, hi, valleys, tol, on_grid, band),
        tol >= 0,
        forall|i: int, j: int| 0 <= i < j < valleys.len() ==> #[trigger] valleys[i] < #[trigger] valleys[j],
    ensures
        (band is Some) == (on_grid && forall|k: int|
            0 <= k < valleys.len() ==> #[trigger] valleys[k] < lo + tol || valleys[k] + tol > hi),
        band is Some ==> band->0 == counting::count_below(|k: int| valleys[k] <= hi, valleys.len() as int),
{
    if exists|k: int| 0 <= k < valleys.len() && !(#[trigger] valleys[k] < lo + tol || valleys[k] + tol > hi) {
        let k = choose|k: int|
            0 <= k < valleys.len() && !(#[trigger] valleys[k] < lo + tol || valleys[k] + tol > hi);
        assert forall|i: int| 0 <= i <= k implies #[trigger] valleys[i] <= hi by {
            if i < k {
                assert(valleys[i] < valleys[k]);
            }
        }
        assert(crosses_at(lo, hi, valleys, tol, k));
    }
    if let Some(b) = band {
        let f = |k: int| valleys[k] <= hi;
        let n = valleys.len() as int;
        counting::count_span(f, 0, b as int, true);
        assert forall|k: int| b <= k < n implies #[trigger] f(k) == false by {
            if k > b {
                assert(valleys[b as int] < valleys[k]);
            }
        }
        counting::count_span(f, b as int, n, false);
    }
}

/// An axis is a lattice exactly where it has enough valleys, their middle distance
/// is not zero, and the deviation from it leaves more than the least regularity;
/// then it has one cell more than it has valleys.
pub proof fn lattices_are_regular(
    profile: Seq<u32>,
    params: GridParams,
    on: bool,
    cells: u32,
    pitch: Pitch,
    valleys: Seq<u32>,
)
    requires
        is_axis(profile, params, on, cells, pitch, valleys),
    ensures
        on == (valleys.len() >= 2 && valleys.len() >= params.min_valleys && pitch.median > 0 && 1000 * (
        pitch.median - pitch.mad) > params.regularity_min * pitch.median),
        on ==> cells == valleys.len() + 1,
        !on ==> cells == 0,
        valleys.len() < 2 || valleys.len() < params.min_valleys ==> pitch.median == 0 && pitch.mad == 0,
{
}

/// The inked columns and rows are what the profiles of a hint are taken from.
pub proof fn hints_come_from_inked_lines(m: ForegroundMask, params: GridParams, h: GridHint) -> (r: (
    Seq<u32>,
    Seq<u32>,
))
    requires
        m.wf(),
        is_hint(m, params, h),
        m.width > 0,
        m.height > 0,
    ensures
        r.0.len() == m.width,
        r.1.len() == m.height,
        forall|x: int|
            0 <= x < m.width ==> (#[trigger] r.0[x] > 0) == (exists|y: int|
                0 <= y < m.height && #[trigger] m.bits@[y * m.width + x]),
        forall|y: int|
            0 <= y < m.height ==> (#[trigger] r.1[y] > 0) == (exists|x: int|
                0 <= x < m.width && #[trigger] m.bits@[y * m.width + x]),
        is_axis(r.0, params, h.grid_x, h.cells_x, h.pitch_x, h.valley_x@),
        is_axis(r.1, params, h.grid_y, h.cells_y, h.pitch_y, h.valley_y@),
{
    let (cols, rows) = choose|cols: Seq<u32>, rows: Seq<u32>|
        #![trigger is_column_profile(m, cols), is_row_profile(m, rows)]
        is_column_profile(m, cols) && is_row_profile(m, rows) && is_axis(
            cols,
            params,
            h.grid_x,
            h.cells_x,
            h.pitch_x,
            h.valley_x@,
        ) && is_axis(rows, params, h.grid_y, h.cells_y, h.pitch_y, h.valley_y@);
    assert forall|x: int| 0 <= x < m.width implies (#[trigger] cols[x] > 0) == (exists|y: int|
        0 <= y < m.height && #[trigger] m.bits@[y * m.width + x]) by {
        if column_inked(m, x) {
            let y = choose|y: int| #[trigger] m.ink(x, y);
            assert(m.bits@[y * m.width + x]);
        }
        if exists|y: int| 0 <= y < m.height && #[trigger] m.bits@[y * m.width + x] {
            let y = choose|y: int| 0 <= y < m.height && #[trigger] m.bits@[y * m.width + x];
            assert(m.ink(x, y));
        }
    }
    assert forall|y: int| 0 <= y < m.height implies (#[trigger] rows[y] > 0) == (exists|x: int|
        0 <= x < m.width && #[trigger] m.bits@[y * m.width + x]) by {
        if row_inked(m, y) {
            let x = choose|x: int| #[trigger] m.ink(x, y);
            assert(m.bits@[y * m.width + x]);
        }
        if exists|x: int| 0 <= x < m.width && #[trigger] m.bits@[y * m.width + x] {
            let x = choose|x: int| 0 <= x < m.width && #[trigger] m.bits@[y * m.width + x];
            assert(m.ink(x, y));
        }
    }
    (cols, rows)
}

/// The pitch of an axis is the middle of the distances between neighbouring valleys
/// and the middle of their deviations from it: more than half of them are no
/// greater, and at most half are less.
pub proof fn pitch_is_the_middle_distance(valleys: Seq<u32>, min_valleys: u8, p: Pitch)
    requires
        is_pitch(valleys, min_valleys, Some(p)),
        valleys.len() <= u32::MAX,
        forall|i: int, j: int| 0 <= i < j < valleys.len() ==> #[trigger] valleys[i] < #[trigger] valleys[j],
    ensures
        ({
            let n = valleys.len() as int - 1;
            let at_most = |v: int| counting::count_below(|i: int| valleys[i + 1] - valleys[i] <= v, n);
            let less = |v: int| counting::count_below(|i: int| valleys[i + 1] - valleys[i] < v, n);
            &&& n >= 1
            &&& 2 * at_most(p.median as int) > n
            &&& 2 * less(p.median as int) <= n
        }),
{
    let n = valleys.len() as int - 1;
    let w = widths_of(valleys);
    median::middle_is_the_upper_median(w, p.median);
    assert forall|i: int| 0 <= i < n implies #[trigger] w[i] == valleys[i + 1] - valleys[i] by {
        assert(valleys[i] < valleys[i + 1]);
    }
    let v = p.median as int;
    counting::count_ext(|i: int| valleys[i + 1] - valleys[i] <= v, |i: int| w[i] <= p.median, n);
    counting::count_ext(|i: int| valleys[i + 1] - valleys[i] < v, |i: int| w[i] < p.median, n);
}

} // verus!
