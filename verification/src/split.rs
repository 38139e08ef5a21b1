//! Over-merge splitting: a component that is too large for one icon is cut
//! along the ridges of its distance transform.
//!
//! Only components whose box is larger than the size gate are looked at, and a
//! component that is thick throughout is one large icon, never a merge. A split
//! stands only when at least two regions survive sliver rejection.
//!
//! Fractions are in thousandths, and the median height is carried doubled, so
//! every comparison is exact.
use vstd::prelude::*;
use crate::chamfer;
use crate::connect;
use crate::containment;
use crate::counting;
use crate::flood;
use crate::geometry::{Bbox, IconGroup};
use crate::group;
use crate::mask;
use crate::mask::ForegroundMask;
use crate::regions;
use crate::watershed;

verus! {

/// Bumped whenever split behaviour changes.
pub const SPLIT_VERSION: u32 = 1;

/// The most groups a stage takes.
pub const MAX_GROUPS: u32 = 0x0fff_ffff;

/// A fraction in thousandths.
pub type Milli = u32;

/// Tunables of the split stage.
#[derive(Clone, Copy, Debug, PartialEq, Eq, Structural)]
pub struct SplitParams {
    /// Stage switch.
    pub enabled: bool,
    /// Size gate: the box area must exceed the square of this multiple of the
    /// median height.
    pub size_mult: Milli,
    /// Suppression radius, as a fraction of the median height.
    pub seed_radius_frac: Milli,
    /// Least distance of a seed from background, as a fraction of the median
    /// height.
    pub seed_min_dt_frac: Milli,
    /// A component whose inscribed radius exceeds this fraction of the median
    /// height is left alone.
    pub max_dt_frac: Milli,
    /// Regions below this fraction of the mean region are reattached.
    pub sliver_frac: Milli,
    /// Most seeds per component.
    pub max_seeds: u32,
    /// Enables the two fallbacks.
    pub fallback_enabled: bool,
}

impl Default for SplitParams {
    fn default() -> (r: Self)
        ensures
            r == default_split_params(),
    {
        SplitParams {
            enabled: true,
            size_mult: 2200,
            seed_radius_frac: 600,
            seed_min_dt_frac: 300,
            max_dt_frac: 750,
            sliver_frac: 100,
            max_seeds: 64,
            fallback_enabled: true,
        }
    }
}

/// The standard tunables.
pub open spec fn default_split_params() -> SplitParams {
    SplitParams {
        enabled: true,
        size_mult: 2200,
        seed_radius_frac: 600,
        seed_min_dt_frac: 300,
        max_dt_frac: 750,
        sliver_frac: 100,
        max_seeds: 64,
        fallback_enabled: true,
    }
}

/// The tunables are small enough for exact arithmetic, and allow a seed.
pub open spec fn split_params_ok(p: SplitParams) -> bool {
    &&& p.size_mult <= 0x7fff_ffff
    &&& p.seed_radius_frac <= 0x7fff_ffff
    &&& 1 <= p.max_seeds <= 0x7fff_ffff
}

/// Counters of the split stage.
#[derive(Clone, Copy, Debug, PartialEq, Eq, Structural)]
pub struct SplitStats {
    /// Components that passed the size gate.
    pub candidates: u64,
    /// Components replaced by two or more regions.
    pub split: u64,
    /// Regions produced across all splits.
    pub regions: u64,
    /// Slivers reattached to a neighbour.
    pub slivers: u64,
    /// Under-seeded components cut by profile.
    pub fallback_profile: u64,
    /// Over-seeded components reseeded.
    pub fallback_reseed: u64,
    /// Components left alone because they are thick.
    pub skipped_fat: u64,
    /// Components kept whole.
    pub skipped_no_structure: u64,
}

impl Default for SplitStats {
    fn default() -> (r: Self)
        ensures
            r == zero_stats(),
    {
        SplitStats {
            candidates: 0,
            split: 0,
            regions: 0,
            slivers: 0,
            fallback_profile: 0,
            fallback_reseed: 0,
            skipped_fat: 0,
            skipped_no_structure: 0,
        }
    }
}

/// All counters at zero.
pub open spec fn zero_stats() -> SplitStats {
    SplitStats {
        candidates: 0,
        split: 0,
        regions: 0,
        slivers: 0,
        fallback_profile: 0,
        fallback_reseed: 0,
        skipped_fat: 0,
        skipped_no_structure: 0,
    }
}

// ---- the component of a group ------------------------------------------------------

/// Cell `s` is where the component of `g` is picked up: its origin when that is
/// ink, else the first ink cell of its box.
pub open spec fn is_start(m: ForegroundMask, g: IconGroup, s: int) -> bool {
    if m.ink(g.origin.0 as int, g.origin.1 as int) {
        s == containment::cell(g.bbox, g.origin.0 as int, g.origin.1 as int)
    } else {
        &&& 0 <= s < g.bbox.w * g.bbox.h
        &&& containment::box_ink(m, g.bbox)[s]
        &&& forall|j: int| 0 <= j < s ==> !#[trigger] containment::box_ink(m, g.bbox)[j]
    }
}

/// Cell `k` of the box of `g` belongs to the picked-up component.
pub open spec fn is_part(m: ForegroundMask, g: IconGroup, k: int) -> bool {
    exists|s: int| #[trigger]
        is_start(m, g, s) && connect::reaches(
            flood::step8(g.bbox.w as int, containment::box_ink(m, g.bbox)),
            s,
            k,
        )
}

/// The component of `g` inside its box, cell by cell.
pub open spec fn part_of(m: ForegroundMask, g: IconGroup) -> Seq<bool> {
    Seq::new((g.bbox.w * g.bbox.h) as nat, |k: int| is_part(m, g, k))
}

/// The component's own pixels, as a crop-sized bitmap.
pub fn extract_component(mask: &ForegroundMask, g: &IconGroup) -> (r: Vec<bool>)
    requires
        mask.wf(),
        g.bbox.fits(mask.width as int, mask.height as int),
        g.bbox.covers(g.origin.0 as int, g.origin.1 as int),
    ensures
        r@ == part_of(*mask, *g),
{
    let b = g.bbox;
    proof {
        containment::lemma_box_area(b, mask.width as int, mask.height as int);
    }
    let cw: usize = b.w as usize;
    let ch: usize = b.h as usize;
    let n: usize = cw * ch;
    let ink = containment::ink_of_box(mask, b);
    let mut comp: Vec<bool> = Vec::new();
    let mut k: usize = 0;
    while k < n
        invariant
            k <= n,
            comp@.len() == k,
            forall|j: int| 0 <= j < k ==> !#[trigger] comp@[j],
        decreases n - k,
    {
        comp.push(false);
        k = k + 1;
    }
    let dx: usize = (g.origin.0 - b.x) as usize;
    let dy: usize = (g.origin.1 - b.y) as usize;
    proof {
        mask::lemma_pixel_in(cw as int, ch as int, dx as int, dy as int);
        mask::lemma_pixel_split(cw as int, ch as int, dy * cw + dx);
        mask::lemma_pixel_inj(
            cw as int,
            (dy * cw + dx) % (cw as int),
            (dy * cw + dx) / (cw as int),
            dx as int,
            dy as int,
        );
    }
    let mut start: usize = dy * cw + dx;
    assert(start == containment::cell(b, g.origin.0 as int, g.origin.1 as int));
    if !mask.get(g.origin.0, g.origin.1) {
        start = 0;
        while start < n && !ink[start]
            invariant
                start <= n,
                ink@.len() == n,
                forall|j: int| 0 <= j < start ==> !#[trigger] ink@[j],
            decreases n - start,
        {
            start = start + 1;
        }
        if start == n {
            proof {
                assert forall|j: int| 0 <= j < n implies !#[trigger] part_of(*mask, *g)[j] by {
                    if is_part(*mask, *g, j) {
                        let s = choose|s: int| #[trigger]
                            is_start(*mask, *g, s) && connect::reaches(
                                flood::step8(b.w as int, containment::box_ink(*mask, b)),
                                s,
                                j,
                            );
                        assert(!ink@[s]);
                    }
                }
                assert(comp@ =~= part_of(*mask, *g));
            }
            return comp;
        }
    }
    assert(is_start(*mask, *g, start as int));
    let mut seeds: Vec<usize> = Vec::new();
    seeds.push(start);
    let _region = flood::flood(cw, ch, true, &ink, &mut comp, &seeds);
    proof {
        assert forall|j: int| 0 <= j < n implies #[trigger] comp@[j] == part_of(*mask, *g)[j] by {
            if flood::from_seeds(cw as int, true, ink@, seeds@, j) {
                let i = choose|i: int|
                    0 <= i < seeds@.len() && connect::reaches(
                        flood::step(cw as int, true, ink@),
                        #[trigger] seeds@[i] as int,
                        j,
                    );
                assert(seeds@[i] == start);
                assert(connect::reaches(
                    flood::step8(b.w as int, containment::box_ink(*mask, b)),
                    start as int,
                    j,
                ));
            }
            if is_part(*mask, *g, j) {
                let s = choose|s: int| #[trigger]
                    is_start(*mask, *g, s) && connect::reaches(
                        flood::step8(b.w as int, containment::box_ink(*mask, b)),
                        s,
                        j,
                    );
                start_unique(*mask, *g, s, start as int);
                assert(connect::reaches(
                    flood::step(cw as int, true, ink@),
                    seeds@[0] as int,
                    j,
                ));
            }
        }
        assert(comp@ =~= part_of(*mask, *g));
    }
    comp
}

/// A group has one start cell.
proof fn start_unique(m: ForegroundMask, g: IconGroup, s: int, t: int)
    requires
        is_start(m, g, s),
        is_start(m, g, t),
    ensures
        s == t,
{
    if !m.ink(g.origin.0 as int, g.origin.1 as int) {
        if s < t {
            assert(containment::box_ink(m, g.bbox)[s]);
        }
        if t < s {
            assert(containment::box_ink(m, g.bbox)[t]);
        }
    }
}

/// The component of a group is one piece: its start reaches every cell through
/// component cells.
pub proof fn part_is_connected(m: ForegroundMask, g: IconGroup, k: int) -> (s: int)
    requires
        m.wf(),
        g.bbox.fits(m.width as int, m.height as int),
        g.bbox.covers(g.origin.0 as int, g.origin.1 as int),
        0 <= k < g.bbox.w * g.bbox.h,
        is_part(m, g, k),
    ensures
        is_start(m, g, s),
        connect::reaches(flood::step8(g.bbox.w as int, part_of(m, g)), s, k),
{
    let ink = containment::box_ink(m, g.bbox);
    let e = flood::step8(g.bbox.w as int, ink);
    let f = flood::step8(g.bbox.w as int, part_of(m, g));
    let s = choose|s: int| #[trigger] is_start(m, g, s) && connect::reaches(e, s, k);
    let keep = |q: int| connect::reaches(e, s, q) && connect::reaches(f, s, q);
    connect::reaches_self(e, s);
    connect::reaches_self(f, s);
    assert forall|x: int, y: int| #[trigger] e(x, y) && keep(x) implies keep(y) by {
        connect::reaches_step(e, s, x, y);
        assert(is_start(m, g, s) && connect::reaches(e, s, x));
        assert(is_part(m, g, x));
        assert(is_start(m, g, s) && connect::reaches(e, s, y));
        assert(is_part(m, g, y));
        assert(f(x, y));
        connect::reaches_step(f, s, x, y);
    }
    connect::reaches_keeps(e, keep, s, k);
    s
}

// ---- the decision for one group -----------------------------------------------------

/// The box is larger than the size gate.
pub open spec fn passes_gate(g: IconGroup, p: SplitParams, mh2: int) -> bool {
    g.bbox.w * g.bbox.h * 4000000 > (p.size_mult * mh2) * (p.size_mult * mh2)
}

/// Some cell of the component is farther from background than the tunables
/// allow.
pub open spec fn is_fat(comp: Seq<bool>, dt: Seq<i32>, p: SplitParams, mh2: int) -> bool {
    exists|k: int|
        0 <= k < comp.len() && #[trigger] comp[k] && dt[k] * 2 > p.max_dt_frac * mh2
}

/// The suppression radius in half thousandths of a pixel, one pixel at least.
pub open spec fn seed_radius(p: SplitParams, mh2: int) -> int {
    if p.seed_radius_frac * mh2 < 2000 {
        2000
    } else {
        p.seed_radius_frac * mh2
    }
}

/// The least distance of a seed, in thousandths of a pixel.
pub open spec fn seed_floor(p: SplitParams, mh2: int) -> int {
    let v = p.seed_min_dt_frac * mh2 / 2;
    if v < i32::MAX {
        v
    } else {
        i32::MAX as int
    }
}

/// How many median-sized icons fit in the box, rounded half up, between one and
/// the seed limit.
pub open spec fn expected_cells(g: IconGroup, p: SplitParams, mh2: int) -> int {
    let raw = (8 * (g.bbox.w * g.bbox.h) + mh2 * mh2) / (2 * (mh2 * mh2));
    if raw < 1 {
        1
    } else if raw < p.max_seeds {
        raw
    } else {
        p.max_seeds as int
    }
}

/// What became of one group.
#[derive(Clone, Debug)]
pub struct SplitOutcome {
    /// The regions, or nothing when the group stays whole.
    pub regions: Vec<IconGroup>,
    /// The group was left alone because it is thick.
    pub fat: bool,
    /// The profile cut was used.
    pub profile: bool,
    /// The seeds were trimmed.
    pub reseed: bool,
    /// Slivers that were reattached.
    pub slivers: u64,
}

/// The outcome for a group that stays whole before any labelling.
pub open spec fn stays_whole(o: SplitOutcome, fat: bool, reseed: bool) -> bool {
    &&& o.regions@.len() == 0
    &&& o.fat == fat
    &&& !o.profile
    &&& o.reseed == reseed
    &&& o.slivers == 0
}

/// The outcome of a labelling: slivers reattached, regions measured, and kept
/// only when there are at least two.
pub open spec fn finishes(comp: Seq<bool>, b: Bbox, p: SplitParams, labels: Seq<i32>, o: SplitOutcome) -> bool {
    let done = regions::settled_labels(comp, b.w as int, labels, p.sliver_frac as int, comp.len());
    &&& regions::labels_ok(comp, labels)
    &&& !o.fat
    &&& o.slivers == regions::settled_count(comp, b.w as int, labels, p.sliver_frac as int, comp.len())
    &&& exists|found: Seq<IconGroup>| #[trigger]
        regions::is_region_list(comp, done, b, found) && o.regions@ == (if found.len() < 2 {
            Seq::<IconGroup>::empty()
        } else {
            found
        })
}

/// The outcome for a component with the given distances, seeds and labels.
pub open spec fn decides(
    comp: Seq<bool>,
    g: IconGroup,
    p: SplitParams,
    mh2: int,
    dt: Seq<i32>,
    seeds: Seq<u32>,
    labels: Seq<i32>,
    o: SplitOutcome,
) -> bool {
    let cw = g.bbox.w as int;
    let ch = g.bbox.h as int;
    let r = seed_radius(p, mh2);
    let want = expected_cells(g, p, mh2);
    if regions::member_count(comp) == 0 {
        stays_whole(o, false, false)
    } else {
        &&& chamfer::is_transform(comp, cw, ch, dt)
        &&& if is_fat(comp, dt, p, mh2) {
            stays_whole(o, true, false)
        } else {
            &&& watershed::is_seed_list(
                comp,
                dt,
                cw,
                r * r,
                seed_floor(p, mh2),
                p.max_seeds as int,
                seeds,
            )
            &&& if p.fallback_enabled && seeds.len() < 2 && want >= 2 {
                &&& o.profile
                &&& !o.reseed
                &&& watershed::is_profile_cut(comp, cw, ch, want, labels)
                &&& finishes(comp, g.bbox, p, labels, o)
            } else {
                let trim = p.fallback_enabled && seeds.len() > want;
                let used = if trim {
                    seeds.take(want)
                } else {
                    seeds
                };
                if used.len() < 2 {
                    stays_whole(o, false, trim)
                } else {
                    &&& !o.profile
                    &&& o.reseed == trim
                    &&& watershed::is_watershed(comp, dt, cw, used, labels)
                    &&& finishes(comp, g.bbox, p, labels, o)
                }
            }
        }
    }
}

/// `o` is the outcome for group `g`.
pub open spec fn is_outcome(m: ForegroundMask, g: IconGroup, p: SplitParams, mh2: int, o: SplitOutcome) -> bool {
    exists|dt: Seq<i32>, seeds: Seq<u32>, labels: Seq<i32>| #[trigger]
        decides(part_of(m, g), g, p, mh2, dt, seeds, labels, o)
}

/// The sheet leaves room for a one-pixel frame.
pub open spec fn has_frame_room(m: ForegroundMask) -> bool {
    (m.width + 2) * (m.height + 2) <= usize::MAX
}

proof fn frame_fits(m: ForegroundMask, b: Bbox)
    requires
        has_frame_room(m),
        b.fits(m.width as int, m.height as int),
    ensures
        (b.w + 2) * (b.h + 2) <= usize::MAX,
        b.w + 2 <= usize::MAX,
        b.h + 2 <= usize::MAX,
{
    assert(b.w + 2 <= (b.w + 2) * (b.h + 2) && b.h + 2 <= (b.w + 2) * (b.h + 2)) by (nonlinear_arith)
        requires
            0 <= b.w,
            0 <= b.h,
    ;
    assert((b.w + 2) * (b.h + 2) <= (m.width + 2) * (m.height + 2)) by (nonlinear_arith)
        requires
            0 <= b.w <= m.width,
            0 <= b.h <= m.height,
    ;
}

proof fn gate_fits(a: u128, b: u128)
    by (nonlinear_arith)
    requires
        a <= 0x7fff_ffff,
        b <= 0x2_0000_0000,
    ensures
        a * b <= 0xffff_ffff_ffff_ffff,
        (a * b) * (a * b) <= 0xffff_ffff_ffff_ffff * 0xffff_ffff_ffff_ffff,
{
}

/// Whether the box of `g` is larger than the size gate.
pub fn exceeds_gate(g: &IconGroup, p: &SplitParams, mh2: u64) -> (r: bool)
    requires
        split_params_ok(*p),
        mh2 <= 0x2_0000_0000,
        g.bbox.w * g.bbox.h <= u32::MAX,
    ensures
        r == passes_gate(*g, *p, mh2 as int),
{
    proof {
        gate_fits(p.size_mult as u128, mh2 as u128);
    }
    let side: u128 = p.size_mult as u128 * mh2 as u128;
    (g.bbox.area() as u128) * 4_000_000 > side * side
}

fn expect(g: &IconGroup, p: &SplitParams, mh2: u64) -> (r: u32)
    requires
        split_params_ok(*p),
        0 < mh2 <= 0x2_0000_0000,
        g.bbox.w * g.bbox.h <= u32::MAX,
    ensures
        r == expected_cells(*g, *p, mh2 as int),
        1 <= r <= p.max_seeds,
{
    let m: u128 = mh2 as u128;
    proof {
        assert(0 < m * m <= 0x2_0000_0000 * 0x2_0000_0000) by (nonlinear_arith)
            requires
                0 < m <= 0x2_0000_0000,
        ;
    }
    let area: u128 = g.bbox.area() as u128;
    let raw: u128 = (8 * area + m * m) / (2 * (m * m));
    if raw < 1 {
        1
    } else if raw < p.max_seeds as u128 {
        raw as u32
    } else {
        p.max_seeds
    }
}

/// Attempts to split one component.
pub fn try_split(g: &IconGroup, mask: &ForegroundMask, mh2: u64, p: &SplitParams) -> (o: SplitOutcome)
    requires
        mask.wf(),
        has_frame_room(*mask),
        g.bbox.fits(mask.width as int, mask.height as int),
        g.bbox.covers(g.origin.0 as int, g.origin.1 as int),
        split_params_ok(*p),
        0 < mh2 <= 0x2_0000_0000,
    ensures
        is_outcome(*mask, *g, *p, mh2 as int, o),
        o.slivers <= mask::MAX_PIXELS,
{
    let b = g.bbox;
    let cw: usize = b.w as usize;
    let ch: usize = b.h as usize;
    proof {
        containment::lemma_box_area(b, mask.width as int, mask.height as int);
        frame_fits(*mask, b);
    }
    let comp = extract_component(mask, g);
    let ghost c = comp@;
    let ghost none_dt: Seq<i32> = Seq::empty();
    let ghost none_seeds: Seq<u32> = Seq::empty();
    let n: usize = comp.len();
    let mut any: bool = false;
    let mut i: usize = 0;
    let ghost f = regions::members(c);
    while i < n
        invariant
            i <= n,
            n == comp@.len(),
            f == regions::members(comp@),
            any == (counting::count_below(f, i as int) > 0),
            counting::count_below(f, i as int) >= 0,
        decreases n - i,
    {
        if comp[i] {
            any = true;
        }
        i = i + 1;
    }
    if !any {
        let o = SplitOutcome {
            regions: Vec::new(),
            fat: false,
            profile: false,
            reseed: false,
            slivers: 0,
        };
        assert(decides(c, *g, *p, mh2 as int, none_dt, none_seeds, none_dt, o));
        return o;
    }
    let dtq = chamfer::distance_transform(cw, ch, &comp);
    let ghost dt = dtq@;
    let limit: u128 = {
        assert(p.max_dt_frac * mh2 <= 0xffff_ffff * 0x2_0000_0000) by (nonlinear_arith)
            requires
                p.max_dt_frac <= 0xffff_ffff,
                mh2 <= 0x2_0000_0000,
        ;
        p.max_dt_frac as u128 * mh2 as u128
    };
    let mut fat: bool = false;
    let mut i: usize = 0;
    while i < n
        invariant
            i <= n,
            n == c.len(),
            c == comp@,
            dt == dtq@,
            dt.len() == n,
            limit == p.max_dt_frac * mh2,
            forall|k: int| 0 <= k < dt.len() ==> 0 <= #[trigger] dt[k] <= chamfer::FAR,
            fat <==> exists|k: int| 0 <= k < i && #[trigger] c[k] && dt[k] * 2 > limit,
        decreases n - i,
    {
        assert(0 <= dt[i as int] <= chamfer::FAR);
        if comp[i] && dtq[i] as u128 * 2 > limit {
            fat = true;
            assert(c[i as int] && dt[i as int] * 2 > limit);
        }
        i = i + 1;
    }
    if fat {
        let o = SplitOutcome {
            regions: Vec::new(),
            fat: true,
            profile: false,
            reseed: false,
            slivers: 0,
        };
        assert(decides(c, *g, *p, mh2 as int, dt, none_seeds, none_dt, o));
        return o;
    }
    proof {
        gate_fits(p.seed_radius_frac as u128, mh2 as u128);
        assert(p.seed_min_dt_frac * mh2 <= 0xffff_ffff * 0x2_0000_0000) by (nonlinear_arith)
            requires
                p.seed_min_dt_frac <= 0xffff_ffff,
                mh2 <= 0x2_0000_0000,
        ;
        assert(2000 * 2000 <= 0xffff_ffff);
    }
    let raw_r: u128 = p.seed_radius_frac as u128 * mh2 as u128;
    let radius: u128 = if raw_r < 2000 {
        2000
    } else {
        raw_r
    };
    let raw_floor: u128 = p.seed_min_dt_frac as u128 * mh2 as u128 / 2;
    let floor: i64 = if raw_floor < i32::MAX as u128 {
        raw_floor as i64
    } else {
        i32::MAX as i64
    };
    let mut seeds = watershed::nms_seeds(&comp, &dtq, cw, radius * radius, floor, p.max_seeds);
    let ghost sd = seeds@;
    proof {
        assert(radius == seed_radius(*p, mh2 as int));
        assert(floor == seed_floor(*p, mh2 as int));
        assert(0 < radius * radius) by (nonlinear_arith)
            requires
                2000 <= radius,
        ;
        watershed::seeds_are_members(
            c,
            dt,
            cw as int,
            radius * radius,
            floor as int,
            p.max_seeds as int,
            sd,
        );
    }
    let want: u32 = expect(g, p, mh2);
    let profile: bool = p.fallback_enabled && seeds.len() < 2 && want >= 2;
    let mut reseed: bool = false;
    let labels: Vec<i32>;
    if profile {
        labels = watershed::profile_cut(&comp, cw, ch, want as usize);
    } else {
        if p.fallback_enabled && seeds.len() > want as usize {
            seeds.truncate(want as usize);
            reseed = true;
        }
        if seeds.len() < 2 {
            let o = SplitOutcome {
                regions: Vec::new(),
                fat: false,
                profile: false,
                reseed,
                slivers: 0,
            };
            assert(decides(c, *g, *p, mh2 as int, dt, sd, none_dt, o));
            return o;
        }
        proof {
            seeds_few(c, seeds@);
        }
        labels = watershed::watershed(&comp, &dtq, cw, ch, &seeds);
        proof {
            watershed::watershed_stays_inside(c, dt, cw as int, seeds@, labels@);
        }
    }
    let ghost lb = labels@;
    assert(regions::labels_ok(c, lb));
    let (done, slivers) = regions::reattach_slivers(&comp, cw, ch, labels, p.sliver_frac);
    let found = regions::regions_to_groups(&comp, &done, &b);
    let kept: Vec<IconGroup> = if found.len() < 2 {
        Vec::new()
    } else {
        found
    };
    let o = SplitOutcome { regions: kept, fat: false, profile, reseed, slivers };
    assert(finishes(c, b, *p, lb, o));
    assert(decides(c, *g, *p, mh2 as int, dt, sd, lb, o));
    o
}

/// Distinct cells of a component are no more than its cells.
proof fn seeds_few(comp: Seq<bool>, seeds: Seq<u32>)
    requires
        forall|i: int| 0 <= i < seeds.len() ==> (#[trigger] seeds[i]) < comp.len(),
        forall|i: int, j: int| 0 <= i < j < seeds.len() ==> #[trigger] seeds[i] != #[trigger] seeds[j],
    ensures
        seeds.len() <= comp.len(),
{
    let t = seeds.map_values(|x: u32| x as int);
    let s = t.to_set();
    assert(t.no_duplicates()) by {
        assert forall|i: int, j: int| 0 <= i < t.len() && 0 <= j < t.len() && i != j implies t[i]
            != t[j] by {
            if i < j {
                assert(seeds[i] != seeds[j]);
            } else {
                assert(seeds[j] != seeds[i]);
            }
        }
    }
    t.unique_seq_to_set();
    let n = comp.len() as int;
    let r = vstd::set_lib::set_int_range(0, n);
    vstd::set_lib::lemma_int_range(0, n);
    assert(s.subset_of(r)) by {
        assert forall|x: int| s.contains(x) implies r.contains(x) by {
            let i = choose|i: int| 0 <= i < t.len() && t[i] == x;
            assert(seeds[i] < comp.len());
        }
    }
    vstd::set_lib::lemma_len_subset(s, r);
}

// ---- all groups -----------------------------------------------------------------------

/// Group `g` is a candidate: past the size gate, or anyone when it is skipped.
pub open spec fn is_candidate(g: IconGroup, p: SplitParams, mh2: int, forced: bool) -> bool {
    forced || passes_gate(g, p, mh2)
}

/// `outs` gives the outcome of every candidate.
pub open spec fn are_outcomes(
    m: ForegroundMask,
    groups: Seq<IconGroup>,
    p: SplitParams,
    mh2: int,
    forced: bool,
    outs: Seq<Option<SplitOutcome>>,
) -> bool {
    &&& outs.len() == groups.len()
    &&& forall|i: int|
        0 <= i < groups.len() ==> match #[trigger] outs[i] {
            Some(o) => is_candidate(groups[i], p, mh2, forced) && is_outcome(
                m,
                groups[i],
                p,
                mh2,
                o,
            ),
            None => !is_candidate(groups[i], p, mh2, forced),
        }
}

/// What stands for a group afterwards: its regions, or the group itself.
pub open spec fn pieces_for(g: IconGroup, o: Option<SplitOutcome>) -> Seq<IconGroup> {
    match o {
        Some(v) => if v.regions@.len() > 0 {
            v.regions@
        } else {
            seq![g]
        },
        None => seq![g],
    }
}

/// The counters of one outcome.
pub open spec fn bump(s: SplitStats, o: Option<SplitOutcome>) -> SplitStats {
    match o {
        None => s,
        Some(v) => {
            let hit: int = if v.regions@.len() > 0 {
                1
            } else {
                0
            };
            SplitStats {
                candidates: (s.candidates + 1) as u64,
                split: (s.split + hit) as u64,
                regions: (s.regions + v.regions@.len()) as u64,
                slivers: (s.slivers + v.slivers) as u64,
                fallback_profile: (s.fallback_profile + (if v.profile {
                    1int
                } else {
                    0int
                })) as u64,
                fallback_reseed: (s.fallback_reseed + (if v.reseed {
                    1int
                } else {
                    0int
                })) as u64,
                skipped_fat: (s.skipped_fat + (if v.fat {
                    1int
                } else {
                    0int
                })) as u64,
                skipped_no_structure: (s.skipped_no_structure + (1 - hit)) as u64,
            }
        },
    }
}

/// The counters after the first `n` outcomes.
pub open spec fn bumped(s: SplitStats, outs: Seq<Option<SplitOutcome>>, n: int) -> SplitStats
    decreases n,
{
    if n <= 0 {
        s
    } else {
        bump(bumped(s, outs, n - 1), outs[n - 1])
    }
}

/// No counter is near its limit.
pub open spec fn stats_room(s: SplitStats) -> bool {
    &&& s.candidates <= 0xffff_ffff_ffff
    &&& s.split <= 0xffff_ffff_ffff
    &&& s.regions <= 0xff_ffff_ffff_ffff
    &&& s.slivers <= 0xff_ffff_ffff_ffff
    &&& s.fallback_profile <= 0xffff_ffff_ffff
    &&& s.fallback_reseed <= 0xffff_ffff_ffff
    &&& s.skipped_fat <= 0xffff_ffff_ffff
    &&& s.skipped_no_structure <= 0xffff_ffff_ffff
}

/// The counters stay within what `n` outcomes can add.
pub open spec fn stats_within(s: SplitStats, a: SplitStats, n: int) -> bool {
    &&& a.candidates <= s.candidates + n
    &&& a.split <= s.split + n
    &&& a.regions <= s.regions + n * mask::MAX_PIXELS
    &&& a.slivers <= s.slivers + n * mask::MAX_PIXELS
    &&& a.fallback_profile <= s.fallback_profile + n
    &&& a.fallback_reseed <= s.fallback_reseed + n
    &&& a.skipped_fat <= s.skipped_fat + n
    &&& a.skipped_no_structure <= s.skipped_no_structure + n
}

/// The pieces of every group, index-aligned with `groups`.
pub open spec fn are_pieces(groups: Seq<IconGroup>, outs: Seq<Option<SplitOutcome>>, pieces: Seq<Vec<IconGroup>>) -> bool {
    &&& pieces.len() == groups.len()
    &&& forall|i: int|
        0 <= i < groups.len() ==> (#[trigger] pieces[i])@ == pieces_for(groups[i], outs[i])
}

/// A measured region lies in its box, with its first cell inside.
proof fn region_fits(comp: Seq<bool>, labels: Seq<i32>, off: Bbox, l: int, g: IconGroup)
    requires
        0 < off.w,
        0 < off.h,
        comp.len() == off.w * off.h,
        regions::is_region_group(comp, labels, off, l, g),
    ensures
        g.bbox.w > 0,
        g.bbox.h > 0,
        off.x <= g.bbox.x,
        off.y <= g.bbox.y,
        g.bbox.right() <= off.right(),
        g.bbox.bottom() <= off.bottom(),
        g.bbox.covers(g.origin.0 as int, g.origin.1 as int),
{
    let n = comp.len() as int;
    let w = off.w as int;
    let h = off.h as int;
    let a = choose|k: int|
        0 <= k < n && #[trigger] regions::in_region(comp, labels, l)(k) && regions::sheet_pixel(
            off,
            k,
        ).0 == g.bbox.x;
    let b = choose|k: int|
        0 <= k < n && #[trigger] regions::in_region(comp, labels, l)(k) && regions::sheet_pixel(
            off,
            k,
        ).0 == g.bbox.right() - 1;
    let c = choose|k: int|
        0 <= k < n && #[trigger] regions::in_region(comp, labels, l)(k) && regions::sheet_pixel(
            off,
            k,
        ).1 == g.bbox.y;
    let d = choose|k: int|
        0 <= k < n && #[trigger] regions::in_region(comp, labels, l)(k) && regions::sheet_pixel(
            off,
            k,
        ).1 == g.bbox.bottom() - 1;
    mask::lemma_pixel_split(w, h, a);
    mask::lemma_pixel_split(w, h, b);
    mask::lemma_pixel_split(w, h, c);
    mask::lemma_pixel_split(w, h, d);
    let k = choose|k: int| #[trigger]
        regions::is_first_cell(comp, labels, l, k) && regions::sheet_pixel(off, k)
            == group::origin_of(g);
    assert(regions::in_region(comp, labels, l)(k));
}

/// The regions of an outcome lie in the group's box.
pub proof fn outcome_fits(m: ForegroundMask, g: IconGroup, p: SplitParams, mh2: int, o: SplitOutcome, i: int)
    requires
        m.wf(),
        g.bbox.fits(m.width as int, m.height as int),
        is_outcome(m, g, p, mh2, o),
        0 <= i < o.regions@.len(),
    ensures
        o.regions@.len() >= 2,
        o.regions@.len() <= mask::MAX_PIXELS,
        o.regions@[i].bbox.fits(m.width as int, m.height as int),
        o.regions@[i].bbox.covers(
            o.regions@[i].origin.0 as int,
            o.regions@[i].origin.1 as int,
        ),
        g.bbox.x <= o.regions@[i].bbox.x,
        g.bbox.y <= o.regions@[i].bbox.y,
        o.regions@[i].bbox.right() <= g.bbox.right(),
        o.regions@[i].bbox.bottom() <= g.bbox.bottom(),
        o.regions@[i].area > 0,
{
    containment::lemma_box_area(g.bbox, m.width as int, m.height as int);
    let comp = part_of(m, g);
    let (dt, seeds, labels) = choose|dt: Seq<i32>, seeds: Seq<u32>, labels: Seq<i32>| #[trigger]
        decides(comp, g, p, mh2, dt, seeds, labels, o);
    assert(finishes(comp, g.bbox, p, labels, o));
    let done = regions::settled_labels(comp, g.bbox.w as int, labels, p.sliver_frac as int, comp.len());
    let found = choose|found: Seq<IconGroup>| #[trigger]
        regions::is_region_list(comp, done, g.bbox, found) && o.regions@ == (if found.len() < 2 {
            Seq::<IconGroup>::empty()
        } else {
            found
        });
    let names = choose|names: Seq<int>| #[trigger]
        regions::lists_regions(comp, done, g.bbox, names, found);
    assert(0 <= names[i] < comp.len());
    region_fits(comp, done, g.bbox, names[i], found[i]);
    names_few(names, comp.len() as int);
}

proof fn names_few(names: Seq<int>, n: int)
    requires
        0 <= n,
        forall|i: int| 0 <= i < names.len() ==> 0 <= #[trigger] names[i] < n,
        forall|i: int, j: int| 0 <= i < j < names.len() ==> #[trigger] names[i] != #[trigger] names[j],
    ensures
        names.len() <= n,
{
    let s = names.to_set();
    assert(names.no_duplicates()) by {
        assert forall|i: int, j: int|
            0 <= i < names.len() && 0 <= j < names.len() && i != j implies names[i] != names[j] by {
            if i < j {
                assert(names[i] != names[j]);
            } else {
                assert(names[j] != names[i]);
            }
        }
    }
    names.unique_seq_to_set();
    let r = vstd::set_lib::set_int_range(0, n);
    vstd::set_lib::lemma_int_range(0, n);
    assert(s.subset_of(r)) by {
        assert forall|x: int| s.contains(x) implies r.contains(x) by {
            let i = choose|i: int| 0 <= i < names.len() && names[i] == x;
            assert(0 <= names[i] < n);
        }
    }
    vstd::set_lib::lemma_len_subset(s, r);
}

/// Splits every candidate; everyone else passes through. The pieces of group
/// `i` stand at index `i`. With `forced` set the size gate is skipped.
pub fn split_pieces(
    groups: &Vec<IconGroup>,
    mask: &ForegroundMask,
    mh2: u64,
    p: &SplitParams,
    forced: bool,
    stats: &mut SplitStats,
) -> (r: Vec<Vec<IconGroup>>)
    requires
        mask.wf(),
        has_frame_room(*mask),
        containment::groups_fit(*mask, groups@),
        groups@.len() <= MAX_GROUPS,
        split_params_ok(*p),
        0 < mh2 <= 0x2_0000_0000,
        stats_room(*old(stats)),
    ensures
        exists|outs: Seq<Option<SplitOutcome>>| #[trigger]
            are_outcomes(*mask, groups@, *p, mh2 as int, forced, outs) && are_pieces(
                groups@,
                outs,
                r@,
            ) && *final(stats) == bumped(*old(stats), outs, groups@.len() as int),
        stats_within(*old(stats), *final(stats), groups@.len() as int),
{
    let n: usize = groups.len();
    let ghost s0 = *stats;
    let ghost mut outs: Seq<Option<SplitOutcome>> = Seq::empty();
    let mut pieces: Vec<Vec<IconGroup>> = Vec::new();
    let mut i: usize = 0;
    while i < n
        invariant
            i <= n,
            n == groups@.len(),
            n <= MAX_GROUPS,
            mask.wf(),
            has_frame_room(*mask),
            containment::groups_fit(*mask, groups@),
            split_params_ok(*p),
            0 < mh2 <= 0x2_0000_0000,
            stats_room(s0),
            outs.len() == i,
            pieces@.len() == i,
            forall|k: int|
                0 <= k < i ==> match #[trigger] outs[k] {
                    Some(o) => is_candidate(groups@[k], *p, mh2 as int, forced) && is_outcome(
                        *mask,
                        groups@[k],
                        *p,
                        mh2 as int,
                        o,
                    ),
                    None => !is_candidate(groups@[k], *p, mh2 as int, forced),
                },
            forall|k: int|
                0 <= k < i ==> (#[trigger] pieces@[k])@ == pieces_for(groups@[k], outs[k]),
            *stats == bumped(s0, outs, i as int),
            stats_within(s0, *stats, i as int),
        decreases n - i,
    {
        let g = groups[i];
        let ghost outs0 = outs;
        proof {
            assert(groups@[i as int].bbox.fits(mask.width as int, mask.height as int));
            containment::lemma_box_area(g.bbox, mask.width as int, mask.height as int);
            assert(i * mask::MAX_PIXELS + mask::MAX_PIXELS == (i + 1) * mask::MAX_PIXELS);
        }
        let mut piece: Vec<IconGroup> = Vec::new();
        if !forced && !exceeds_gate(&g, p, mh2) {
            piece.push(g);
            proof {
                outs = outs.push(None);
                assert(piece@ =~= seq![g]);
            }
        } else {
            let o = try_split(&g, mask, mh2, p);
            proof {
                outs = outs.push(Some(o));
                if o.regions@.len() > 0 {
                    outcome_fits(*mask, g, *p, mh2 as int, o, 0);
                }
            }
            stats.candidates = stats.candidates + 1;
            stats.slivers = stats.slivers + o.slivers;
            if o.profile {
                stats.fallback_profile = stats.fallback_profile + 1;
            }
            if o.reseed {
                stats.fallback_reseed = stats.fallback_reseed + 1;
            }
            if o.fat {
                stats.skipped_fat = stats.skipped_fat + 1;
            }
            if o.regions.len() > 0 {
                stats.split = stats.split + 1;
                stats.regions = stats.regions + o.regions.len() as u64;
                piece = o.regions;
            } else {
                stats.skipped_no_structure = stats.skipped_no_structure + 1;
                piece.push(g);
                assert(piece@ =~= seq![g]);
            }
        }
        pieces.push(piece);
        proof {
            bumped_prefix(s0, outs0, outs, i as int);
            assert(*stats == bump(bumped(s0, outs, i as int), outs[i as int]));
        }
        i = i + 1;
    }
    assert(are_outcomes(*mask, groups@, *p, mh2 as int, forced, outs));
    assert(are_pieces(groups@, outs, pieces@));
    pieces
}

proof fn bumped_prefix(s: SplitStats, a: Seq<Option<SplitOutcome>>, b: Seq<Option<SplitOutcome>>, n: int)
    requires
        n <= a.len() <= b.len(),
        forall|k: int| 0 <= k < n ==> #[trigger] a[k] == b[k],
    ensures
        bumped(s, a, n) == bumped(s, b, n),
    decreases n,
{
    if n > 0 {
        bumped_prefix(s, a, b, n - 1);
        assert(a[n - 1] == b[n - 1]);
    }
}

/// All pieces in one list, in group order.
pub open spec fn flattened(pieces: Seq<Vec<IconGroup>>, n: int) -> Seq<IconGroup>
    decreases n,
{
    if n <= 0 {
        Seq::empty()
    } else {
        flattened(pieces, n - 1) + pieces[n - 1]@
    }
}

/// Puts all pieces into one list.
pub fn flatten(pieces: &Vec<Vec<IconGroup>>) -> (r: Vec<IconGroup>)
    ensures
        r@ == flattened(pieces@, pieces@.len() as int),
{
    let mut out: Vec<IconGroup> = Vec::new();
    let mut i: usize = 0;
    while i < pieces.len()
        invariant
            i <= pieces@.len(),
            out@ == flattened(pieces@, i as int),
        decreases pieces@.len() - i,
    {
        let ghost out0 = out@;
        let mut j: usize = 0;
        let piece = &pieces[i];
        while j < piece.len()
            invariant
                j <= piece@.len(),
                out@ == out0 + piece@.take(j as int),
            decreases piece@.len() - j,
        {
            out.push(piece[j]);
            assert(piece@.take(j + 1) =~= piece@.take(j as int).push(piece@[j as int]));
            j = j + 1;
        }
        assert(piece@.take(piece@.len() as int) =~= piece@);
        i = i + 1;
    }
    out
}

/// Splits the over-merged groups; the result is in canonical order. Nothing
/// changes when the stage is off or there is no median height.
pub fn split_overmerged(
    groups: &Vec<IconGroup>,
    mask: &ForegroundMask,
    mh2: u64,
    p: &SplitParams,
    stats: &mut SplitStats,
) -> (r: Vec<IconGroup>)
    requires
        mask.wf(),
        has_frame_room(*mask),
        containment::groups_fit(*mask, groups@),
        groups@.len() <= MAX_GROUPS,
        split_params_ok(*p),
        mh2 <= 0x2_0000_0000,
        stats_room(*old(stats)),
    ensures
        !p.enabled || mh2 == 0 ==> r@ == groups@ && *final(stats) == *old(stats),
        p.enabled && mh2 > 0 ==> exists|outs: Seq<Option<SplitOutcome>>, pieces: Seq<Vec<IconGroup>>|
            #![trigger are_pieces(groups@, outs, pieces)]
            are_outcomes(*mask, groups@, *p, mh2 as int, false, outs) && are_pieces(
                groups@,
                outs,
                pieces,
            ) && *final(stats) == bumped(*old(stats), outs, groups@.len() as int)
                && group::is_sorted_listing(flattened(pieces, pieces.len() as int), r@),
{
    if !p.enabled || mh2 == 0 {
        let mut out: Vec<IconGroup> = Vec::new();
        let mut i: usize = 0;
        while i < groups.len()
            invariant
                i <= groups@.len(),
                out@ == groups@.take(i as int),
            decreases groups@.len() - i,
        {
            out.push(groups[i]);
            assert(groups@.take(i + 1) =~= groups@.take(i as int).push(groups@[i as int]));
            i = i + 1;
        }
        assert(groups@.take(groups@.len() as int) =~= groups@);
        return out;
    }
    let pieces = split_pieces(groups, mask, mh2, p, false, stats);
    let flat = flatten(&pieces);
    group::sort_groups(&flat)
}

/// Splits `groups` with the size gate skipped: the caller has other evidence
/// that they are merges. Also returns how many were split and into how many
/// regions.
pub fn resplit_forced(
    groups: &Vec<IconGroup>,
    mask: &ForegroundMask,
    mh2: u64,
    p: &SplitParams,
    stats: &mut SplitStats,
) -> (r: (Vec<Vec<IconGroup>>, u64, u64))
    requires
        mask.wf(),
        has_frame_room(*mask),
        containment::groups_fit(*mask, groups@),
        groups@.len() <= MAX_GROUPS,
        split_params_ok(*p),
        mh2 <= 0x2_0000_0000,
        stats_room(*old(stats)),
    ensures
        !p.enabled || mh2 == 0 ==> *final(stats) == *old(stats) && r.0@.len() == groups@.len() && (
        forall|i: int| 0 <= i < groups@.len() ==> (#[trigger] r.0@[i])@ == seq![groups@[i]]) && r.1
            == 0 && r.2 == 0,
        p.enabled && mh2 > 0 ==> exists|outs: Seq<Option<SplitOutcome>>| #[trigger]
            are_outcomes(*mask, groups@, *p, mh2 as int, true, outs) && are_pieces(
                groups@,
                outs,
                r.0@,
            ) && *final(stats) == bumped(*old(stats), outs, groups@.len() as int) && r.1
                == final(stats).split - old(stats).split && r.2 == final(stats).regions - old(
                stats,
            ).regions,
        stats_within(*old(stats), *final(stats), groups@.len() as int),
{
    if !p.enabled || mh2 == 0 {
        let mut out: Vec<Vec<IconGroup>> = Vec::new();
        let mut i: usize = 0;
        while i < groups.len()
            invariant
                i <= groups@.len(),
                out@.len() == i,
                forall|k: int| 0 <= k < i ==> (#[trigger] out@[k])@ == seq![groups@[k]],
            decreases groups@.len() - i,
        {
            let mut one: Vec<IconGroup> = Vec::new();
            one.push(groups[i]);
            assert(one@ =~= seq![groups@[i as int]]);
            out.push(one);
            i = i + 1;
        }
        return (out, 0, 0);
    }
    let ghost s0 = *stats;
    let split0: u64 = stats.split;
    let regions0: u64 = stats.regions;
    let pieces = split_pieces(groups, mask, mh2, p, true, stats);
    proof {
        let outs = choose|outs: Seq<Option<SplitOutcome>>| #[trigger]
            are_outcomes(*mask, groups@, *p, mh2 as int, true, outs) && are_pieces(
                groups@,
                outs,
                pieces@,
            ) && *stats == bumped(s0, outs, groups@.len() as int);
        outcomes_grow(*mask, groups@, *p, mh2 as int, true, s0, outs, groups@.len() as int);
    }
    (pieces, stats.split - split0, stats.regions - regions0)
}

/// Counters only grow.
proof fn outcomes_grow(
    m: ForegroundMask,
    groups: Seq<IconGroup>,
    p: SplitParams,
    mh2: int,
    forced: bool,
    s: SplitStats,
    outs: Seq<Option<SplitOutcome>>,
    n: int,
)
    requires
        m.wf(),
        containment::groups_fit(m, groups),
        are_outcomes(m, groups, p, mh2, forced, outs),
        stats_room(s),
        0 <= n <= groups.len() <= MAX_GROUPS,
    ensures
        s.split <= bumped(s, outs, n).split <= s.split + n,
        s.regions <= bumped(s, outs, n).regions <= s.regions + n * mask::MAX_PIXELS,
    decreases n,
{
    if n > 0 {
        outcomes_grow(m, groups, p, mh2, forced, s, outs, n - 1);
        assert((n - 1) * mask::MAX_PIXELS + mask::MAX_PIXELS == n * mask::MAX_PIXELS);
        match outs[n - 1] {
            Some(o) => {
                assert(groups[n - 1].bbox.fits(m.width as int, m.height as int));
                if o.regions@.len() > 0 {
                    outcome_fits(m, groups[n - 1], p, mh2, o, 0);
                }
            },
            None => {},
        }
    }
}

// ---- laws ------------------------------------------------------------------------------

/// A split conserves ink: the regions of a component partition it, so their
/// areas add up to the area of the component.
pub proof fn split_conserves_ink(m: ForegroundMask, g: IconGroup, p: SplitParams, mh2: int, o: SplitOutcome)
    requires
        m.wf(),
        g.bbox.fits(m.width as int, m.height as int),
        g.bbox.covers(g.origin.0 as int, g.origin.1 as int),
        split_params_ok(p),
        0 < mh2 <= 0x2_0000_0000,
        is_outcome(m, g, p, mh2, o),
        o.regions@.len() > 0,
    ensures
        counting::sum_below(regions::areas_of(o.regions@), o.regions@.len() as int)
            == regions::member_count(part_of(m, g)),
{
    containment::lemma_box_area(g.bbox, m.width as int, m.height as int);
    let comp = part_of(m, g);
    let cw = g.bbox.w as int;
    let ch = g.bbox.h as int;
    let (dt, seeds, labels) = choose|dt: Seq<i32>, seeds: Seq<u32>, labels: Seq<i32>| #[trigger]
        decides(comp, g, p, mh2, dt, seeds, labels, o);
    assert(finishes(comp, g.bbox, p, labels, o));
    let frac = p.sliver_frac as int;
    let done = regions::settled_labels(comp, cw, labels, frac, comp.len());
    let want = expected_cells(g, p, mh2);
    let n = comp.len() as int;
    let r = seed_radius(p, mh2);
    if p.fallback_enabled && seeds.len() < 2 && want >= 2 {
        watershed::profile_cut_is_total(comp, cw, ch, want, labels);
    } else {
        let used = if p.fallback_enabled && seeds.len() > want {
            seeds.take(want)
        } else {
            seeds
        };
        assert(0 < r * r) by (nonlinear_arith)
            requires
                r >= 2000,
        ;
        watershed::seeds_are_members(
            comp,
            dt,
            cw,
            r * r,
            seed_floor(p, mh2),
            p.max_seeds as int,
            seeds,
        );
        assert forall|i: int| 0 <= i < used.len() implies (#[trigger] used[i]) < comp.len()
            && comp[used[i] as int] by {
            assert(used[i] == seeds[i]);
        }
        let k0 = used[0] as int;
        let start = part_is_connected(m, g, k0);
        assert forall|k: int| 0 <= k < comp.len() && #[trigger] comp[k] implies connect::reaches(
            flood::step8(cw, comp),
            start,
            k,
        ) by {
            let s = part_is_connected(m, g, k);
            start_unique(m, g, s, start);
        }
        watershed::watershed_is_total(comp, dt, cw, used, labels, start);
    }
    assert forall|k: int| 0 <= k < n implies #[trigger] regions::labelled(comp, done)(k)
        == regions::members(comp)(k) by {
        if comp[k] {
            assert(labels[k] >= 0);
            regions::reattach_keeps_labels(comp, cw, labels, frac, comp.len(), k);
        }
    }
    counting::count_ext(regions::labelled(comp, done), regions::members(comp), n);
    let found = choose|found: Seq<IconGroup>| #[trigger]
        regions::is_region_list(comp, done, g.bbox, found) && o.regions@ == (if found.len() < 2 {
            Seq::<IconGroup>::empty()
        } else {
            found
        });
    regions::reattach_keeps_range(comp, cw, labels, frac, comp.len());
    regions::regions_conserve_ink(comp, done, g.bbox, found);
}

/// Two outcomes are the same.
pub open spec fn same_outcome(a: SplitOutcome, b: SplitOutcome) -> bool {
    &&& a.regions@ == b.regions@
    &&& a.fat == b.fat
    &&& a.profile == b.profile
    &&& a.reseed == b.reseed
    &&& a.slivers == b.slivers
}

proof fn finishes_one(comp: Seq<bool>, b: Bbox, p: SplitParams, labels: Seq<i32>, x: SplitOutcome, y: SplitOutcome)
    requires
        finishes(comp, b, p, labels, x),
        finishes(comp, b, p, labels, y),
    ensures
        x.regions@ == y.regions@,
        x.slivers == y.slivers,
{
    let done = regions::settled_labels(comp, b.w as int, labels, p.sliver_frac as int, comp.len());
    let f = choose|found: Seq<IconGroup>| #[trigger]
        regions::is_region_list(comp, done, b, found) && x.regions@ == (if found.len() < 2 {
            Seq::<IconGroup>::empty()
        } else {
            found
        });
    let g = choose|found: Seq<IconGroup>| #[trigger]
        regions::is_region_list(comp, done, b, found) && y.regions@ == (if found.len() < 2 {
            Seq::<IconGroup>::empty()
        } else {
            found
        });
    regions::regions_are_unique(comp, done, b, f, g);
}

/// A group is split in one way under given parameters.
pub proof fn split_is_determined(
    m: ForegroundMask,
    g: IconGroup,
    p: SplitParams,
    mh2: int,
    a: SplitOutcome,
    b: SplitOutcome,
)
    requires
        is_outcome(m, g, p, mh2, a),
        is_outcome(m, g, p, mh2, b),
        g.bbox.w * g.bbox.h <= u32::MAX,
    ensures
        same_outcome(a, b),
{
    let comp = part_of(m, g);
    let cw = g.bbox.w as int;
    let ch = g.bbox.h as int;
    let (d1, s1, l1) = choose|dt: Seq<i32>, seeds: Seq<u32>, labels: Seq<i32>| #[trigger]
        decides(comp, g, p, mh2, dt, seeds, labels, a);
    let (d2, s2, l2) = choose|dt: Seq<i32>, seeds: Seq<u32>, labels: Seq<i32>| #[trigger]
        decides(comp, g, p, mh2, dt, seeds, labels, b);
    if regions::member_count(comp) != 0 {
        chamfer::transform_is_unique(comp, cw, ch, d1, d2);
        if !is_fat(comp, d1, p, mh2) {
            let r = seed_radius(p, mh2);
            let want = expected_cells(g, p, mh2);
            let floor = seed_floor(p, mh2);
            let cap = p.max_seeds as int;
            watershed::seeds_are_unique(comp, d1, cw, r * r, floor, cap, s1, s2);
            if p.fallback_enabled && s1.len() < 2 && want >= 2 {
                watershed::profile_cut_is_unique(comp, cw, ch, want, l1, l2);
                finishes_one(comp, g.bbox, p, l1, a, b);
            } else {
                let trim = p.fallback_enabled && s1.len() > want;
                let used = if trim {
                    s1.take(want)
                } else {
                    s1
                };
                if used.len() >= 2 {
                    assert(r * r > 0) by (nonlinear_arith)
                        requires
                            r >= 2000,
                    ;
                    watershed::seeds_are_distinct(comp, d1, cw, r * r, floor, cap, s1);
                    watershed::watershed_is_unique(comp, d1, cw, used, l1, l2);
                    finishes_one(comp, g.bbox, p, l1, a, b);
                }
            }
        }
    }
    assert(a.regions@ =~= b.regions@);
}

/// All groups are split in one way under given parameters.
pub proof fn outcomes_are_determined(
    m: ForegroundMask,
    groups: Seq<IconGroup>,
    p: SplitParams,
    mh2: int,
    forced: bool,
    a: Seq<Option<SplitOutcome>>,
    b: Seq<Option<SplitOutcome>>,
)
    requires
        m.wf(),
        are_outcomes(m, groups, p, mh2, forced, a),
        are_outcomes(m, groups, p, mh2, forced, b),
        forall|i: int|
            0 <= i < groups.len() ==> (#[trigger] groups[i]).bbox.fits(m.width as int, m.height as int),
    ensures
        a.len() == b.len(),
        forall|i: int|
            0 <= i < a.len() ==> match (#[trigger] a[i], b[i]) {
                (Some(x), Some(y)) => same_outcome(x, y),
                (None, None) => true,
                _ => false,
            },
{
    assert forall|i: int| 0 <= i < a.len() implies match (#[trigger] a[i], b[i]) {
        (Some(x), Some(y)) => same_outcome(x, y),
        (None, None) => true,
        _ => false,
    } by {
        assert(b[i] is Some || b[i] is None);
        if let (Some(x), Some(y)) = (a[i], b[i]) {
            assert(groups[i].bbox.fits(m.width as int, m.height as int));
            containment::lemma_box_area(groups[i].bbox, m.width as int, m.height as int);
            split_is_determined(m, groups[i], p, mh2, x, y);
        }
    }
}

/// Outcomes that are the same count the same.
pub proof fn bumped_same(s: SplitStats, a: Seq<Option<SplitOutcome>>, b: Seq<Option<SplitOutcome>>, n: int)
    requires
        0 <= n <= a.len(),
        a.len() == b.len(),
        forall|i: int|
            0 <= i < a.len() ==> match (#[trigger] a[i], b[i]) {
                (Some(x), Some(y)) => same_outcome(x, y),
                (None, None) => true,
                _ => false,
            },
    ensures
        bumped(s, a, n) == bumped(s, b, n),
    decreases n,
{
    if n > 0 {
        bumped_same(s, a, b, n - 1);
        assert(a[n - 1] is Some || a[n - 1] is None);
    }
}

// ---- what never happens -------------------------------------------------------------

/// A component with a cell farther from background than the tunables allow is
/// never split: it stays as it is.
pub proof fn thick_groups_stay_whole(
    m: ForegroundMask,
    g: IconGroup,
    p: SplitParams,
    mh2: int,
    dt: Seq<i32>,
    o: SplitOutcome,
)
    requires
        is_outcome(m, g, p, mh2, o),
        chamfer::is_transform(part_of(m, g), g.bbox.w as int, g.bbox.h as int, dt),
        is_fat(part_of(m, g), dt, p, mh2),
    ensures
        o.regions@.len() == 0,
        pieces_for(g, Some(o)) == seq![g],
{
    let comp = part_of(m, g);
    let cw = g.bbox.w as int;
    let ch = g.bbox.h as int;
    let (own, seeds, labels) = choose|own: Seq<i32>, seeds: Seq<u32>, labels: Seq<i32>| #[trigger]
        decides(comp, g, p, mh2, own, seeds, labels, o);
    if regions::member_count(comp) != 0 {
        assert(comp.len() == cw * ch) by (nonlinear_arith)
            requires
                comp.len() == (cw * ch) as nat,
                cw >= 0,
                ch >= 0,
        ;
        chamfer::transform_is_unique(comp, cw, ch, own, dt);
    }
}

/// A split leaves at least two regions, or the group as it was.
pub proof fn splits_have_two_regions(m: ForegroundMask, g: IconGroup, p: SplitParams, mh2: int, o: SplitOutcome)
    requires
        is_outcome(m, g, p, mh2, o),
    ensures
        o.regions@.len() == 0 || o.regions@.len() >= 2,
{
}

/// A group whose box is no larger than the size limit is left as it is, unless
/// the limit is skipped.
pub proof fn small_groups_stay_whole(
    m: ForegroundMask,
    groups: Seq<IconGroup>,
    p: SplitParams,
    mh2: int,
    outs: Seq<Option<SplitOutcome>>,
    i: int,
)
    requires
        are_outcomes(m, groups, p, mh2, false, outs),
        0 <= i < groups.len(),
        !passes_gate(groups[i], p, mh2),
    ensures
        pieces_for(groups[i], outs[i]) == seq![groups[i]],
{
    assert(outs[i] is None);
}

// ---- what a split does --------------------------------------------------------------

/// Only groups whose box is larger than the square of the size factor times the
/// median height are looked at; `mh2` is twice that height.
pub proof fn only_large_boxes_are_looked_at(
    m: ForegroundMask,
    groups: Seq<IconGroup>,
    p: SplitParams,
    mh2: int,
    outs: Seq<Option<SplitOutcome>>,
    i: int,
)
    requires
        are_outcomes(m, groups, p, mh2, false, outs),
        0 <= i < groups.len(),
    ensures
        (outs[i] is Some) == (4_000_000 * (groups[i].bbox.w * groups[i].bbox.h) > (p.size_mult * mh2) * (p.size_mult
            * mh2)),
{
    match outs[i] {
        Some(_) => {},
        None => {},
    }
}

/// The number of cells that a box is expected to hold: its area over the square of
/// the median height, rounded to the nearest, at least one and at most the most
/// seeds.
pub proof fn expected_cells_are_rounded(g: IconGroup, p: SplitParams, mh2: int, r: int)
    requires
        mh2 > 0,
        p.max_seeds >= 1,
        r == expected_cells(g, p, mh2),
    ensures
        1 <= r <= p.max_seeds,
        r > 1 ==> 2 * (r * (mh2 * mh2)) <= 8 * (g.bbox.w * g.bbox.h) + mh2 * mh2,
        r < p.max_seeds ==> 8 * (g.bbox.w * g.bbox.h) < 2 * (r * (mh2 * mh2)) + mh2 * mh2,
{
    let q = mh2 * mh2;
    assert(q > 0) by (nonlinear_arith)
        requires
            q == mh2 * mh2,
            mh2 > 0,
    ;
    let a = g.bbox.w * g.bbox.h;
    assert(a >= 0) by (nonlinear_arith)
        requires
            a == g.bbox.w * g.bbox.h,
    ;
    let v = (8 * a + q) / (2 * q);
    counting::quotient_sides(8 * a + q, 2 * q);
    assert(v * (2 * q) == 2 * (v * q) && (v + 1) * (2 * q) == 2 * (v * q) + 2 * q) by (nonlinear_arith);
    if v < 1 {
        assert(v * q <= 0 && 1 * q == q) by (nonlinear_arith)
            requires
                v < 1,
                q > 0,
        ;
    } else if v >= p.max_seeds {
        let k = p.max_seeds as int;
        assert(k * q <= v * q) by (nonlinear_arith)
            requires
                k <= v,
                q > 0,
        ;
    }
}

/// A count of the outcomes for which something holds.
pub open spec fn outcomes_with(outs: Seq<Option<SplitOutcome>>, f: spec_fn(SplitOutcome) -> bool, n: int) -> int {
    counting::count_below(|i: int| outs[i] is Some && f(outs[i]->0), n)
}

/// The regions or the slivers of an outcome, and none for a group that was not
/// looked at.
pub open spec fn regions_at(outs: Seq<Option<SplitOutcome>>) -> spec_fn(int) -> int {
    |i: int|
        match outs[i] {
            Some(o) => o.regions@.len() as int,
            None => 0int,
        }
}

/// The slivers of an outcome.
pub open spec fn slivers_at(outs: Seq<Option<SplitOutcome>>) -> spec_fn(int) -> int {
    |i: int|
        match outs[i] {
            Some(o) => o.slivers as int,
            None => 0int,
        }
}

/// The counters of a split add up its outcomes: those looked at, those taken apart
/// and their regions and slivers, those cut by profile, those with trimmed seeds,
/// those left alone as thick, and those kept whole.
pub proof fn counters_add_up_the_outcomes(s: SplitStats, outs: Seq<Option<SplitOutcome>>, n: int)
    requires
        0 <= n <= outs.len(),
        n <= u32::MAX,
        s.candidates + n <= u64::MAX,
        s.split + n <= u64::MAX,
        s.fallback_profile + n <= u64::MAX,
        s.fallback_reseed + n <= u64::MAX,
        s.skipped_fat + n <= u64::MAX,
        s.skipped_no_structure + n <= u64::MAX,
        s.regions + counting::sum_below(regions_at(outs), n) <= u64::MAX,
        s.slivers + counting::sum_below(slivers_at(outs), n) <= u64::MAX,
    ensures
        ({
            let b = bumped(s, outs, n);
            &&& b.candidates == s.candidates + counting::count_below(|i: int| outs[i] is Some, n)
            &&& b.split == s.split + outcomes_with(outs, |o: SplitOutcome| o.regions@.len() > 0, n)
            &&& b.regions == s.regions + counting::sum_below(regions_at(outs), n)
            &&& b.slivers == s.slivers + counting::sum_below(slivers_at(outs), n)
            &&& b.fallback_profile == s.fallback_profile + outcomes_with(outs, |o: SplitOutcome| o.profile, n)
            &&& b.fallback_reseed == s.fallback_reseed + outcomes_with(outs, |o: SplitOutcome| o.reseed, n)
            &&& b.skipped_fat == s.skipped_fat + outcomes_with(outs, |o: SplitOutcome| o.fat, n)
            &&& b.skipped_no_structure == s.skipped_no_structure + outcomes_with(
                outs,
                |o: SplitOutcome| o.regions@.len() == 0,
                n,
            )
        }),
    decreases n,
{
    if n > 0 {
        sums_not_negative(outs, n - 1);
        counters_add_up_the_outcomes(s, outs, n - 1);
        counting::count_bounds(|i: int| outs[i] is Some, n - 1);
        counting::count_bounds(|i: int| outs[i] is Some && (|o: SplitOutcome| o.regions@.len() > 0)(outs[i]->0), n - 1);
        counting::count_bounds(|i: int| outs[i] is Some && (|o: SplitOutcome| o.profile)(outs[i]->0), n - 1);
        counting::count_bounds(|i: int| outs[i] is Some && (|o: SplitOutcome| o.reseed)(outs[i]->0), n - 1);
        counting::count_bounds(|i: int| outs[i] is Some && (|o: SplitOutcome| o.fat)(outs[i]->0), n - 1);
        counting::count_bounds(|i: int| outs[i] is Some && (|o: SplitOutcome| o.regions@.len() == 0)(outs[i]->0), n - 1);
    }
}

proof fn sums_not_negative(outs: Seq<Option<SplitOutcome>>, n: int)
    requires
        0 <= n < outs.len(),
    ensures
        counting::sum_below(regions_at(outs), n) >= 0,
        counting::sum_below(slivers_at(outs), n) >= 0,
        counting::sum_below(regions_at(outs), n) <= counting::sum_below(regions_at(outs), n + 1),
        counting::sum_below(slivers_at(outs), n) <= counting::sum_below(slivers_at(outs), n + 1),
    decreases n,
{
    if n > 0 {
        sums_not_negative(outs, n - 1);
    }
}

/// A group is left alone as thick exactly where some part of it lies farther from
/// the outside than the given fraction of the median height; and then it stays
/// whole.
pub proof fn only_thick_groups_are_left_alone(
    m: ForegroundMask,
    g: IconGroup,
    p: SplitParams,
    mh2: int,
    dt: Seq<i32>,
    o: SplitOutcome,
)
    requires
        is_outcome(m, g, p, mh2, o),
        chamfer::is_transform(part_of(m, g), g.bbox.w as int, g.bbox.h as int, dt),
        exists|k: int| 0 <= k < part_of(m, g).len() && #[trigger] part_of(m, g)[k],
    ensures
        o.fat == (exists|k: int|
            0 <= k < part_of(m, g).len() && #[trigger] part_of(m, g)[k] && 2 * dt[k] > p.max_dt_frac * mh2),
        o.fat ==> o.regions@.len() == 0,
{
    let comp = part_of(m, g);
    let cw = g.bbox.w as int;
    let ch = g.bbox.h as int;
    let (own, seeds, labels) = choose|own: Seq<i32>, seeds: Seq<u32>, labels: Seq<i32>| #[trigger]
        decides(comp, g, p, mh2, own, seeds, labels, o);
    let k = choose|k: int| 0 <= k < comp.len() && #[trigger] comp[k];
    counting::count_positive(regions::members(comp), comp.len() as int, k);
    assert(comp.len() == cw * ch) by (nonlinear_arith)
        requires
            comp.len() == (cw * ch) as nat,
            cw >= 0,
            ch >= 0,
    ;
    chamfer::transform_is_unique(comp, cw, ch, own, dt);
    if is_fat(comp, dt, p, mh2) {
        let j = choose|j: int| 0 <= j < comp.len() && #[trigger] comp[j] && dt[j] * 2 > p.max_dt_frac * mh2;
        assert(comp[j] && 2 * dt[j] > p.max_dt_frac * mh2);
    }
}

/// One list of all pieces holds every group of every piece, and no other.
pub proof fn flattening_keeps_every_group(pieces: Seq<Vec<IconGroup>>, n: int, g: IconGroup)
    requires
        0 <= n <= pieces.len(),
    ensures
        flattened(pieces, n).contains(g) == exists|i: int| 0 <= i < n && (#[trigger] pieces[i])@.contains(g),
        n > 0 ==> flattened(pieces, n).len() == flattened(pieces, n - 1).len() + pieces[n - 1]@.len(),
    decreases n,
{
    if n > 0 {
        flattening_keeps_every_group(pieces, n - 1, g);
        let head = flattened(pieces, n - 1);
        let tail = pieces[n - 1]@;
        let all = head + tail;
        if head.contains(g) {
            let t = choose|t: int| 0 <= t < head.len() && head[t] == g;
            assert(all[t] == g);
        }
        if tail.contains(g) {
            let t = choose|t: int| 0 <= t < tail.len() && tail[t] == g;
            assert(all[head.len() + t] == g);
        }
        if all.contains(g) {
            let t = choose|t: int| 0 <= t < all.len() && all[t] == g;
            if t < head.len() {
                assert(head[t] == g);
            } else {
                assert(tail[t - head.len()] == g);
            }
        }
    }
}

} // verus!
