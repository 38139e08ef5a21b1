//! Noise filtering and fragment merging: the rules that decide which
//! components are noise and which pairs are fragments of one icon.
//!
//! Every threshold derives from the median height and area of the surviving
//! components. Medians are carried doubled and fractions in thousandths, so a
//! distance compares in two-thousandths of a pixel and every comparison is
//! exact. A pair is judged from the two components alone, so the order in which
//! pairs are looked at does not matter.
use vstd::prelude::*;
use crate::confidence::ConfidenceParams;
use crate::containment;
use crate::containment::ContainmentParams;
use crate::counting;
use crate::geometry::{Bbox, IconGroup};
use crate::grid::GridParams;
use crate::ratio;
use crate::ratio::Ratio;
use crate::split::{Milli, SplitParams};

verus! {

/// Bumped whenever refine behaviour changes.
pub const REFINE_VERSION: u32 = 2;

/// Tunables of the refine chain.
#[derive(Clone, Copy, Debug, PartialEq, Eq, Structural)]
pub struct RefineParams {
    /// Master switch; off leaves the groups as they are.
    pub enabled: bool,
    /// Noise stage switch.
    pub noise_enabled: bool,
    /// Merge stage switch.
    pub merge_enabled: bool,
    /// Over-merge split.
    pub split: SplitParams,
    /// Grid hint.
    pub grid: GridParams,
    /// Containment analysis.
    pub containment: ContainmentParams,
    /// Confidence scoring.
    pub confidence: ConfidenceParams,
    /// Speckle: least ink of a component.
    pub noise_min_area: u32,
    /// Sliver: least side of a box.
    pub noise_min_dim: u32,
    /// Streak: largest ratio of the sides.
    pub noise_max_aspect: Milli,
    /// Frame or rule line: least fraction of the sheet that is spanned.
    pub frame_min_coverage: Milli,
    /// Isolated speck: largest side as a fraction of the median height.
    pub specks_frac: Milli,
    /// Merge distance as a fraction of the median height.
    pub gap_frac: Milli,
    /// Least merge distance, in thousandths of a pixel.
    pub gap_min: Milli,
    /// Largest merge distance, in thousandths of a pixel.
    pub gap_max: Milli,
    /// Most merge rounds.
    pub max_iterations: u8,
    /// First rule: the smaller height as a fraction of the larger.
    pub rule1_small_factor: Milli,
    /// Fourth rule: overlap above this merges outright.
    pub iou_merge: Milli,
    /// Fifth rule: distance as a fraction of the merge distance.
    pub rule5_gap_frac: Milli,
    /// Fifth rule: least ratio of the heights.
    pub rule5_band_low: Milli,
    /// Fifth rule: largest ratio of the heights.
    pub rule5_band_high: Milli,
    /// Fifth rule: largest combined area, as a multiple of the median area.
    pub rule5_max_area_ratio: Milli,
    /// Refusal: largest aspect of a merge.
    pub max_merged_aspect: Milli,
    /// Refusal: largest height of a merge, as a multiple of the median height.
    pub max_height_mult: Milli,
}

/// The standard tunables.
pub open spec fn default_refine_params() -> RefineParams {
    RefineParams {
        enabled: false,
        noise_enabled: true,
        merge_enabled: true,
        split: crate::split::default_split_params(),
        grid: crate::grid::default_grid_params(),
        containment: ContainmentParams { enabled: true, max_depth: 8 },
        confidence: crate::confidence::default_confidence_params(),
        noise_min_area: 16,
        noise_min_dim: 3,
        noise_max_aspect: 60_000,
        frame_min_coverage: 900,
        specks_frac: 350,
        gap_frac: 350,
        gap_min: 4000,
        gap_max: 40_000,
        max_iterations: 3,
        rule1_small_factor: 500,
        iou_merge: 250,
        rule5_gap_frac: 500,
        rule5_band_low: 600,
        rule5_band_high: 1600,
        rule5_max_area_ratio: 1750,
        max_merged_aspect: 4000,
        max_height_mult: 1900,
    }
}

impl Default for RefineParams {
    fn default() -> (r: Self)
        ensures
            r == default_refine_params(),
    {
        RefineParams {
            enabled: false,
            noise_enabled: true,
            merge_enabled: true,
            split: SplitParams::default(),
            grid: GridParams::default(),
            containment: ContainmentParams::default(),
            confidence: ConfidenceParams::default(),
            noise_min_area: 16,
            noise_min_dim: 3,
            noise_max_aspect: 60_000,
            frame_min_coverage: 900,
            specks_frac: 350,
            gap_frac: 350,
            gap_min: 4000,
            gap_max: 40_000,
            max_iterations: 3,
            rule1_small_factor: 500,
            iou_merge: 250,
            rule5_gap_frac: 500,
            rule5_band_low: 600,
            rule5_band_high: 1600,
            rule5_max_area_ratio: 1750,
            max_merged_aspect: 4000,
            max_height_mult: 1900,
        }
    }
}

/// Why a pair was merged.
#[derive(Clone, Copy, Debug, PartialEq, Eq, Structural)]
pub enum MergeRule {
    /// Small piece near a big piece.
    Rule1,
    /// Overlap or containment.
    Rule4,
    /// Close, similarly sized pieces.
    Rule5,
}

/// The label of a rule.
pub open spec fn label_of(rule: MergeRule) -> Seq<char> {
    match rule {
        MergeRule::Rule1 => "r1"@,
        MergeRule::Rule4 => "r4"@,
        MergeRule::Rule5 => "r5"@,
    }
}

impl MergeRule {
    /// Short label.
    pub fn as_str(self) -> (r: &'static str)
        ensures
            r@ == label_of(self),
    {
        match self {
            MergeRule::Rule1 => "r1",
            MergeRule::Rule4 => "r4",
            MergeRule::Rule5 => "r5",
        }
    }
}

/// The label of a rule, for an audit trail.
pub fn rule_label(rule: MergeRule) -> (r: &'static str)
    ensures
        r@ == label_of(rule),
{
    rule.as_str()
}

// ---- boxes --------------------------------------------------------------------------

pub open spec fn lesser(a: int, b: int) -> int {
    if a <= b {
        a
    } else {
        b
    }
}

pub open spec fn greater(a: int, b: int) -> int {
    if a >= b {
        a
    } else {
        b
    }
}

/// Distance of two stretches; zero when they touch or overlap.
pub open spec fn stretch_gap(a0: int, a1: int, b0: int, b1: int) -> int {
    greater(greater(a0, b0) - lesser(a1, b1), 0)
}

/// The larger of the horizontal and the vertical distance.
pub open spec fn gap_of(a: Bbox, b: Bbox) -> int {
    greater(
        stretch_gap(a.x as int, a.right(), b.x as int, b.right()),
        stretch_gap(a.y as int, a.bottom(), b.y as int, b.bottom()),
    )
}

/// Length of the common part of two stretches.
pub open spec fn stretch_common(a0: int, a1: int, b0: int, b1: int) -> int {
    greater(lesser(a1, b1) - greater(a0, b0), 0)
}

/// Pixels that both boxes cover.
pub open spec fn common_area(a: Bbox, b: Bbox) -> int {
    stretch_common(a.x as int, a.right(), b.x as int, b.right()) * stretch_common(
        a.y as int,
        a.bottom(),
        b.y as int,
        b.bottom(),
    )
}

/// Pixels that at least one box covers.
pub open spec fn joint_area(a: Bbox, b: Bbox) -> int {
    a.w * a.h + b.w * b.h - common_area(a, b)
}

/// `outer` covers all of `inner`.
pub open spec fn contains_box(outer: Bbox, inner: Bbox) -> bool {
    &&& outer.x <= inner.x
    &&& outer.y <= inner.y
    &&& outer.right() >= inner.right()
    &&& outer.bottom() >= inner.bottom()
}

/// The box around two boxes.
pub open spec fn union_box(a: Bbox, b: Bbox) -> Bbox {
    let x = lesser(a.x as int, b.x as int);
    let y = lesser(a.y as int, b.y as int);
    Bbox {
        x: x as u32,
        y: y as u32,
        w: (greater(a.right(), b.right()) - x) as u32,
        h: (greater(a.bottom(), b.bottom()) - y) as u32,
    }
}

/// The group that two groups make.
pub open spec fn union_group(a: IconGroup, b: IconGroup) -> IconGroup {
    IconGroup {
        bbox: union_box(a.bbox, b.bbox),
        area: (a.area + b.area) as u32,
        origin: (
            lesser(a.origin.0 as int, b.origin.0 as int) as u32,
            lesser(a.origin.1 as int, b.origin.1 as int) as u32,
        ),
    }
}

/// The far edges of a box are in range.
pub open spec fn box_ok(b: Bbox) -> bool {
    b.right() <= u32::MAX && b.bottom() <= u32::MAX
}

fn stretch_distance(a0: u64, a1: u64, b0: u64, b1: u64) -> (r: u64)
    ensures
        r == stretch_gap(a0 as int, a1 as int, b0 as int, b1 as int),
{
    let lo: u64 = if a0 >= b0 {
        a0
    } else {
        b0
    };
    let hi: u64 = if a1 <= b1 {
        a1
    } else {
        b1
    };
    if lo > hi {
        lo - hi
    } else {
        0
    }
}

/// Gap between two boxes: zero when they touch or overlap.
pub fn bbox_gap(a: &Bbox, b: &Bbox) -> (r: u64)
    ensures
        r == gap_of(*a, *b),
        r <= 0x2_0000_0000,
{
    let dx: u64 = stretch_distance(
        a.x as u64,
        a.x as u64 + a.w as u64,
        b.x as u64,
        b.x as u64 + b.w as u64,
    );
    let dy: u64 = stretch_distance(
        a.y as u64,
        a.y as u64 + a.h as u64,
        b.y as u64,
        b.y as u64 + b.h as u64,
    );
    if dx >= dy {
        dx
    } else {
        dy
    }
}

fn stretch_overlap(a0: u64, a1: u64, b0: u64, b1: u64) -> (r: u64)
    ensures
        r == stretch_common(a0 as int, a1 as int, b0 as int, b1 as int),
{
    let lo: u64 = if a0 >= b0 {
        a0
    } else {
        b0
    };
    let hi: u64 = if a1 <= b1 {
        a1
    } else {
        b1
    };
    if hi > lo {
        hi - lo
    } else {
        0
    }
}

/// Intersection over union of two boxes.
pub fn bbox_iou(a: &Bbox, b: &Bbox) -> (r: Ratio)
    ensures
        r == (if common_area(*a, *b) == 0 {
            ratio::zero()
        } else {
            Ratio { num: common_area(*a, *b) as u128, den: joint_area(*a, *b) as u128 }
        }),
        common_area(*a, *b) >= 0,
        0 < r.den <= 0x2_0000_0000_0000_0000,
        r.num <= 0x1_0000_0000_0000_0000,
        common_area(*a, *b) > 0 ==> r.num == common_area(*a, *b) && r.den == joint_area(*a, *b),
{
    let ix: u64 = stretch_overlap(
        a.x as u64,
        a.x as u64 + a.w as u64,
        b.x as u64,
        b.x as u64 + b.w as u64,
    );
    let iy: u64 = stretch_overlap(
        a.y as u64,
        a.y as u64 + a.h as u64,
        b.y as u64,
        b.y as u64 + b.h as u64,
    );
    assert(ix <= a.w && ix <= b.w && iy <= a.h && iy <= b.h);
    assert(0 <= ix * iy <= a.w * a.h && ix * iy <= b.w * b.h && a.w * a.h <= 0xffff_ffff
        * 0xffff_ffff && b.w * b.h <= 0xffff_ffff * 0xffff_ffff) by (nonlinear_arith)
        requires
            0 <= ix <= a.w,
            ix <= b.w,
            0 <= iy <= a.h,
            iy <= b.h,
            a.w <= 0xffff_ffff,
            b.w <= 0xffff_ffff,
            a.h <= 0xffff_ffff,
            b.h <= 0xffff_ffff,
    ;
    let inter: u128 = (ix * iy) as u128;
    if inter == 0 {
        return Ratio { num: 0, den: 1 };
    }
    let union: u128 = a.area() as u128 + b.area() as u128 - inter;
    Ratio { num: inter, den: union }
}

/// True when `outer` covers all of `inner`.
pub fn bbox_contains(outer: &Bbox, inner: &Bbox) -> (r: bool)
    ensures
        r == contains_box(*outer, *inner),
{
    outer.x <= inner.x && outer.y <= inner.y && outer.x as u64 + outer.w as u64 >= inner.x as u64
        + inner.w as u64 && outer.y as u64 + outer.h as u64 >= inner.y as u64 + inner.h as u64
}

/// The group that results from merging two components.
pub fn merged_group(a: &IconGroup, b: &IconGroup) -> (r: IconGroup)
    requires
        box_ok(a.bbox),
        box_ok(b.bbox),
        a.area + b.area <= u32::MAX,
    ensures
        r == union_group(*a, *b),
        box_ok(r.bbox),
        r.area == a.area + b.area,
{
    let x: u32 = if a.bbox.x <= b.bbox.x {
        a.bbox.x
    } else {
        b.bbox.x
    };
    let y: u32 = if a.bbox.y <= b.bbox.y {
        a.bbox.y
    } else {
        b.bbox.y
    };
    let ax2: u32 = a.bbox.x + a.bbox.w;
    let bx2: u32 = b.bbox.x + b.bbox.w;
    let ay2: u32 = a.bbox.y + a.bbox.h;
    let by2: u32 = b.bbox.y + b.bbox.h;
    let x2: u32 = if ax2 >= bx2 {
        ax2
    } else {
        bx2
    };
    let y2: u32 = if ay2 >= by2 {
        ay2
    } else {
        by2
    };
    IconGroup {
        bbox: Bbox::from_parts(x, y, x2 - x, y2 - y),
        area: a.area + b.area,
        origin: (
            if a.origin.0 <= b.origin.0 {
                a.origin.0
            } else {
                b.origin.0
            },
            if a.origin.1 <= b.origin.1 {
                a.origin.1
            } else {
                b.origin.1
            },
        ),
    }
}

/// Groups that lie on a sheet make a group that lies on it.
pub proof fn union_fits(a: IconGroup, b: IconGroup, w: int, h: int)
    requires
        a.bbox.fits(w, h),
        b.bbox.fits(w, h),
        a.bbox.covers(a.origin.0 as int, a.origin.1 as int),
        b.bbox.covers(b.origin.0 as int, b.origin.1 as int),
        w <= u32::MAX,
        h <= u32::MAX,
    ensures
        union_group(a, b).bbox.fits(w, h),
        union_group(a, b).bbox.covers(
            union_group(a, b).origin.0 as int,
            union_group(a, b).origin.1 as int,
        ),
        contains_box(union_group(a, b).bbox, a.bbox),
        contains_box(union_group(a, b).bbox, b.bbox),
{
}

// ---- noise --------------------------------------------------------------------------

/// A component passes the size gates and is no frame or rule line.
pub open spec fn is_sound(g: IconGroup, w: int, h: int, p: RefineParams) -> bool {
    let small = lesser(g.bbox.w as int, g.bbox.h as int);
    let large = greater(g.bbox.w as int, g.bbox.h as int);
    &&& g.area >= p.noise_min_area
    &&& small >= p.noise_min_dim
    &&& large * 1000 <= p.noise_max_aspect * small
    &&& g.bbox.w * 1000 < p.frame_min_coverage * w
    &&& g.bbox.h * 1000 < p.frame_min_coverage * h
}

/// A component with both sides small against the median height.
pub open spec fn is_speck(g: IconGroup, mh2: int, p: RefineParams) -> bool {
    &&& mh2 > 0
    &&& g.bbox.w * 2000 <= p.specks_frac * mh2
    &&& g.bbox.h * 2000 <= p.specks_frac * mh2
}

/// The sound components among the first `n`, in order.
pub open spec fn sound_ones(groups: Seq<IconGroup>, w: int, h: int, p: RefineParams, n: int) -> Seq<IconGroup>
    decreases n,
{
    if n <= 0 {
        Seq::empty()
    } else if is_sound(groups[n - 1], w, h, p) {
        sound_ones(groups, w, h, p, n - 1).push(groups[n - 1])
    } else {
        sound_ones(groups, w, h, p, n - 1)
    }
}

/// The components among the first `n` that are no specks, in order.
pub open spec fn unspecked(groups: Seq<IconGroup>, mh2: int, p: RefineParams, n: int) -> Seq<IconGroup>
    decreases n,
{
    if n <= 0 {
        Seq::empty()
    } else if is_speck(groups[n - 1], mh2, p) {
        unspecked(groups, mh2, p, n - 1)
    } else {
        unspecked(groups, mh2, p, n - 1).push(groups[n - 1])
    }
}

/// The sum of the areas of the first `n` groups.
pub open spec fn area_sum(groups: Seq<IconGroup>, n: int) -> int
    decreases n,
{
    if n <= 0 {
        0
    } else {
        area_sum(groups, n - 1) + groups[n - 1].area
    }
}

/// Pushing a group adds its area.
pub proof fn area_push(groups: Seq<IconGroup>, g: IconGroup, n: int)
    requires
        0 <= n <= groups.len(),
    ensures
        area_sum(groups.push(g), n) == area_sum(groups, n),
        area_sum(groups.push(g), groups.len() as int + 1) == area_sum(groups, groups.len() as int)
            + g.area,
    decreases n + groups.len(),
{
    if n > 0 {
        area_push(groups, g, n - 1);
    } else if groups.len() > 0 {
        area_prefix(groups, groups.push(g), groups.len() as int);
    }
}

/// Lists that agree on a prefix have the same area there.
pub proof fn area_prefix(a: Seq<IconGroup>, b: Seq<IconGroup>, n: int)
    requires
        n <= a.len(),
        n <= b.len(),
        forall|i: int| 0 <= i < n ==> #[trigger] a[i] == b[i],
    ensures
        area_sum(a, n) == area_sum(b, n),
    decreases n,
{
    if n > 0 {
        area_prefix(a, b, n - 1);
        assert(a[n - 1] == b[n - 1]);
    }
}

pub proof fn area_grows(groups: Seq<IconGroup>, m: int, n: int)
    requires
        0 <= m <= n,
    ensures
        0 <= area_sum(groups, m) <= area_sum(groups, n),
    decreases n,
{
    if n > 0 {
        if m < n {
            area_grows(groups, m, n - 1);
        } else {
            area_grows(groups, m - 1, n - 1);
        }
    }
}

fn sound(g: &IconGroup, sheet_w: u32, sheet_h: u32, p: &RefineParams) -> (r: bool)
    ensures
        r == is_sound(*g, sheet_w as int, sheet_h as int, *p),
{
    let w: u32 = g.bbox.w;
    let h: u32 = g.bbox.h;
    let (small, large): (u32, u32) = if w <= h {
        (w, h)
    } else {
        (h, w)
    };
    proof {
        product_bound(p.noise_max_aspect as int, small as int);
        product_bound(p.frame_min_coverage as int, sheet_w as int);
        product_bound(p.frame_min_coverage as int, sheet_h as int);
    }
    g.area >= p.noise_min_area && small >= p.noise_min_dim && large as u64 * 1000
        <= p.noise_max_aspect as u64 * small as u64 && (w as u64 * 1000) < p.frame_min_coverage as u64
        * sheet_w as u64 && (h as u64 * 1000) < p.frame_min_coverage as u64 * sheet_h as u64
}

proof fn product_bound(a: int, b: int)
    requires
        0 <= a <= 0xffff_ffff,
        0 <= b <= 0xffff_ffff,
    ensures
        0 <= a * b <= 0xffff_ffff * 0xffff_ffff,
{
    assert(0 <= a * b <= 0xffff_ffff * 0xffff_ffff) by (nonlinear_arith)
        requires
            0 <= a <= 0xffff_ffff,
            0 <= b <= 0xffff_ffff,
    ;
}

/// Drops speckles, slivers, streaks and frames; the rest keep their order.
pub fn noise_filter(groups: &Vec<IconGroup>, sheet_w: u32, sheet_h: u32, p: &RefineParams) -> (r: Vec<IconGroup>)
    ensures
        r@ == sound_ones(groups@, sheet_w as int, sheet_h as int, *p, groups@.len() as int),
{
    let mut out: Vec<IconGroup> = Vec::new();
    let mut i: usize = 0;
    while i < groups.len()
        invariant
            i <= groups@.len(),
            out@ == sound_ones(groups@, sheet_w as int, sheet_h as int, *p, i as int),
        decreases groups@.len() - i,
    {
        let g = groups[i];
        if sound(&g, sheet_w, sheet_h, p) {
            out.push(g);
        }
        i = i + 1;
    }
    out
}

/// Drops what is speck-sized against the median height; the rest keep their
/// order. Without a median height nothing is dropped.
pub fn speck_filter(groups: &Vec<IconGroup>, mh2: u64, p: &RefineParams) -> (r: Vec<IconGroup>)
    requires
        mh2 <= 0x1_ffff_fffe,
    ensures
        r@ == unspecked(groups@, mh2 as int, *p, groups@.len() as int),
{
    let mut out: Vec<IconGroup> = Vec::new();
    assert(p.specks_frac * mh2 <= 0xffff_ffff * 0x1_ffff_fffe) by (nonlinear_arith)
        requires
            p.specks_frac <= 0xffff_ffff,
            mh2 <= 0x1_ffff_fffe,
    ;
    let limit: u128 = p.specks_frac as u128 * mh2 as u128;
    let mut i: usize = 0;
    while i < groups.len()
        invariant
            i <= groups@.len(),
            limit == p.specks_frac * mh2,
            out@ == unspecked(groups@, mh2 as int, *p, i as int),
        decreases groups@.len() - i,
    {
        let g = groups[i];
        if !(mh2 > 0 && g.bbox.w as u128 * 2000 <= limit && g.bbox.h as u128 * 2000 <= limit) {
            out.push(g);
        }
        i = i + 1;
    }
    out
}

/// What the noise filters keep was there before, and not more of it.
pub proof fn filters_only_drop(groups: Seq<IconGroup>, w: int, h: int, p: RefineParams, mh2: int, n: int)
    requires
        0 <= n <= groups.len(),
    ensures
        sound_ones(groups, w, h, p, n).len() <= n,
        unspecked(groups, mh2, p, n).len() <= n,
        area_sum(sound_ones(groups, w, h, p, n), sound_ones(groups, w, h, p, n).len() as int)
            <= area_sum(groups, n),
        area_sum(unspecked(groups, mh2, p, n), unspecked(groups, mh2, p, n).len() as int)
            <= area_sum(groups, n),
        forall|i: int|
            0 <= i < sound_ones(groups, w, h, p, n).len() ==> is_sound(
                #[trigger] sound_ones(groups, w, h, p, n)[i],
                w,
                h,
                p,
            ) && groups.contains(sound_ones(groups, w, h, p, n)[i]),
        forall|i: int|
            0 <= i < unspecked(groups, mh2, p, n).len() ==> !is_speck(
                #[trigger] unspecked(groups, mh2, p, n)[i],
                mh2,
                p,
            ) && groups.contains(unspecked(groups, mh2, p, n)[i]),
    decreases n,
{
    if n > 0 {
        filters_only_drop(groups, w, h, p, mh2, n - 1);
        let a = sound_ones(groups, w, h, p, n - 1);
        let b = unspecked(groups, mh2, p, n - 1);
        area_push(a, groups[n - 1], a.len() as int);
        area_push(b, groups[n - 1], b.len() as int);
        assert(groups.contains(groups[n - 1]));
    }
}

// ---- pairs --------------------------------------------------------------------------

/// What a pair is judged against.
#[derive(Clone, Copy, Debug, PartialEq, Eq, Structural)]
pub struct MergeContext {
    /// Tunables.
    pub params: RefineParams,
    /// Twice the median height.
    pub mh2: u64,
    /// Twice the median area.
    pub ma2: u64,
    /// Merge distance, in two-thousandths of a pixel.
    pub gap: u64,
}

/// The numbers of a context are in range.
pub open spec fn context_ok(c: MergeContext) -> bool {
    &&& c.mh2 <= 0x1_ffff_fffe
    &&& c.ma2 <= 0x1_ffff_fffe
    &&& c.gap <= 0x1_ffff_fffe
}

/// The merge distance in two-thousandths of a pixel: the fraction of the median
/// height, kept within its limits.
pub open spec fn merge_gap_of(p: RefineParams, mh2: int) -> int {
    let raw = p.gap_frac * mh2;
    if raw < 2 * p.gap_min {
        2 * p.gap_min
    } else if raw > 2 * p.gap_max {
        2 * p.gap_max
    } else {
        raw
    }
}

/// The merge distance.
pub fn merge_gap(p: &RefineParams, mh2: u64) -> (r: u64)
    requires
        p.gap_min <= p.gap_max,
        mh2 <= 0x1_ffff_fffe,
    ensures
        r == merge_gap_of(*p, mh2 as int),
        r <= 0x1_ffff_fffe,
{
    assert(p.gap_frac * mh2 <= 0xffff_ffff * 0x1_ffff_fffe) by (nonlinear_arith)
        requires
            p.gap_frac <= 0xffff_ffff,
            mh2 <= 0x1_ffff_fffe,
    ;
    let raw: u128 = p.gap_frac as u128 * mh2 as u128;
    let lo: u64 = 2 * p.gap_min as u64;
    let hi: u64 = 2 * p.gap_max as u64;
    if raw < lo as u128 {
        lo
    } else if raw > hi as u128 {
        hi
    } else {
        raw as u64
    }
}

/// What is decided of a pair.
#[derive(Clone, Copy, Debug, PartialEq, Eq, Structural)]
pub enum PairVerdict {
    /// The pair is one icon.
    Merge(MergeRule),
    /// Refused: the merge would be too long.
    TooLong,
    /// Refused: the merge would be too tall.
    TooTall,
    /// No rule applies.
    Apart,
}

/// Overlap or containment.
pub open spec fn overlaps(a: Bbox, b: Bbox, p: RefineParams) -> bool {
    ||| contains_box(a, b)
    ||| contains_box(b, a)
    ||| common_area(a, b) * 1000 > p.iou_merge * joint_area(a, b)
}

/// The box is longer than the largest aspect allows.
pub open spec fn is_long(u: Bbox, p: RefineParams) -> bool {
    greater(u.w as int, u.h as int) * 1000 > p.max_merged_aspect * greater(
        lesser(u.w as int, u.h as int),
        1,
    )
}

/// The box is taller than the median height allows.
pub open spec fn is_tall(u: Bbox, c: MergeContext) -> bool {
    c.mh2 > 0 && u.h * 2000 > c.params.max_height_mult * c.mh2
}

/// The smaller height is small against the larger.
pub open spec fn is_fragment(a: Bbox, b: Bbox, p: RefineParams) -> bool {
    lesser(a.h as int, b.h as int) * 1000 <= p.rule1_small_factor * greater(a.h as int, b.h as int)
}

/// Close, similar in height, and not too much ink for one icon.
pub open spec fn is_twin(a: IconGroup, b: IconGroup, c: MergeContext) -> bool {
    let lo = lesser(a.bbox.h as int, b.bbox.h as int);
    let hi = greater(a.bbox.h as int, b.bbox.h as int);
    let p = c.params;
    &&& gap_of(a.bbox, b.bbox) * 2_000_000 <= p.rule5_gap_frac * c.gap
    &&& if hi == 0 {
        p.rule5_band_low <= 1000 <= p.rule5_band_high
    } else {
        p.rule5_band_low * hi <= lo * 1000 <= p.rule5_band_high * hi
    }
    &&& c.ma2 > 0
    &&& (a.area + b.area) * 2000 <= p.rule5_max_area_ratio * c.ma2
}

/// The verdict on a pair: overlap merges outright; otherwise the pair must be
/// near, neither too long nor too tall, and a fragment or a twin.
#[verifier::opaque]
pub open spec fn verdict_of(a: IconGroup, b: IconGroup, c: MergeContext) -> PairVerdict {
    let u = union_box(a.bbox, b.bbox);
    if overlaps(a.bbox, b.bbox, c.params) {
        PairVerdict::Merge(MergeRule::Rule4)
    } else if gap_of(a.bbox, b.bbox) * 2000 > c.gap {
        PairVerdict::Apart
    } else if is_long(u, c.params) {
        PairVerdict::TooLong
    } else if is_tall(u, c) {
        PairVerdict::TooTall
    } else if is_fragment(a.bbox, b.bbox, c.params) {
        PairVerdict::Merge(MergeRule::Rule1)
    } else if is_twin(a, b, c) {
        PairVerdict::Merge(MergeRule::Rule5)
    } else {
        PairVerdict::Apart
    }
}

/// A verdict does not depend on the order of the pair.
pub proof fn verdict_is_symmetric(a: IconGroup, b: IconGroup, c: MergeContext)
    ensures
        verdict_of(a, b, c) == verdict_of(b, a, c),
{
    reveal(verdict_of);
    assert(common_area(a.bbox, b.bbox) == common_area(b.bbox, a.bbox));
}

fn overlapping(a: &Bbox, b: &Bbox, p: &RefineParams) -> (r: bool)
    ensures
        r == overlaps(*a, *b, *p),
{
    if bbox_contains(a, b) || bbox_contains(b, a) {
        return true;
    }
    let iou = bbox_iou(a, b);
    proof {
        assert(p.iou_merge * iou.den <= 0xffff_ffff * 0x2_0000_0000_0000_0000) by (nonlinear_arith)
            requires
                p.iou_merge <= 0xffff_ffff,
                iou.den <= 0x2_0000_0000_0000_0000,
        ;
        if common_area(*a, *b) == 0 {
            assert(p.iou_merge * joint_area(*a, *b) >= 0 && p.iou_merge * iou.den >= 0) by (nonlinear_arith)
                requires
                    p.iou_merge >= 0,
                    joint_area(*a, *b) >= 0,
                    iou.den >= 0,
            ;
        }
    }
    iou.num * 1000 > p.iou_merge as u128 * iou.den
}

proof fn scaled_bound(a: int, b: int)
    requires
        0 <= a <= 0xffff_ffff,
        0 <= b <= 0x1_ffff_fffe,
    ensures
        0 <= a * b <= 0xffff_ffff * 0x1_ffff_fffe,
{
    assert(0 <= a * b <= 0xffff_ffff * 0x1_ffff_fffe) by (nonlinear_arith)
        requires
            0 <= a <= 0xffff_ffff,
            0 <= b <= 0x1_ffff_fffe,
    ;
}

fn twins(a: &IconGroup, b: &IconGroup, d: u64, c: &MergeContext) -> (r: bool)
    requires
        context_ok(*c),
        d == gap_of(a.bbox, b.bbox),
        d <= 0x2_0000_0000,
    ensures
        r == is_twin(*a, *b, *c),
{
    let (lo, hi): (u32, u32) = if a.bbox.h <= b.bbox.h {
        (a.bbox.h, b.bbox.h)
    } else {
        (b.bbox.h, a.bbox.h)
    };
    let p = &c.params;
    proof {
        scaled_bound(p.rule5_gap_frac as int, c.gap as int);
        scaled_bound(p.rule5_max_area_ratio as int, c.ma2 as int);
        product_bound(p.rule5_band_low as int, hi as int);
        product_bound(p.rule5_band_high as int, hi as int);
    }
    let in_band: bool = if hi == 0 {
        p.rule5_band_low <= 1000 && 1000 <= p.rule5_band_high
    } else {
        p.rule5_band_low as u64 * hi as u64 <= lo as u64 * 1000 && lo as u64 * 1000
            <= p.rule5_band_high as u64 * hi as u64
    };
    d as u128 * 2_000_000 <= p.rule5_gap_frac as u128 * c.gap as u128 && in_band && c.ma2 > 0 && (
    a.area as u128 + b.area as u128) * 2000 <= p.rule5_max_area_ratio as u128 * c.ma2 as u128
}

/// Judges a pair.
pub fn merge_rule(a: &IconGroup, b: &IconGroup, c: &MergeContext) -> (r: PairVerdict)
    requires
        box_ok(a.bbox),
        box_ok(b.bbox),
        context_ok(*c),
    ensures
        r == verdict_of(*a, *b, *c),
{
    reveal(verdict_of);
    if overlapping(&a.bbox, &b.bbox, &c.params) {
        return PairVerdict::Merge(MergeRule::Rule4);
    }
    let d: u64 = bbox_gap(&a.bbox, &b.bbox);
    if d * 2000 > c.gap {
        return PairVerdict::Apart;
    }
    let bare = IconGroup { bbox: a.bbox, area: 0, origin: (0, 0) };
    let other = IconGroup { bbox: b.bbox, area: 0, origin: (0, 0) };
    let u = merged_group(&bare, &other).bbox;
    let (small, large): (u32, u32) = if u.w <= u.h {
        (u.w, u.h)
    } else {
        (u.h, u.w)
    };
    let small: u32 = if small < 1 {
        1
    } else {
        small
    };
    proof {
        product_bound(c.params.max_merged_aspect as int, small as int);
        scaled_bound(c.params.max_height_mult as int, c.mh2 as int);
        product_bound(c.params.rule1_small_factor as int, greater(a.bbox.h as int, b.bbox.h as int));
    }
    if large as u64 * 1000 > c.params.max_merged_aspect as u64 * small as u64 {
        return PairVerdict::TooLong;
    }
    if c.mh2 > 0 && u.h as u128 * 2000 > c.params.max_height_mult as u128 * c.mh2 as u128 {
        return PairVerdict::TooTall;
    }
    let (lo, hi): (u32, u32) = if a.bbox.h <= b.bbox.h {
        (a.bbox.h, b.bbox.h)
    } else {
        (b.bbox.h, a.bbox.h)
    };
    if lo as u64 * 1000 <= c.params.rule1_small_factor as u64 * hi as u64 {
        return PairVerdict::Merge(MergeRule::Rule1);
    }
    if twins(a, b, d, c) {
        return PairVerdict::Merge(MergeRule::Rule5);
    }
    PairVerdict::Apart
}

/// A pair that a merge or a refusal is decided on is near: its distance is
/// within the merge distance.
pub proof fn decided_pairs_are_near(a: IconGroup, b: IconGroup, c: MergeContext)
    requires
        verdict_of(a, b, c) != PairVerdict::Apart,
    ensures
        gap_of(a.bbox, b.bbox) * 2000 <= c.gap,
{
    reveal(verdict_of);
    if overlaps(a.bbox, b.bbox, c.params) {
        if common_area(a.bbox, b.bbox) * 1000 > c.params.iou_merge * joint_area(a.bbox, b.bbox) {
            let sx = stretch_common(a.bbox.x as int, a.bbox.right(), b.bbox.x as int, b.bbox.right());
            let sy = stretch_common(a.bbox.y as int, a.bbox.bottom(), b.bbox.y as int, b.bbox.bottom());
            let ja = joint_area(a.bbox, b.bbox);
            assert(sx * sy <= a.bbox.w * a.bbox.h && 0 <= b.bbox.w * b.bbox.h) by (nonlinear_arith)
                requires
                    0 <= sx <= a.bbox.w,
                    0 <= sy <= a.bbox.h,
            ;
            assert(c.params.iou_merge * ja >= 0) by (nonlinear_arith)
                requires
                    c.params.iou_merge >= 0,
                    ja >= 0,
            ;
            assert(sx > 0 && sy > 0) by (nonlinear_arith)
                requires
                    sx >= 0,
                    sy >= 0,
                    sx * sy > 0,
            ;
        }
    }
}

// ---- what merging means -------------------------------------------------------------

/// The gap of two boxes is the greatest distance between facing sides, or zero
/// where they overlap in both directions.
pub proof fn gap_is_the_widest_distance(a: Bbox, b: Bbox)
    ensures
        gap_of(a, b) >= 0,
        gap_of(a, b) >= b.x - (a.x + a.w),
        gap_of(a, b) >= a.x - (b.x + b.w),
        gap_of(a, b) >= b.y - (a.y + a.h),
        gap_of(a, b) >= a.y - (b.y + b.h),
        gap_of(a, b) == 0 || gap_of(a, b) == b.x - (a.x + a.w) || gap_of(a, b) == a.x - (b.x + b.w) || gap_of(
            a,
            b,
        ) == b.y - (a.y + a.h) || gap_of(a, b) == a.y - (b.y + b.h),
{
}

proof fn shared_stretch(a0: int, a1: int, b0: int, b1: int, n: int)
    requires
        0 <= a0 <= a1 <= n,
        0 <= b0 <= b1 <= n,
    ensures
        counting::count_below(|k: int| a0 <= k < a1 && b0 <= k < b1, n) == stretch_common(a0, a1, b0, b1),
{
    let f = |k: int| a0 <= k < a1 && b0 <= k < b1;
    let lo = greater(a0, b0);
    let hi = lesser(a1, b1);
    if lo <= hi {
        counting::count_span(f, 0, lo, false);
        counting::count_span(f, lo, hi, true);
        counting::count_span(f, hi, n, false);
    } else {
        counting::count_span(f, 0, n, false);
    }
}

/// The overlap of two boxes is the columns that both hold times the rows that
/// both hold, and the union is what the two boxes hold less that.
pub proof fn overlap_counts_shared_pixels(a: Bbox, b: Bbox, w: int, h: int)
    requires
        a.x + a.w <= w,
        b.x + b.w <= w,
        a.y + a.h <= h,
        b.y + b.h <= h,
    ensures
        ({
            let columns = counting::count_below(|k: int| a.x <= k < a.x + a.w && b.x <= k < b.x + b.w, w);
            let rows = counting::count_below(|k: int| a.y <= k < a.y + a.h && b.y <= k < b.y + b.h, h);
            &&& common_area(a, b) == columns * rows
            &&& joint_area(a, b) == a.w * a.h + b.w * b.h - columns * rows
        }),
{
    shared_stretch(a.x as int, a.right(), b.x as int, b.right(), w);
    shared_stretch(a.y as int, a.bottom(), b.y as int, b.bottom(), h);
    let f = |k: int| a.x <= k < a.x + a.w && b.x <= k < b.x + b.w;
    let g = |k: int| a.y <= k < a.y + a.h && b.y <= k < b.y + b.h;
    counting::count_ext(f, |k: int| a.x as int <= k < a.right() && b.x as int <= k < b.right(), w);
    counting::count_ext(g, |k: int| a.y as int <= k < a.bottom() && b.y as int <= k < b.bottom(), h);
}

/// A merged group has the least box that holds both boxes, all the ink of both,
/// and the least origin by column and by row.
pub proof fn merged_group_is_least(a: IconGroup, b: IconGroup, c: Bbox)
    requires
        box_ok(a.bbox),
        box_ok(b.bbox),
        a.area + b.area <= u32::MAX,
    ensures
        ({
            let m = union_group(a, b);
            &&& m.area == a.area + b.area
            &&& m.bbox.x <= a.bbox.x && m.bbox.x <= b.bbox.x
            &&& m.bbox.y <= a.bbox.y && m.bbox.y <= b.bbox.y
            &&& m.bbox.x + m.bbox.w >= a.bbox.x + a.bbox.w && m.bbox.x + m.bbox.w >= b.bbox.x + b.bbox.w
            &&& m.bbox.y + m.bbox.h >= a.bbox.y + a.bbox.h && m.bbox.y + m.bbox.h >= b.bbox.y + b.bbox.h
            &&& c.x <= a.bbox.x && c.x <= b.bbox.x && c.x + c.w >= a.bbox.x + a.bbox.w && c.x + c.w
                >= b.bbox.x + b.bbox.w ==> c.x <= m.bbox.x && c.x + c.w >= m.bbox.x + m.bbox.w
            &&& c.y <= a.bbox.y && c.y <= b.bbox.y && c.y + c.h >= a.bbox.y + a.bbox.h && c.y + c.h
                >= b.bbox.y + b.bbox.h ==> c.y <= m.bbox.y && c.y + c.h >= m.bbox.y + m.bbox.h
            &&& m.origin.0 <= a.origin.0 && m.origin.0 <= b.origin.0
            &&& m.origin.0 == a.origin.0 || m.origin.0 == b.origin.0
            &&& m.origin.1 <= a.origin.1 && m.origin.1 <= b.origin.1
            &&& m.origin.1 == a.origin.1 || m.origin.1 == b.origin.1
        }),
{
}

/// The noise filter keeps, in order, exactly the groups with enough ink, whose
/// shorter side is long enough, whose longer side is not too many times the
/// shorter, and which span too little of the sheet to be its frame. The positions
/// that stay are returned.
pub proof fn noise_filter_keeps_sound_groups(
    groups: Seq<IconGroup>,
    w: int,
    h: int,
    p: RefineParams,
    r: Seq<IconGroup>,
) -> (kept: Seq<int>)
    requires
        r == sound_ones(groups, w, h, p, groups.len() as int),
    ensures
        kept.len() == r.len(),
        forall|i: int| 0 <= i < r.len() ==> 0 <= #[trigger] kept[i] < groups.len() && r[i] == groups[kept[i]],
        forall|i: int, j: int| 0 <= i < j < r.len() ==> #[trigger] kept[i] < #[trigger] kept[j],
        forall|k: int|
            0 <= k < groups.len() ==> #[trigger] kept.contains(k) == ({
                let g = groups[k];
                &&& g.area >= p.noise_min_area
                &&& g.bbox.w >= p.noise_min_dim
                &&& g.bbox.h >= p.noise_min_dim
                &&& g.bbox.w >= g.bbox.h ==> 1000 * g.bbox.w <= p.noise_max_aspect * g.bbox.h
                &&& g.bbox.h >= g.bbox.w ==> 1000 * g.bbox.h <= p.noise_max_aspect * g.bbox.w
                &&& 1000 * g.bbox.w < p.frame_min_coverage * w
                &&& 1000 * g.bbox.h < p.frame_min_coverage * h
            }),
{
    kept_sound(groups, w, h, p, groups.len() as int)
}

proof fn kept_sound(groups: Seq<IconGroup>, w: int, h: int, p: RefineParams, n: int) -> (kept: Seq<int>)
    requires
        0 <= n <= groups.len(),
    ensures
        kept.len() == sound_ones(groups, w, h, p, n).len(),
        forall|i: int|
            0 <= i < kept.len() ==> 0 <= #[trigger] kept[i] < n && sound_ones(groups, w, h, p, n)[i]
                == groups[kept[i]],
        forall|i: int, j: int| 0 <= i < j < kept.len() ==> #[trigger] kept[i] < #[trigger] kept[j],
        forall|k: int| 0 <= k < n ==> #[trigger] kept.contains(k) == is_sound(groups[k], w, h, p),
    decreases n,
{
    if n <= 0 {
        Seq::empty()
    } else {
        let before = kept_sound(groups, w, h, p, n - 1);
        if is_sound(groups[n - 1], w, h, p) {
            let kept = before.push(n - 1);
            assert forall|k: int| 0 <= k < n implies #[trigger] kept.contains(k) == is_sound(groups[k], w, h, p) by {
                if k == n - 1 {
                    assert(kept[before.len() as int] == k);
                } else {
                    if before.contains(k) {
                        let i = choose|i: int| 0 <= i < before.len() && before[i] == k;
                        assert(kept[i] == k);
                    }
                    if kept.contains(k) {
                        let i = choose|i: int| 0 <= i < kept.len() && kept[i] == k;
                        assert(before[i] == k);
                    }
                }
            }
            kept
        } else {
            assert(!before.contains(n - 1)) by {
                if before.contains(n - 1) {
                    let i = choose|i: int| 0 <= i < before.len() && before[i] == n - 1;
                    assert(before[i] < n - 1);
                }
            }
            before
        }
    }
}

/// The speck filter keeps, in order, exactly the groups with a side longer than
/// the given fraction of the median height; with no median height it keeps all.
/// The positions that stay are returned.
pub proof fn speck_filter_keeps_large_groups(
    groups: Seq<IconGroup>,
    mh2: int,
    p: RefineParams,
    r: Seq<IconGroup>,
) -> (kept: Seq<int>)
    requires
        r == unspecked(groups, mh2, p, groups.len() as int),
    ensures
        kept.len() == r.len(),
        forall|i: int| 0 <= i < r.len() ==> 0 <= #[trigger] kept[i] < groups.len() && r[i] == groups[kept[i]],
        forall|i: int, j: int| 0 <= i < j < r.len() ==> #[trigger] kept[i] < #[trigger] kept[j],
        forall|k: int|
            0 <= k < groups.len() ==> #[trigger] kept.contains(k) == (mh2 <= 0 || 2000 * groups[k].bbox.w
                > p.specks_frac * mh2 || 2000 * groups[k].bbox.h > p.specks_frac * mh2),
{
    kept_large(groups, mh2, p, groups.len() as int)
}

proof fn kept_large(groups: Seq<IconGroup>, mh2: int, p: RefineParams, n: int) -> (kept: Seq<int>)
    requires
        0 <= n <= groups.len(),
    ensures
        kept.len() == unspecked(groups, mh2, p, n).len(),
        forall|i: int|
            0 <= i < kept.len() ==> 0 <= #[trigger] kept[i] < n && unspecked(groups, mh2, p, n)[i]
                == groups[kept[i]],
        forall|i: int, j: int| 0 <= i < j < kept.len() ==> #[trigger] kept[i] < #[trigger] kept[j],
        forall|k: int| 0 <= k < n ==> #[trigger] kept.contains(k) == !is_speck(groups[k], mh2, p),
    decreases n,
{
    if n <= 0 {
        Seq::empty()
    } else {
        let before = kept_large(groups, mh2, p, n - 1);
        if !is_speck(groups[n - 1], mh2, p) {
            let kept = before.push(n - 1);
            assert forall|k: int| 0 <= k < n implies #[trigger] kept.contains(k) == !is_speck(groups[k], mh2, p) by {
                if k == n - 1 {
                    assert(kept[before.len() as int] == k);
                } else {
                    if before.contains(k) {
                        let i = choose|i: int| 0 <= i < before.len() && before[i] == k;
                        assert(kept[i] == k);
                    }
                    if kept.contains(k) {
                        let i = choose|i: int| 0 <= i < kept.len() && kept[i] == k;
                        assert(before[i] == k);
                    }
                }
            }
            kept
        } else {
            assert(!before.contains(n - 1)) by {
                if before.contains(n - 1) {
                    let i = choose|i: int| 0 <= i < before.len() && before[i] == n - 1;
                    assert(before[i] < n - 1);
                }
            }
            before
        }
    }
}

/// The merge distance is the given fraction of the median height, held between
/// its least and its largest value.
pub proof fn merge_distance_is_clamped(p: RefineParams, mh2: int, r: int)
    requires
        p.gap_min <= p.gap_max,
        r == merge_gap_of(p, mh2),
    ensures
        2 * p.gap_min <= r <= 2 * p.gap_max,
        r == p.gap_frac * mh2 || (r == 2 * p.gap_min && p.gap_frac * mh2 < r) || (r == 2 * p.gap_max
            && p.gap_frac * mh2 > r),
{
}

/// One box holds the other.
pub open spec fn is_nested(a: Bbox, b: Bbox) -> bool {
    a.x <= b.x && a.y <= b.y && a.x + a.w >= b.x + b.w && a.y + a.h >= b.y + b.h
}

/// Boxes of which one holds the other, or whose overlap is more than its share of
/// their union, are one icon whatever else holds of them.
pub proof fn overlapping_groups_are_one(a: IconGroup, b: IconGroup, c: MergeContext)
    ensures
        is_nested(a.bbox, b.bbox) || is_nested(b.bbox, a.bbox) || 1000 * common_area(a.bbox, b.bbox)
            > c.params.iou_merge * joint_area(a.bbox, b.bbox) ==> verdict_of(a, b, c) == PairVerdict::Merge(
            MergeRule::Rule4,
        ),
        verdict_of(a, b, c) == PairVerdict::Merge(MergeRule::Rule4) ==> is_nested(a.bbox, b.bbox) || is_nested(
            b.bbox,
            a.bbox,
        ) || 1000 * common_area(a.bbox, b.bbox) > c.params.iou_merge * joint_area(a.bbox, b.bbox),
{
    reveal(verdict_of);
    assert(contains_box(a.bbox, b.bbox) == is_nested(a.bbox, b.bbox));
    assert(contains_box(b.bbox, a.bbox) == is_nested(b.bbox, a.bbox));
    assert(overlaps(a.bbox, b.bbox, c.params) == (is_nested(a.bbox, b.bbox) || is_nested(b.bbox, a.bbox) || 1000
        * common_area(a.bbox, b.bbox) > c.params.iou_merge * joint_area(a.bbox, b.bbox)));
}

/// Of groups that do not overlap: those farther apart than the merge distance stay
/// apart. Nearer ones are refused where the union would be too long, then where it
/// would be too tall. Of the rest, a pair of which one is small enough against the
/// other is one icon by the first rule; else a pair that is close, of like height
/// and of little ink by the fifth; and any other stays apart.
pub proof fn separate_groups_are_judged(a: IconGroup, b: IconGroup, c: MergeContext, u: Bbox)
    requires
        box_ok(a.bbox),
        box_ok(b.bbox),
        verdict_of(a, b, c) != PairVerdict::Merge(MergeRule::Rule4),
        u == union_box(a.bbox, b.bbox),
    ensures
        ({
            let gap = gap_of(a.bbox, b.bbox);
            let p = c.params;
            let v = verdict_of(a, b, c);
            let long = (u.w >= u.h && u.h >= 1 && 1000 * u.w > p.max_merged_aspect * u.h) || (u.h >= u.w && u.w
                >= 1 && 1000 * u.h > p.max_merged_aspect * u.w) || (u.h == 0 && 1000 * u.w
                > p.max_merged_aspect) || (u.w == 0 && 1000 * u.h > p.max_merged_aspect);
            let tall = c.mh2 > 0 && 2000 * u.h > p.max_height_mult * c.mh2;
            let small = (a.bbox.h <= b.bbox.h && 1000 * a.bbox.h <= p.rule1_small_factor * b.bbox.h) || (
            b.bbox.h <= a.bbox.h && 1000 * b.bbox.h <= p.rule1_small_factor * a.bbox.h);
            &&& 2000 * gap > c.gap ==> v == PairVerdict::Apart
            &&& 2000 * gap <= c.gap ==> (v == PairVerdict::TooLong) == long
            &&& 2000 * gap <= c.gap && !long ==> (v == PairVerdict::TooTall) == tall
            &&& 2000 * gap <= c.gap && !long && !tall ==> (v == PairVerdict::Merge(MergeRule::Rule1)) == small
            &&& v == PairVerdict::Merge(MergeRule::Rule5) ==> {
                &&& 2_000_000 * gap <= p.rule5_gap_frac * c.gap
                &&& 2000 * (a.area + b.area) <= p.rule5_max_area_ratio * c.ma2
                &&& c.ma2 > 0
                &&& a.bbox.h <= b.bbox.h && b.bbox.h > 0 ==> p.rule5_band_low * b.bbox.h <= 1000 * a.bbox.h
                    <= p.rule5_band_high * b.bbox.h
                &&& b.bbox.h <= a.bbox.h && a.bbox.h > 0 ==> p.rule5_band_low * a.bbox.h <= 1000 * b.bbox.h
                    <= p.rule5_band_high * a.bbox.h
            }
            &&& 2000 * gap <= c.gap && !long && !tall && !small && 2_000_000 * gap <= p.rule5_gap_frac * c.gap
                && 2000 * (a.area + b.area) <= p.rule5_max_area_ratio * c.ma2 && c.ma2 > 0 && a.bbox.h
                <= b.bbox.h && b.bbox.h > 0 && p.rule5_band_low * b.bbox.h <= 1000 * a.bbox.h
                <= p.rule5_band_high * b.bbox.h ==> v == PairVerdict::Merge(MergeRule::Rule5)
        }),
{
    reveal(verdict_of);
    let p = c.params;
    let side = greater(lesser(u.w as int, u.h as int), 1);
    let aspect = p.max_merged_aspect as int;
    assert(side == 1 ==> aspect * side == aspect) by (nonlinear_arith);
    assert(is_long(u, p) == ((u.w >= u.h && u.h >= 1 && 1000 * u.w > p.max_merged_aspect * u.h) || (u.h >= u.w
        && u.w >= 1 && 1000 * u.h > p.max_merged_aspect * u.w) || (u.h == 0 && 1000 * u.w
        > p.max_merged_aspect) || (u.w == 0 && 1000 * u.h > p.max_merged_aspect)));
    assert(is_fragment(a.bbox, b.bbox, p) == ((a.bbox.h <= b.bbox.h && 1000 * a.bbox.h <= p.rule1_small_factor
        * b.bbox.h) || (b.bbox.h <= a.bbox.h && 1000 * b.bbox.h <= p.rule1_small_factor * a.bbox.h)));
    assert(is_tall(u, c) == (c.mh2 > 0 && 2000 * u.h > p.max_height_mult * c.mh2));
}

} // verus!
