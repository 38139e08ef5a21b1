//! The duplicate cascade: pairs proposed by hash are verified by overlap or
//! distance, confirmed by digest or similarity, and gathered into clusters.
use vstd::prelude::*;
use crate::chamfer;
use crate::connect;
use crate::counting;
use crate::hashes::HashItem;
use crate::mask;
use crate::ratio;
use crate::ratio::Ratio;
use crate::split::Milli;
use crate::union_find;

verus! {

/// Luma at or above this is ink.
pub const INK_THRESHOLD: u8 = 128;

/// A score or similarity of one, in billionths.
pub const FULL: i64 = 1_000_000_000;

/// The distances a duplicate must satisfy, in thousandths.
#[derive(Clone, Copy, Debug, PartialEq, Eq, Structural)]
pub struct DupOptions {
    /// Least ink overlap.
    pub iou_min: Milli,
    /// Greatest Hausdorff distance, as a share of the plane's diagonal.
    pub hausdorff_max: Milli,
    /// Least similarity.
    pub ssim_min: Milli,
}

impl Default for DupOptions {
    fn default() -> (r: DupOptions)
        ensures
            r == (DupOptions { iou_min: 920, hausdorff_max: 20, ssim_min: 970 }),
    {
        DupOptions { iou_min: 920, hausdorff_max: 20, ssim_min: 970 }
    }
}

// ---- overlap ------------------------------------------------------------------------

/// Position `i` of a plane is ink.
pub open spec fn is_ink(plane: Seq<u8>, i: int) -> bool {
    plane[i] >= INK_THRESHOLD
}

/// Both planes are `w` by `h` and not empty.
pub open spec fn planes_match(a: Seq<u8>, b: Seq<u8>, w: int, h: int) -> bool {
    w > 0 && h > 0 && a.len() == b.len() && a.len() == w * h
}

/// Ink in both planes.
pub open spec fn both_ink(a: Seq<u8>, b: Seq<u8>) -> spec_fn(int) -> bool {
    |i: int| is_ink(a, i) && is_ink(b, i)
}

/// Ink in either plane.
pub open spec fn any_ink(a: Seq<u8>, b: Seq<u8>) -> spec_fn(int) -> bool {
    |i: int| is_ink(a, i) || is_ink(b, i)
}

/// Ink in both over ink in either; one where neither has ink.
pub open spec fn iou_of(a: Seq<u8>, b: Seq<u8>) -> Ratio {
    let n = a.len() as int;
    let union = counting::count_below(any_ink(a, b), n);
    if union == 0 {
        ratio::one()
    } else {
        Ratio { num: counting::count_below(both_ink(a, b), n) as u128, den: union as u128 }
    }
}

/// Whether two planes both have the size `w` by `h`.
fn match_planes(a: &[u8], b: &[u8], w: u32, h: u32) -> (r: bool)
    ensures
        r == planes_match(a@, b@, w as int, h as int),
{
    proof {
        assert(w * h <= u32::MAX * u32::MAX) by (nonlinear_arith)
            requires
                0 <= w <= u32::MAX,
                0 <= h <= u32::MAX,
        ;
    }
    w > 0 && h > 0 && a.len() == b.len() && a.len() as u64 == w as u64 * h as u64
}

/// The ink overlap of two planes; `None` where their sizes do not match.
pub fn ink_iou(a: &[u8], b: &[u8], w: u32, h: u32) -> (r: Option<Ratio>)
    ensures
        match r {
            Some(v) => planes_match(a@, b@, w as int, h as int) && v == iou_of(a@, b@) && v.num
                <= v.den && 0 < v.den && v.den <= u64::MAX,
            None => !planes_match(a@, b@, w as int, h as int),
        },
{
    if !match_planes(a, b, w, h) {
        return None;
    }
    let n: usize = a.len();
    let mut inter: u64 = 0;
    let mut union: u64 = 0;
    let mut i: usize = 0;
    while i < n
        invariant
            i <= n,
            n == a@.len(),
            n == b@.len(),
            inter == counting::count_below(both_ink(a@, b@), i as int),
            union == counting::count_below(any_ink(a@, b@), i as int),
            inter <= union <= i,
        decreases n - i,
    {
        let x: bool = a[i] >= INK_THRESHOLD;
        let y: bool = b[i] >= INK_THRESHOLD;
        if x && y {
            inter = inter + 1;
        }
        if x || y {
            union = union + 1;
        }
        i = i + 1;
    }
    if union == 0 {
        Some(Ratio { num: 1, den: 1 })
    } else {
        Some(Ratio { num: inter as u128, den: union as u128 })
    }
}

// ---- distance -----------------------------------------------------------------------

/// A distance in thousandths of a pixel on a plane with this squared diagonal:
/// the value is `milli / (1000 · √diagonal2)`.
#[derive(Clone, Copy, Debug, PartialEq, Eq, Structural)]
pub struct Hausdorff {
    /// Thousandths of a pixel.
    pub milli: u32,
    /// The plane's diagonal, squared, in pixels.
    pub diagonal2: u32,
}

impl Hausdorff {
    /// The share of the diagonal is at most `limit` thousandths. Both sides are
    /// squared, so no root is taken.
    pub open spec fn at_most(self, limit: int) -> bool {
        self.milli * self.milli <= limit * limit * self.diagonal2
    }

    /// Whether the share of the diagonal is at most `limit` thousandths.
    pub fn within(self, limit: Milli) -> (r: bool)
        ensures
            r == self.at_most(limit as int),
    {
        proof {
            let m = self.milli as int;
            let l = limit as int;
            let d = self.diagonal2 as int;
            assert(0 <= m * m <= 0xffff_ffff * 0xffff_ffff) by (nonlinear_arith)
                requires
                    0 <= m <= 0xffff_ffff,
            ;
            assert(0 <= l * l <= 0xffff_ffff * 0xffff_ffff) by (nonlinear_arith)
                requires
                    0 <= l <= 0xffff_ffff,
            ;
            let q = l * l;
            assert(0 <= q * d <= 0xffff_ffff * 0xffff_ffff * 0xffff_ffff) by (nonlinear_arith)
                requires
                    0 <= q <= 0xffff_ffff * 0xffff_ffff,
                    0 <= d <= 0xffff_ffff,
            ;
        }
        let left: u128 = self.milli as u128 * self.milli as u128;
        let square: u128 = limit as u128 * limit as u128;
        left <= square * self.diagonal2 as u128
    }
}

/// Pixel `(x, y)` of a plane is ink.
pub open spec fn ink_at(plane: Seq<u8>, w: int, h: int, x: int, y: int) -> bool {
    0 <= x < w && 0 <= y < h && is_ink(plane, mask::pixel_at(w, x, y))
}

/// Some pixel is ink.
pub open spec fn has_ink(plane: Seq<u8>, w: int, h: int) -> bool {
    exists|x: int, y: int| #[trigger] ink_at(plane, w, h, x, y)
}

/// `d` is the distance from `(x, y)` to the nearest ink of a plane, with side
/// steps of one and corner steps of 1.414 pixels, in thousandths.
pub open spec fn ink_distance(plane: Seq<u8>, w: int, h: int, x: int, y: int, d: int) -> bool {
    &&& exists|p: int, q: int| #[trigger]
        ink_at(plane, w, h, p, q) && chamfer::chamfer_norm(x - p, y - q) == d
    &&& forall|p: int, q: int| #[trigger]
        ink_at(plane, w, h, p, q) ==> d <= chamfer::chamfer_norm(x - p, y - q)
}

/// `d` is the greatest distance from ink of `a` to the nearest ink of `b`.
pub open spec fn is_reach(a: Seq<u8>, b: Seq<u8>, w: int, h: int, d: int) -> bool {
    &&& exists|x: int, y: int| #[trigger] ink_at(a, w, h, x, y) && ink_distance(b, w, h, x, y, d)
    &&& forall|x: int, y: int, e: int|
        ink_at(a, w, h, x, y) && #[trigger] ink_distance(b, w, h, x, y, e) ==> e <= d
}

/// `v` is the symmetric Hausdorff distance between the ink of two planes.
pub open spec fn is_hausdorff(a: Seq<u8>, b: Seq<u8>, w: int, h: int, v: Hausdorff) -> bool {
    &&& v.diagonal2 == w * w + h * h
    &&& exists|f: int, g: int|
        #![trigger is_reach(a, b, w, h, f), is_reach(b, a, w, h, g)]
        is_reach(a, b, w, h, f) && is_reach(b, a, w, h, g) && v.milli == (if f < g {
            g
        } else {
            f
        })
}

/// A plane pair has one Hausdorff distance, whichever plane comes first.
pub proof fn hausdorff_is_symmetric(a: Seq<u8>, b: Seq<u8>, w: int, h: int, u: Hausdorff, v: Hausdorff)
    requires
        is_hausdorff(a, b, w, h, u),
        is_hausdorff(b, a, w, h, v),
    ensures
        u == v,
{
    let (f, g) = choose|f: int, g: int|
        #![trigger is_reach(a, b, w, h, f), is_reach(b, a, w, h, g)]
        is_reach(a, b, w, h, f) && is_reach(b, a, w, h, g) && u.milli == (if f < g {
            g
        } else {
            f
        });
    let (p, q) = choose|p: int, q: int|
        #![trigger is_reach(b, a, w, h, p), is_reach(a, b, w, h, q)]
        is_reach(b, a, w, h, p) && is_reach(a, b, w, h, q) && v.milli == (if p < q {
            q
        } else {
            p
        });
    reach_is_unique(a, b, w, h, f, q);
    reach_is_unique(b, a, w, h, g, p);
}

/// A plane pair has one Hausdorff distance.
pub proof fn hausdorff_is_unique(a: Seq<u8>, b: Seq<u8>, w: int, h: int, u: Hausdorff, v: Hausdorff)
    requires
        is_hausdorff(a, b, w, h, u),
        is_hausdorff(a, b, w, h, v),
    ensures
        u == v,
{
    let (f, g) = choose|f: int, g: int|
        #![trigger is_reach(a, b, w, h, f), is_reach(b, a, w, h, g)]
        is_reach(a, b, w, h, f) && is_reach(b, a, w, h, g) && u.milli == (if f < g {
            g
        } else {
            f
        });
    assert(is_reach(b, a, w, h, g) && is_reach(a, b, w, h, f));
    assert(is_hausdorff(b, a, w, h, u));
    hausdorff_is_symmetric(b, a, w, h, u, v);
}

proof fn reach_is_unique(a: Seq<u8>, b: Seq<u8>, w: int, h: int, f: int, g: int)
    requires
        is_reach(a, b, w, h, f),
        is_reach(a, b, w, h, g),
    ensures
        f == g,
{
    let (x, y) = choose|x: int, y: int| #[trigger]
        ink_at(a, w, h, x, y) && ink_distance(b, w, h, x, y, f);
    let (p, q) = choose|x: int, y: int| #[trigger]
        ink_at(a, w, h, x, y) && ink_distance(b, w, h, x, y, g);
    assert(f <= g && g <= f);
}

/// The pixels that are not ink.
fn free_pixels(plane: &[u8]) -> (r: Vec<bool>)
    ensures
        r@.len() == plane@.len(),
        forall|i: int| 0 <= i < plane@.len() ==> #[trigger] r@[i] == !is_ink(plane@, i),
{
    let mut out: Vec<bool> = Vec::new();
    let mut i: usize = 0;
    while i < plane.len()
        invariant
            i <= plane@.len(),
            out@.len() == i,
            forall|k: int| 0 <= k < i ==> #[trigger] out@[k] == !is_ink(plane@, k),
        decreases plane@.len() - i,
    {
        out.push(plane[i] < INK_THRESHOLD);
        i = i + 1;
    }
    out
}

/// Whether a plane has any ink.
fn some_ink(plane: &[u8], w: u32, h: u32) -> (r: bool)
    requires
        plane@.len() == w * h,
        w > 0,
    ensures
        r == has_ink(plane@, w as int, h as int),
{
    let mut i: usize = 0;
    while i < plane.len()
        invariant
            i <= plane@.len(),
            plane@.len() == w * h,
            w > 0,
            forall|k: int| 0 <= k < i ==> !#[trigger] is_ink(plane@, k),
        decreases plane@.len() - i,
    {
        if plane[i] >= INK_THRESHOLD {
            proof {
                mask::lemma_pixel_split(w as int, h as int, i as int);
                assert(ink_at(plane@, w as int, h as int, i as int % w as int, i as int / w as int));
            }
            return true;
        }
        i = i + 1;
    }
    proof {
        assert forall|x: int, y: int| !#[trigger] ink_at(plane@, w as int, h as int, x, y) by {
            if 0 <= x < w && 0 <= y < h {
                mask::lemma_pixel_in(w as int, h as int, x, y);
                assert(!is_ink(plane@, mask::pixel_at(w as int, x, y)));
            }
        }
    }
    false
}

/// The greatest distance from ink of `a` to the nearest ink of `b`.
fn reach(a: &[u8], b: &[u8], w: u32, h: u32) -> (r: u32)
    requires
        planes_match(a@, b@, w as int, h as int),
        w * w + h * h <= u32::MAX,
        has_ink(a@, w as int, h as int),
        has_ink(b@, w as int, h as int),
    ensures
        is_reach(a@, b@, w as int, h as int, r as int),
{
    let ghost iw = w as int;
    let ghost ih = h as int;
    let n: usize = a.len();
    let free = free_pixels(b);
    proof {
        side_bounds(iw, ih);
        let (x, y) = choose|x: int, y: int| #[trigger] ink_at(b@, iw, ih, x, y);
        mask::lemma_pixel_in(iw, ih, x, y);
        assert(chamfer::is_target(free@, iw, ih, x, y));
    }
    let near = chamfer::nearest_targets(w as usize, h as usize, &free);
    proof {
        assert forall|x: int, y: int| 0 <= x < iw && 0 <= y < ih implies ink_distance(
            b@,
            iw,
            ih,
            x,
            y,
            (#[trigger] near@[mask::pixel_at(iw, x, y)]) as int,
        ) by {
            let d = near@[mask::pixel_at(iw, x, y)] as int;
            assert(chamfer::is_near(free@, iw, ih, x, y, d));
            let (p, q) = choose|p: int, q: int| #[trigger]
                chamfer::is_target(free@, iw, ih, p, q) && chamfer::chamfer_norm(x - p, y - q) == d;
            mask::lemma_pixel_in(iw, ih, p, q);
            assert(ink_at(b@, iw, ih, p, q));
            assert forall|p: int, q: int| #[trigger] ink_at(b@, iw, ih, p, q) implies d
                <= chamfer::chamfer_norm(x - p, y - q) by {
                mask::lemma_pixel_in(iw, ih, p, q);
                assert(chamfer::is_target(free@, iw, ih, p, q));
            }
        }
    }
    let mut most: i32 = 0;
    let mut seen: bool = false;
    let mut i: usize = 0;
    while i < n
        invariant
            i <= n,
            n == a@.len(),
            n == near@.len(),
            n == iw * ih,
            iw > 0,
            ih > 0,
            iw == w,
            ih == h,
            forall|x: int, y: int|
                0 <= x < iw && 0 <= y < ih ==> ink_distance(
                    b@,
                    iw,
                    ih,
                    x,
                    y,
                    (#[trigger] near@[mask::pixel_at(iw, x, y)]) as int,
                ) && 0 <= near@[mask::pixel_at(iw, x, y)] < chamfer::FAR,
            0 <= most < chamfer::FAR,
            seen ==> exists|x: int, y: int| #[trigger]
                ink_at(a@, iw, ih, x, y) && ink_distance(b@, iw, ih, x, y, most as int),
            !seen ==> most == 0,
            forall|k: int| 0 <= k < i && #[trigger] is_ink(a@, k) ==> seen && near@[k] <= most,
        decreases n - i,
    {
        if a[i] >= INK_THRESHOLD {
            proof {
                mask::lemma_pixel_split(iw, ih, i as int);
                let x = i as int % iw;
                let y = i as int / iw;
                assert(near@[mask::pixel_at(iw, x, y)] == near@[i as int]);
                assert(ink_at(a@, iw, ih, x, y));
            }
            if !seen || near[i] > most {
                most = near[i];
            }
            seen = true;
        }
        i = i + 1;
    }
    proof {
        let (x, y) = choose|x: int, y: int| #[trigger] ink_at(a@, iw, ih, x, y);
        mask::lemma_pixel_in(iw, ih, x, y);
        assert(is_ink(a@, mask::pixel_at(iw, x, y)));
        assert forall|x: int, y: int, e: int|
            ink_at(a@, iw, ih, x, y) && #[trigger] ink_distance(b@, iw, ih, x, y, e) implies e
            <= most by {
            mask::lemma_pixel_in(iw, ih, x, y);
            let k = mask::pixel_at(iw, x, y);
            assert(is_ink(a@, k));
            assert(ink_distance(b@, iw, ih, x, y, near@[k] as int));
            let (p, q) = choose|p: int, q: int| #[trigger]
                ink_at(b@, iw, ih, p, q) && chamfer::chamfer_norm(x - p, y - q) == near@[k];
            assert(e <= near@[k]);
        }
    }
    most as u32
}

/// Sides whose squares fit `u32` make a plane that can be worked on.
proof fn side_bounds(w: int, h: int)
    requires
        0 < w,
        0 < h,
        w * w + h * h <= u32::MAX,
    ensures
        w <= 0xffff,
        h <= 0xffff,
        w * h <= mask::MAX_PIXELS,
        (w + 2) * (h + 2) <= u32::MAX,
{
    assert(w <= 0xffff) by (nonlinear_arith)
        requires
            0 < w,
            0 < h,
            w * w + h * h <= 0xffff_ffff,
    ;
    assert(h <= 0xffff) by (nonlinear_arith)
        requires
            0 < w,
            0 < h,
            w * w + h * h <= 0xffff_ffff,
    ;
    assert(2 * (w * h) <= w * w + h * h) by {
        assert((w - h) * (w - h) >= 0) by (nonlinear_arith);
        assert((w - h) * (w - h) == w * w - 2 * (w * h) + h * h) by (nonlinear_arith);
    }
    assert((w + 2) * (h + 2) == w * h + 2 * w + 2 * h + 4) by (nonlinear_arith);
}

/// The symmetric Hausdorff distance between the ink of two planes, as a share
/// of the plane's diagonal. `None` where the sizes do not match or a plane has
/// no ink.
pub fn hausdorff_normalised(a: &[u8], b: &[u8], w: u32, h: u32) -> (r: Option<Hausdorff>)
    requires
        planes_match(a@, b@, w as int, h as int) && has_ink(a@, w as int, h as int) && has_ink(
            b@,
            w as int,
            h as int,
        ) ==> w * w + h * h <= u32::MAX,
    ensures
        match r {
            Some(v) => planes_match(a@, b@, w as int, h as int) && has_ink(a@, w as int, h as int)
                && has_ink(b@, w as int, h as int) && is_hausdorff(a@, b@, w as int, h as int, v),
            None => !(planes_match(a@, b@, w as int, h as int) && has_ink(a@, w as int, h as int)
                && has_ink(b@, w as int, h as int)),
        },
{
    if !match_planes(a, b, w, h) {
        return None;
    }
    if !some_ink(a, w, h) || !some_ink(b, w, h) {
        return None;
    }
    let forward: u32 = reach(a, b, w, h);
    let backward: u32 = reach(b, a, w, h);
    proof {
        side_bounds(w as int, h as int);
        assert(w * w <= u32::MAX && h * h <= u32::MAX && 0 <= w * w && 0 <= h * h) by (nonlinear_arith)
            requires
                0 <= w,
                0 <= h,
                w * w + h * h <= 0xffff_ffff,
        ;
    }
    let v = Hausdorff {
        milli: if forward < backward {
            backward
        } else {
            forward
        },
        diagonal2: w * w + h * h,
    };
    assert(is_reach(a@, b@, w as int, h as int, forward as int) && is_reach(
        b@,
        a@,
        w as int,
        h as int,
        backward as int,
    ));
    assert(is_hausdorff(a@, b@, w as int, h as int, v));
    Some(v)
}

/// The numbers behind a decision on one pair.
#[derive(Clone, Copy, Debug, PartialEq, Eq, Structural)]
pub struct Verified {
    /// Ink overlap of the pair.
    pub iou: Ratio,
    /// Distance of the pair.
    pub hausdorff: Hausdorff,
    /// Either is inside its bound.
    pub pass: bool,
}

/// The overlap is at least `limit` thousandths.
pub open spec fn overlap_passes(v: Ratio, limit: int) -> bool {
    1000 * v.num >= limit * v.den
}

/// The pair can be compared: equal sizes, and ink in both planes.
pub open spec fn comparable(a: Seq<u8>, b: Seq<u8>, w: int, h: int) -> bool {
    planes_match(a, b, w, h) && has_ink(a, w, h) && has_ink(b, w, h)
}

/// `v` is what verifying a pair finds.
pub open spec fn is_verified(a: Seq<u8>, b: Seq<u8>, w: int, h: int, o: DupOptions, v: Verified) -> bool {
    &&& v.iou == iou_of(a, b)
    &&& is_hausdorff(a, b, w, h, v.hausdorff)
    &&& v.pass == (overlap_passes(v.iou, o.iou_min as int) || v.hausdorff.at_most(
        o.hausdorff_max as int,
    ))
}

/// Verifies one candidate pair: enough overlap, or a small enough distance.
pub fn verify(a: &[u8], b: &[u8], w: u32, h: u32, options: &DupOptions) -> (r: Option<Verified>)
    requires
        comparable(a@, b@, w as int, h as int) ==> w * w + h * h <= u32::MAX,
    ensures
        match r {
            Some(v) => comparable(a@, b@, w as int, h as int) && is_verified(
                a@,
                b@,
                w as int,
                h as int,
                *options,
                v,
            ),
            None => !comparable(a@, b@, w as int, h as int),
        },
{
    let iou: Ratio = match ink_iou(a, b, w, h) {
        Some(v) => v,
        None => {
            return None;
        },
    };
    let hausdorff: Hausdorff = match hausdorff_normalised(a, b, w, h) {
        Some(v) => v,
        None => {
            return None;
        },
    };
    proof {
        let l = options.iou_min as int;
        let d = iou.den as int;
        assert(0 <= l * d <= 0xffff_ffff * 0xffff_ffff_ffff_ffff) by (nonlinear_arith)
            requires
                0 <= l <= 0xffff_ffff,
                0 <= d <= 0xffff_ffff_ffff_ffff,
        ;
    }
    let pass: bool = 1000 * iou.num >= options.iou_min as u128 * iou.den || hausdorff.within(
        options.hausdorff_max,
    );
    Some(Verified { iou, hausdorff, pass })
}

/// A pair is confirmed by equal digests or by enough similarity, in billionths.
pub open spec fn is_confirmed(x: Seq<u8>, y: Seq<u8>, ssim: int, o: DupOptions) -> bool {
    x == y || ssim >= o.ssim_min * 1_000_000
}

/// Confirms a verified pair by digest or by similarity.
pub fn confirm(digest_a: &[u8; 32], digest_b: &[u8; 32], ssim: i64, options: &DupOptions) -> (r: bool)
    ensures
        r == is_confirmed(digest_a@, digest_b@, ssim as int, *options),
{
    let mut i: usize = 0;
    let mut same: bool = true;
    while i < 32
        invariant
            i <= 32,
            same <==> (forall|k: int| 0 <= k < i ==> #[trigger] digest_a@[k] == digest_b@[k]),
        decreases 32 - i,
    {
        if digest_a[i] != digest_b[i] {
            same = false;
        }
        i = i + 1;
    }
    proof {
        if same {
            assert(digest_a@ =~= digest_b@);
        }
    }
    same || ssim >= options.ssim_min as i64 * 1_000_000
}

// ---- keeper -------------------------------------------------------------------------

/// The score at position `i`; one that is missing counts as zero.
pub open spec fn score_at(scores: Seq<i64>, i: int) -> int {
    if 0 <= i < scores.len() {
        scores[i] as int
    } else {
        0
    }
}

/// Position `k` has a better score than position `j`, or the same score and no
/// greater id.
pub open spec fn holds_against(members: Seq<u32>, scores: Seq<i64>, k: int, j: int) -> bool {
    score_at(scores, j) < score_at(scores, k) || (score_at(scores, j) == score_at(scores, k)
        && members[k] <= members[j])
}

/// Position `k` has the best score, and among the best the smallest id.
pub open spec fn is_best(members: Seq<u32>, scores: Seq<i64>, k: int) -> bool {
    &&& 0 <= k < members.len()
    &&& forall|j: int| 0 <= j < members.len() ==> #[trigger] holds_against(members, scores, k, j)
}

/// `keeper` is the best member.
pub open spec fn is_keeper(members: Seq<u32>, scores: Seq<i64>, keeper: u32) -> bool {
    exists|k: int| #[trigger] is_best(members, scores, k) && members[k] == keeper
}

/// A cluster has one keeper.
pub proof fn keeper_is_unique(members: Seq<u32>, scores: Seq<i64>, a: u32, b: u32)
    requires
        is_keeper(members, scores, a),
        is_keeper(members, scores, b),
    ensures
        a == b,
{
    let i = choose|k: int| #[trigger] is_best(members, scores, k) && members[k] == a;
    let j = choose|k: int| #[trigger] is_best(members, scores, k) && members[k] == b;
    assert(holds_against(members, scores, i, j) && holds_against(members, scores, j, i));
}

/// The score at position `i`, or zero.
fn score_or_zero(scores: &[i64], i: usize) -> (r: i64)
    ensures
        r == score_at(scores@, i as int),
{
    if i < scores.len() {
        scores[i]
    } else {
        0
    }
}

/// The member with the best score; ties go to the smaller id.
pub fn suggest_keeper(members: &[u32], scores: &[i64]) -> (r: Option<u32>)
    ensures
        match r {
            Some(v) => is_keeper(members@, scores@, v),
            None => members@.len() == 0,
        },
{
    if members.len() == 0 {
        return None;
    }
    let mut best: usize = 0;
    let mut i: usize = 1;
    while i < members.len()
        invariant
            1 <= i <= members@.len(),
            best < i,
            forall|j: int|
                0 <= j < i ==> #[trigger] holds_against(members@, scores@, best as int, j),
        decreases members@.len() - i,
    {
        let s: i64 = score_or_zero(scores, i);
        let t: i64 = score_or_zero(scores, best);
        if s > t || (s == t && members[i] < members[best]) {
            assert forall|j: int| 0 <= j < i + 1 implies #[trigger] holds_against(
                members@,
                scores@,
                i as int,
                j,
            ) by {
                if j < i {
                    assert(holds_against(members@, scores@, best as int, j));
                }
            }
            best = i;
        }
        i = i + 1;
    }
    assert(is_best(members@, scores@, best as int));
    Some(members[best])
}

// ---- what a duplicate is ------------------------------------------------------------

/// Enough overlap passes a pair whatever its distance, a small enough distance
/// passes it whatever its overlap, and a pair with neither does not pass.
pub proof fn either_bound_passes(a: Seq<u8>, b: Seq<u8>, w: int, h: int, o: DupOptions, v: Verified)
    requires
        is_verified(a, b, w, h, o, v),
    ensures
        1000 * v.iou.num >= o.iou_min * v.iou.den ==> v.pass,
        v.hausdorff.milli * v.hausdorff.milli <= (o.hausdorff_max * o.hausdorff_max) * (w * w + h * h)
            ==> v.pass,
        v.pass ==> 1000 * v.iou.num >= o.iou_min * v.iou.den || v.hausdorff.milli * v.hausdorff.milli <= (
        o.hausdorff_max * o.hausdorff_max) * (w * w + h * h),
{
}

/// The overlap of a pair is the ink in both planes over the ink in either.
pub proof fn overlap_counts_ink(a: Seq<u8>, b: Seq<u8>, w: int, h: int, o: DupOptions, v: Verified)
    requires
        is_verified(a, b, w, h, o, v),
        comparable(a, b, w, h),
        a.len() <= u64::MAX,
    ensures
        v.iou.num == counting::count_below(|k: int| a[k] >= 128 && b[k] >= 128, w * h),
        v.iou.den == counting::count_below(|k: int| a[k] >= 128 || b[k] >= 128, w * h),
        v.iou.den > 0,
        v.iou.num <= v.iou.den,
{
    let n = w * h;
    let both = |k: int| a[k] >= 128 && b[k] >= 128;
    let any = |k: int| a[k] >= 128 || b[k] >= 128;
    counting::count_ext(both, both_ink(a, b), n);
    counting::count_ext(any, any_ink(a, b), n);
    counting::count_le(both, any, n);
    counting::count_bounds(both, n);
    counting::count_bounds(any, n);
    let (x, y) = choose|x: int, y: int| #[trigger] ink_at(a, w, h, x, y);
    mask::lemma_pixel_in(w, h, x, y);
    counting::count_positive(any, n, mask::pixel_at(w, x, y));
}

/// Ink of a plane within `d` thousandths of a pixel of `(x, y)`, going by side
/// steps of 1000 and corner steps of 1414.
pub open spec fn ink_within(plane: Seq<u8>, w: int, h: int, x: int, y: int, d: int) -> bool {
    exists|p: int, q: int|
        0 <= p < w && 0 <= q < h && #[trigger] plane[q * w + p] >= 128 && 1000 * (x - p) + 414 * (y - q) <= d
            && 1000 * (x - p) + 414 * (q - y) <= d && 1000 * (p - x) + 414 * (y - q) <= d && 1000 * (p - x)
            + 414 * (q - y) <= d && 414 * (x - p) + 1000 * (y - q) <= d && 414 * (x - p) + 1000 * (q - y)
            <= d && 414 * (p - x) + 1000 * (y - q) <= d && 414 * (p - x) + 1000 * (q - y) <= d
}

/// Every ink pixel of `a` has ink of `b` within `d`.
pub open spec fn ink_is_within(a: Seq<u8>, b: Seq<u8>, w: int, h: int, d: int) -> bool {
    forall|x: int, y: int|
        0 <= x < w && 0 <= y < h && #[trigger] a[y * w + x] >= 128 ==> ink_within(b, w, h, x, y, d)
}

proof fn norm_within(x: int, y: int, d: int)
    ensures
        (chamfer::chamfer_norm(x, y) <= d) == (1000 * x + 414 * y <= d && 1000 * x - 414 * y <= d && -1000 * x
            + 414 * y <= d && -1000 * x - 414 * y <= d && 414 * x + 1000 * y <= d && 414 * x - 1000 * y <= d
            && -414 * x + 1000 * y <= d && -414 * x - 1000 * y <= d),
{
}

proof fn reach_within(a: Seq<u8>, b: Seq<u8>, w: int, h: int, f: int, d: int)
    requires
        is_reach(a, b, w, h, f),
        has_ink(b, w, h),
        w > 0,
        h > 0,
    ensures
        (f <= d) == ink_is_within(a, b, w, h, d),
{
    if f <= d {
        assert forall|x: int, y: int|
            0 <= x < w && 0 <= y < h && #[trigger] a[y * w + x] >= 128 implies ink_within(b, w, h, x, y, d) by {
            assert(ink_at(a, w, h, x, y));
            let e = nearest_ink(b, w, h, x, y);
            assert(e <= f);
            let (p, q) = choose|p: int, q: int| #[trigger]
                ink_at(b, w, h, p, q) && chamfer::chamfer_norm(x - p, y - q) == e;
            norm_within(x - p, y - q, d);
            assert(b[q * w + p] >= 128);
        }
    }
    if ink_is_within(a, b, w, h, d) {
        let (x, y) = choose|x: int, y: int| #[trigger]
            ink_at(a, w, h, x, y) && ink_distance(b, w, h, x, y, f);
        assert(a[y * w + x] >= 128);
        let (p, q) = choose|p: int, q: int|
            0 <= p < w && 0 <= q < h && #[trigger] b[q * w + p] >= 128 && 1000 * (x - p) + 414 * (y - q) <= d
                && 1000 * (x - p) + 414 * (q - y) <= d && 1000 * (p - x) + 414 * (y - q) <= d && 1000 * (p - x)
                + 414 * (q - y) <= d && 414 * (x - p) + 1000 * (y - q) <= d && 414 * (x - p) + 1000 * (q - y)
                <= d && 414 * (p - x) + 1000 * (y - q) <= d && 414 * (p - x) + 1000 * (q - y) <= d;
        norm_within(x - p, y - q, d);
        assert(ink_at(b, w, h, p, q));
    }
}

/// A plane with ink has some ink nearest to a pixel.
proof fn nearest_ink(b: Seq<u8>, w: int, h: int, x: int, y: int) -> (e: int)
    requires
        has_ink(b, w, h),
    ensures
        ink_distance(b, w, h, x, y, e),
{
    let (p, q) = choose|p: int, q: int| #[trigger] ink_at(b, w, h, p, q);
    nearest_below(b, w, h, x, y, p, q)
}

proof fn nearest_below(b: Seq<u8>, w: int, h: int, x: int, y: int, p: int, q: int) -> (e: int)
    requires
        ink_at(b, w, h, p, q),
    ensures
        ink_distance(b, w, h, x, y, e),
    decreases chamfer::chamfer_norm(x - p, y - q),
{
    let d = chamfer::chamfer_norm(x - p, y - q);
    if exists|s: int, t: int| #[trigger] ink_at(b, w, h, s, t) && chamfer::chamfer_norm(x - s, y - t) < d {
        let (s, t) = choose|s: int, t: int| #[trigger]
            ink_at(b, w, h, s, t) && chamfer::chamfer_norm(x - s, y - t) < d;
        nearest_below(b, w, h, x, y, s, t)
    } else {
        assert(ink_at(b, w, h, p, q) && chamfer::chamfer_norm(x - p, y - q) == d);
        d
    }
}

/// The distance of two planes is at most `d` exactly where every ink pixel of
/// each has ink of the other within `d`.
pub proof fn distance_bounds_every_ink_pixel(a: Seq<u8>, b: Seq<u8>, w: int, h: int, v: Hausdorff, d: int)
    requires
        comparable(a, b, w, h),
        is_hausdorff(a, b, w, h, v),
    ensures
        v.diagonal2 == w * w + h * h,
        (v.milli <= d) == (ink_is_within(a, b, w, h, d) && ink_is_within(b, a, w, h, d)),
{
    let (f, g) = choose|f: int, g: int|
        #![trigger is_reach(a, b, w, h, f), is_reach(b, a, w, h, g)]
        is_reach(a, b, w, h, f) && is_reach(b, a, w, h, g) && v.milli == (if f < g {
            g
        } else {
            f
        });
    reach_within(a, b, w, h, f, d);
    reach_within(b, a, w, h, g, d);
}

/// Equal digests confirm a pair whatever its similarity, enough similarity
/// confirms it whatever its digests, and a pair with neither is not confirmed.
pub proof fn either_proof_confirms(x: Seq<u8>, y: Seq<u8>, ssim: int, o: DupOptions)
    requires
        x.len() == y.len(),
    ensures
        (forall|i: int| 0 <= i < x.len() ==> #[trigger] x[i] == y[i]) ==> is_confirmed(x, y, ssim, o),
        ssim >= 1_000_000 * o.ssim_min ==> is_confirmed(x, y, ssim, o),
        (exists|i: int| 0 <= i < x.len() && #[trigger] x[i] != y[i]) && ssim < 1_000_000 * o.ssim_min
            ==> !is_confirmed(x, y, ssim, o),
{
    if forall|i: int| 0 <= i < x.len() ==> #[trigger] x[i] == y[i] {
        assert(x =~= y);
    }
}

/// The keeper is a member, no member has a better score, and of those with the
/// same score it has the least id.
pub proof fn keeper_scores_best(members: Seq<u32>, scores: Seq<i64>, keeper: u32)
    requires
        members.len() == scores.len(),
        is_keeper(members, scores, keeper),
    ensures
        exists|k: int|
            0 <= k < members.len() && #[trigger] members[k] == keeper && forall|j: int|
                0 <= j < members.len() ==> #[trigger] scores[j] < scores[k] || (scores[j] == scores[k]
                    && members[j] >= keeper),
{
    let k = choose|k: int| #[trigger] is_best(members, scores, k) && members[k] == keeper;
    assert forall|j: int| 0 <= j < members.len() implies #[trigger] scores[j] < scores[k] || (scores[j]
        == scores[k] && members[j] >= keeper) by {
        assert(holds_against(members, scores, k, j));
    }
    assert(members[k] == keeper);
}

/// The overlap is the ink in both planes over the ink in either, and full for two
/// planes without ink.
pub proof fn blank_planes_overlap_fully(a: Seq<u8>, b: Seq<u8>, r: Ratio)
    requires
        a.len() <= u64::MAX,
        r == iou_of(a, b),
    ensures
        ({
            let both = counting::count_below(|k: int| a[k] >= 128 && b[k] >= 128, a.len() as int);
            let any = counting::count_below(|k: int| a[k] >= 128 || b[k] >= 128, a.len() as int);
            &&& r.den > 0
            &&& any == 0 ==> r.num == r.den
            &&& any > 0 ==> r.num == both && r.den == any
        }),
{
    let n = a.len() as int;
    let both = |k: int| a[k] >= 128 && b[k] >= 128;
    let any = |k: int| a[k] >= 128 || b[k] >= 128;
    counting::count_ext(both, both_ink(a, b), n);
    counting::count_ext(any, any_ink(a, b), n);
    counting::count_bounds(both, n);
    counting::count_bounds(any, n);
}

} // verus!
