//! How well a rendered document matches the pixels it was traced from.
//!
//! Both sides are ink planes: the crop's distance from the background colour,
//! and the render's alpha. The planes are aligned on their ink centroids, and
//! compared by mean absolute error, block similarity and ink overlap. All
//! scores are in billionths, rounded down.
use resvg::tiny_skia::{IntSize, Pixmap, Size, Transform};
use vstd::prelude::*;
use vstd::string::StringExecFns;
use crate::counting;
use crate::dupes;
use crate::dupes::{FULL, INK_THRESHOLD};
use crate::emit;
use crate::mask;
use crate::text;

verus! {

/// Side of a similarity block, in pixels.
pub const SSIM_BLOCK: u32 = 8;

/// Quality metrics, in billionths.
#[derive(Clone, Copy, Debug, PartialEq, Eq, Structural)]
pub struct Score {
    /// Mean absolute error of the ink planes.
    pub mae: i64,
    /// Mean block similarity of the ink planes.
    pub ssim: i64,
    /// Ink overlap.
    pub iou: i64,
    /// The weighted blend of the three.
    pub composite: i64,
}

/// The metrics with their blend: five parts similarity, three parts accuracy
/// and two parts overlap.
pub open spec fn blend(mae: int, ssim: int, iou: int) -> Score {
    Score {
        mae: mae as i64,
        ssim: ssim as i64,
        iou: iou as i64,
        composite: ((5 * ssim + 3 * (FULL - mae) + 2 * iou) / 10) as i64,
    }
}

/// Rounds a quotient down.
fn floor_div(a: i128, b: i128) -> (r: i128)
    requires
        0 < b <= 0xff_ffff_ffff_ffff_ffff_ffff_ffff_ffff,
        -0xff_ffff_ffff_ffff_ffff_ffff_ffff_ffff <= a <= 0xff_ffff_ffff_ffff_ffff_ffff_ffff_ffff,
    ensures
        r == a as int / b as int,
{
    if a >= 0 {
        (a as u128 / b as u128) as i128
    } else {
        let m: u128 = (-a) as u128;
        let d: u128 = b as u128;
        let q: u128 = (m + (d - 1)) / d;
        proof {
            let mi = m as int;
            let di = d as int;
            let qi = q as int;
            assert(qi == (mi + di - 1) / di);
            assert(-qi == (-mi) / di) by (nonlinear_arith)
                requires
                    di > 0,
                    qi == (mi + di - 1) / di,
            ;
            assert(0 <= qi <= mi + di) by (nonlinear_arith)
                requires
                    di > 0,
                    mi >= 0,
                    qi == (mi + di - 1) / di,
            ;
        }
        -(q as i128)
    }
}

impl Score {
    /// Blends the three metrics.
    pub fn new(mae: i64, ssim: i64, iou: i64) -> (r: Score)
        requires
            0 <= mae <= FULL,
            -FULL <= ssim <= FULL,
            0 <= iou <= FULL,
        ensures
            r == blend(mae as int, ssim as int, iou as int),
            -FULL <= r.composite <= FULL,
    {
        let sum: i128 = 5 * (ssim as i128) + 3 * ((FULL - mae) as i128) + 2 * (iou as i128);
        let composite: i128 = floor_div(sum, 10);
        Score { mae, ssim, iou, composite: composite as i64 }
    }
}

// ---- alignment ----------------------------------------------------------------------

/// The total weight of a plane.
pub open spec fn weight(p: Seq<u8>) -> int {
    counting::sum_below(|i: int| p[i] as int, p.len() as int)
}

/// The weighted sum of columns.
pub open spec fn x_sum(p: Seq<u8>, w: int) -> int {
    counting::sum_below(|i: int| (i % w) * p[i], p.len() as int)
}

/// The weighted sum of rows.
pub open spec fn y_sum(p: Seq<u8>, w: int) -> int {
    counting::sum_below(|i: int| (i / w) * p[i], p.len() as int)
}

/// `num / den` rounded to nearest, halves away from zero.
pub open spec fn rounded(num: int, den: int) -> int {
    if num >= 0 {
        (2 * num + den) / (2 * den)
    } else {
        -((2 * (-num) + den) / (2 * den))
    }
}

/// How far the render has to move for the ink centroids to meet, to whole
/// pixels. A plane without ink has no centroid, and nothing moves.
pub open spec fn shift_of(reference: Seq<u8>, render: Seq<u8>, w: int) -> (int, int) {
    let a = weight(reference);
    let b = weight(render);
    if a == 0 || b == 0 {
        (0, 0)
    } else {
        (
            rounded(x_sum(reference, w) * b - x_sum(render, w) * a, a * b),
            rounded(y_sum(reference, w) * b - y_sum(render, w) * a, a * b),
        )
    }
}

/// The pixel at `(x, y)`; nothing stands off the plane.
pub open spec fn pixel_or_zero(p: Seq<u8>, w: int, h: int, x: int, y: int) -> u8 {
    if 0 <= x < w && 0 <= y < h {
        p[mask::pixel_at(w, x, y)]
    } else {
        0
    }
}

/// The plane moved by `by`.
pub open spec fn moved(p: Seq<u8>, w: int, h: int, dx: int, dy: int) -> Seq<u8> {
    Seq::new(p.len(), |i: int| pixel_or_zero(p, w, h, i % w - dx, i / w - dy))
}

/// The three weighted sums of a plane: weight, columns, rows.
fn plane_sums(p: &[u8], w: u32) -> (r: (u128, u128, u128))
    requires
        w > 0,
        p@.len() <= u32::MAX,
    ensures
        r.0 == weight(p@),
        r.1 == x_sum(p@, w as int),
        r.2 == y_sum(p@, w as int),
        r.0 <= 0x100_0000_0000,
        r.1 <= 0x100_0000_0000_0000_0000,
        r.2 <= 0x100_0000_0000_0000_0000,
{
    let n: usize = p.len();
    let mut s: u128 = 0;
    let mut sx: u128 = 0;
    let mut sy: u128 = 0;
    let mut i: usize = 0;
    let ghost f = |i: int| p@[i] as int;
    let ghost fx = |i: int| (i % (w as int)) * p@[i];
    let ghost fy = |i: int| (i / (w as int)) * p@[i];
    while i < n
        invariant
            i <= n,
            n == p@.len(),
            n <= u32::MAX,
            w > 0,
            f == (|i: int| p@[i] as int),
            fx == (|i: int| (i % (w as int)) * p@[i]),
            fy == (|i: int| (i / (w as int)) * p@[i]),
            s == counting::sum_below(f, i as int),
            sx == counting::sum_below(fx, i as int),
            sy == counting::sum_below(fy, i as int),
            s <= 255 * i,
            sx <= 0xff_0000_0000 * i,
            sy <= 0xff_0000_0000 * i,
        decreases n - i,
    {
        let v: u128 = p[i] as u128;
        let x: u128 = (i % w as usize) as u128;
        let y: u128 = (i / w as usize) as u128;
        proof {
            let xi = x as int;
            let yi = y as int;
            let vi = v as int;
            assert(yi <= i) by (nonlinear_arith)
                requires
                    yi == i as int / w as int,
                    w > 0,
                    i >= 0,
            ;
            assert(0 <= xi * vi <= 0xff_0000_0000) by (nonlinear_arith)
                requires
                    0 <= xi <= 0xffff_ffff,
                    0 <= vi <= 255,
            ;
            assert(0 <= yi * vi <= 0xff_0000_0000) by (nonlinear_arith)
                requires
                    0 <= yi <= 0xffff_ffff,
                    0 <= vi <= 255,
            ;
        }
        s = s + v;
        sx = sx + x * v;
        sy = sy + y * v;
        i = i + 1;
    }
    (s, sx, sy)
}

/// `num / den` rounded to nearest, halves away from zero.
fn round_div(num: i128, den: i128) -> (r: i128)
    requires
        0 < den <= 0x1_0000_0000_0000_0000_0000,
        -0x1_0000_0000_0000_0000_0000_0000_0000 <= num <= 0x1_0000_0000_0000_0000_0000_0000_0000,
    ensures
        r == rounded(num as int, den as int),
        -0x1_ffff_ffff_ffff_ffff_ffff_ffff_ffff <= r <= 0x1_ffff_ffff_ffff_ffff_ffff_ffff_ffff,
{
    let neg: bool = num < 0;
    let m: u128 = if neg {
        (-num) as u128
    } else {
        num as u128
    };
    let d: u128 = den as u128;
    let q: u128 = (2 * m + d) / (2 * d);
    proof {
        let mi = m as int;
        let di = d as int;
        assert(0 <= (2 * mi + di) / (2 * di) <= mi + 1) by (nonlinear_arith)
            requires
                di > 0,
                mi >= 0,
        ;
    }
    if neg {
        -(q as i128)
    } else {
        q as i128
    }
}

/// How far the render has to move.
fn find_shift(reference: &[u8], render: &[u8], w: u32) -> (r: (i128, i128))
    requires
        w > 0,
        reference@.len() <= u32::MAX,
        render@.len() <= u32::MAX,
    ensures
        r.0 == shift_of(reference@, render@, w as int).0,
        r.1 == shift_of(reference@, render@, w as int).1,
        -0x1_ffff_ffff_ffff_ffff_ffff_ffff_ffff <= r.0 <= 0x1_ffff_ffff_ffff_ffff_ffff_ffff_ffff,
        -0x1_ffff_ffff_ffff_ffff_ffff_ffff_ffff <= r.1 <= 0x1_ffff_ffff_ffff_ffff_ffff_ffff_ffff,
{
    let (a, ax, ay): (u128, u128, u128) = plane_sums(reference, w);
    let (b, bx, by_rows): (u128, u128, u128) = plane_sums(render, w);
    if a == 0 || b == 0 {
        return (0, 0);
    }
    proof {
        product_bound(a as int, b as int);
        wide_bound(ax as int, b as int);
        wide_bound(bx as int, a as int);
        wide_bound(ay as int, b as int);
        wide_bound(by_rows as int, a as int);
        assert(a * b > 0) by (nonlinear_arith)
            requires
                a > 0,
                b > 0,
        ;
    }
    let den: i128 = (a * b) as i128;
    let x: i128 = (ax * b) as i128 - (bx * a) as i128;
    let y: i128 = (ay * b) as i128 - (by_rows * a) as i128;
    (round_div(x, den), round_div(y, den))
}

proof fn product_bound(a: int, b: int)
    requires
        0 <= a <= 0x100_0000_0000,
        0 <= b <= 0x100_0000_0000,
    ensures
        0 <= a * b <= 0x1_0000_0000_0000_0000_0000,
{
    assert(0 <= a * b <= 0x1_0000_0000_0000_0000_0000) by (nonlinear_arith)
        requires
            0 <= a <= 0x100_0000_0000,
            0 <= b <= 0x100_0000_0000,
    ;
}

proof fn wide_bound(a: int, b: int)
    requires
        0 <= a <= 0x100_0000_0000_0000_0000,
        0 <= b <= 0x100_0000_0000,
    ensures
        0 <= a * b <= 0x1_0000_0000_0000_0000_0000_0000_0000,
{
    assert(0 <= a * b <= 0x1_0000_0000_0000_0000_0000_0000_0000) by (nonlinear_arith)
        requires
            0 <= a <= 0x100_0000_0000_0000_0000,
            0 <= b <= 0x100_0000_0000,
    ;
}

/// Moves a plane.
fn move_plane(p: &[u8], w: u32, h: u32, dx: i128, dy: i128) -> (r: Vec<u8>)
    requires
        w > 0,
        p@.len() == w * h,
        p@.len() <= u32::MAX,
        -0x1_ffff_ffff_ffff_ffff_ffff_ffff_ffff <= dx <= 0x1_ffff_ffff_ffff_ffff_ffff_ffff_ffff,
        -0x1_ffff_ffff_ffff_ffff_ffff_ffff_ffff <= dy <= 0x1_ffff_ffff_ffff_ffff_ffff_ffff_ffff,
    ensures
        r@ == moved(p@, w as int, h as int, dx as int, dy as int),
{
    let n: usize = p.len();
    let ghost goal = moved(p@, w as int, h as int, dx as int, dy as int);
    let mut out: Vec<u8> = Vec::new();
    let mut i: usize = 0;
    while i < n
        invariant
            i <= n,
            n == p@.len(),
            n <= u32::MAX,
            w > 0,
            n == w * h,
            goal == moved(p@, w as int, h as int, dx as int, dy as int),
            -0x1_ffff_ffff_ffff_ffff_ffff_ffff_ffff <= dx <= 0x1_ffff_ffff_ffff_ffff_ffff_ffff_ffff,
            -0x1_ffff_ffff_ffff_ffff_ffff_ffff_ffff <= dy <= 0x1_ffff_ffff_ffff_ffff_ffff_ffff_ffff,
            out@.len() == i,
            forall|k: int| 0 <= k < i ==> #[trigger] out@[k] == goal[k],
        decreases n - i,
    {
        proof {
            assert(0 <= i as int / w as int <= i) by (nonlinear_arith)
                requires
                    w > 0,
                    i >= 0,
            ;
        }
        let x: i128 = (i % w as usize) as i128 - dx;
        let y: i128 = (i / w as usize) as i128 - dy;
        let v: u8 = if 0 <= x && x < w as i128 && 0 <= y && y < h as i128 {
            proof {
                mask::lemma_pixel_in(w as int, h as int, x as int, y as int);
            }
            p[y as usize * w as usize + x as usize]
        } else {
            0
        };
        out.push(v);
        i = i + 1;
    }
    assert(out@ =~= goal);
    out
}

// ---- block similarity ---------------------------------------------------------------

/// The `t`-th pixel of the block at `(x0, y0)` that is `bw` wide.
pub open spec fn block_pixel(w: int, x0: int, y0: int, bw: int, t: int) -> int {
    mask::pixel_at(w, x0 + t % bw, y0 + t / bw)
}

/// A plane's values over a block.
pub open spec fn values(p: Seq<u8>, w: int, x0: int, y0: int, bw: int) -> spec_fn(int) -> int {
    |t: int| p[block_pixel(w, x0, y0, bw, t)] as int
}

/// The products of two lists of values.
pub open spec fn products(f: spec_fn(int) -> int, g: spec_fn(int) -> int) -> spec_fn(int) -> int {
    |t: int| f(t) * g(t)
}

/// The structural similarity of two lists of `n` values, in billionths rounded
/// down, with the constants `C1 = (0.01 · 255)²` and `C2 = (0.03 · 255)²`. Every
/// factor is multiplied by ten thousand and by `n²`, which makes it an integer.
pub open spec fn similarity(f: spec_fn(int) -> int, g: spec_fn(int) -> int, n: int) -> int {
    let sa = counting::sum_below(f, n);
    let sb = counting::sum_below(g, n);
    let saa = counting::sum_below(products(f, f), n);
    let sbb = counting::sum_below(products(g, g), n);
    let sab = counting::sum_below(products(f, g), n);
    similarity_of(sa, sb, saa, sbb, sab, n)
}

/// The similarity of two lists with these sums.
pub open spec fn similarity_of(sa: int, sb: int, saa: int, sbb: int, sab: int, n: int) -> int {
    let means = 20000 * (sa * sb) + 65025 * (n * n);
    let mean_squares = 10000 * (sa * sa + sb * sb) + 65025 * (n * n);
    let covariance = 20000 * (n * sab - sa * sb) + 585225 * (n * n);
    let variances = 10000 * ((n * saa - sa * sa) + (n * sbb - sb * sb)) + 585225 * (n * n);
    (FULL * (means * covariance)) / (mean_squares * variances)
}

/// The similarity of the block at `(x0, y0)`, cut off at the edges.
pub open spec fn block_similarity(a: Seq<u8>, b: Seq<u8>, w: int, h: int, x0: int, y0: int) -> int {
    let bw = if w - x0 < 8 {
        w - x0
    } else {
        8
    };
    let bh = if h - y0 < 8 {
        h - y0
    } else {
        8
    };
    similarity(values(a, w, x0, y0, bw), values(b, w, x0, y0, bw), bw * bh)
}

/// How many blocks cover `n` pixels.
pub open spec fn blocks(n: int) -> int {
    (n + 7) / 8
}

/// The similarity of the `k`-th block.
pub open spec fn nth_similarity(a: Seq<u8>, b: Seq<u8>, w: int, h: int) -> spec_fn(int) -> int {
    |k: int| block_similarity(a, b, w, h, 8 * (k % blocks(w)), 8 * (k / blocks(w)))
}

/// The mean similarity over all blocks; one where there is none.
pub open spec fn ssim_of(a: Seq<u8>, b: Seq<u8>, w: int, h: int) -> int {
    let n = blocks(w) * blocks(h);
    if n == 0 {
        FULL as int
    } else {
        counting::sum_below(nth_similarity(a, b, w, h), n) / n
    }
}

/// The square of a sum is at most the count times the sum of squares.
proof fn cauchy(d: spec_fn(int) -> int, n: int)
    requires
        0 <= n,
    ensures
        counting::sum_below(d, n) * counting::sum_below(d, n) <= n * counting::sum_below(
            products(d, d),
            n,
        ),
    decreases n,
{
    if n > 0 {
        cauchy(d, n - 1);
        let k = n - 1;
        let s = counting::sum_below(d, k);
        let q = counting::sum_below(products(d, d), k);
        let v = d(k);
        assert(counting::sum_below(d, n) == s + v);
        assert(counting::sum_below(products(d, d), n) == q + v * v);
        cauchy_step(k, s, q, v);
    }
}

proof fn cauchy_step(k: int, s: int, q: int, v: int)
    requires
        0 <= k,
        s * s <= k * q,
        k == 0 ==> s == 0 && q == 0,
    ensures
        (s + v) * (s + v) <= (k + 1) * (q + v * v),
{
    if k == 0 {
        assert((0 + v) * (0 + v) <= (0 + 1) * (0 + v * v)) by (nonlinear_arith);
    } else {
        let rest = q + k * (v * v) - 2 * (s * v);
        assert(k * rest == k * q - s * s + (s - k * v) * (s - k * v)) by (nonlinear_arith)
            requires
                rest == q + k * (v * v) - 2 * (s * v),
        ;
        assert((s - k * v) * (s - k * v) >= 0) by (nonlinear_arith);
        assert(rest >= 0) by (nonlinear_arith)
            requires
                k * rest >= 0,
                k > 0,
        ;
        assert((k + 1) * (q + v * v) - (s + v) * (s + v) == (k * q - s * s) + rest) by (nonlinear_arith)
            requires
                rest == q + k * (v * v) - 2 * (s * v),
        ;
    }
}

/// Sums of combined values, by parts.
proof fn combined_sums(f: spec_fn(int) -> int, g: spec_fn(int) -> int, sign: int, n: int)
    requires
        0 <= n,
        sign == 1 || sign == -1,
    ensures
        ({
            let d = |t: int| f(t) + sign * g(t);
            &&& counting::sum_below(d, n) == counting::sum_below(f, n) + sign * counting::sum_below(g, n)
            &&& counting::sum_below(products(d, d), n) == counting::sum_below(products(f, f), n)
                + counting::sum_below(products(g, g), n) + 2 * sign * counting::sum_below(
                products(f, g),
                n,
            )
        }),
    decreases n,
{
    let d = |t: int| f(t) + sign * g(t);
    if n > 0 {
        combined_sums(f, g, sign, n - 1);
        let a = f(n - 1);
        let b = g(n - 1);
        assert(d(n - 1) == a + sign * b);
        assert(products(d, d)(n - 1) == (a + sign * b) * (a + sign * b));
        assert((a + sign * b) * (a + sign * b) == a * a + b * b + 2 * sign * (a * b)) by (nonlinear_arith)
            requires
                sign == 1 || sign == -1,
        ;
        let p = counting::sum_below(products(f, g), n - 1);
        assert(2 * sign * (p + a * b) == 2 * sign * p + 2 * sign * (a * b)) by (nonlinear_arith);
        let q = counting::sum_below(g, n - 1);
        assert(sign * (q + b) == sign * q + sign * b) by (nonlinear_arith);
    }
}

/// What the sums of two lists of bytes satisfy.
spec fn sums_fit(sa: int, sb: int, saa: int, sbb: int, sab: int, n: int) -> bool {
    &&& 0 <= sa <= 255 * n
    &&& 0 <= sb <= 255 * n
    &&& 0 <= saa <= 65025 * n
    &&& 0 <= sbb <= 65025 * n
    &&& 0 <= sab <= 65025 * n
    &&& (sa + sb) * (sa + sb) <= n * (saa + sbb + 2 * sab)
    &&& (sa - sb) * (sa - sb) <= n * (saa + sbb - 2 * sab)
}

/// The four factors are in range, and no similarity exceeds one.
proof fn factor_bounds(sa: int, sb: int, saa: int, sbb: int, sab: int, n: int)
    requires
        1 <= n <= 64,
        sums_fit(sa, sb, saa, sbb, sab, n),
    ensures
        ({
            let means = 20000 * (sa * sb) + 65025 * (n * n);
            let mean_squares = 10000 * (sa * sa + sb * sb) + 65025 * (n * n);
            let covariance = 20000 * (n * sab - sa * sb) + 585225 * (n * n);
            let variances = 10000 * ((n * saa - sa * sa) + (n * sbb - sb * sb)) + 585225 * (n * n);
            &&& 0 < means <= mean_squares <= 0x800_0000_0000
            &&& -variances <= covariance <= variances
            &&& 0 < variances <= 0x800_0000_0000
            &&& 0 <= sa * sb <= 0x1000_0000
            &&& 0 <= n * sab <= 0x1000_0000
            &&& 0 <= sa * sa <= 0x1000_0000
            &&& 0 <= sb * sb <= 0x1000_0000
            &&& 0 <= n * saa <= 0x1000_0000
            &&& 0 <= n * sbb <= 0x1000_0000
            &&& 0 < n * n <= 4096
        }),
{
    assert(0 < n * n <= 4096) by (nonlinear_arith)
        requires
            1 <= n <= 64,
    ;
    assert(0 <= sa * sb <= 16320 * 16320) by (nonlinear_arith)
        requires
            0 <= sa <= 16320,
            0 <= sb <= 16320,
    ;
    assert(0 <= sa * sa <= 16320 * 16320) by (nonlinear_arith)
        requires
            0 <= sa <= 16320,
    ;
    assert(0 <= sb * sb <= 16320 * 16320) by (nonlinear_arith)
        requires
            0 <= sb <= 16320,
    ;
    assert(0 <= n * saa <= 64 * 4161600) by (nonlinear_arith)
        requires
            1 <= n <= 64,
            0 <= saa <= 4161600,
    ;
    assert(0 <= n * sbb <= 64 * 4161600) by (nonlinear_arith)
        requires
            1 <= n <= 64,
            0 <= sbb <= 4161600,
    ;
    assert(0 <= n * sab <= 64 * 4161600) by (nonlinear_arith)
        requires
            1 <= n <= 64,
            0 <= sab <= 4161600,
    ;
    assert((sa - sb) * (sa - sb) == sa * sa + sb * sb - 2 * (sa * sb)) by (nonlinear_arith);
    assert((sa + sb) * (sa + sb) == sa * sa + sb * sb + 2 * (sa * sb)) by (nonlinear_arith);
    assert((sa - sb) * (sa - sb) >= 0) by (nonlinear_arith);
    assert(n * (saa + sbb + 2 * sab) == n * saa + n * sbb + 2 * (n * sab)) by (nonlinear_arith);
    assert(n * (saa + sbb - 2 * sab) == n * saa + n * sbb - 2 * (n * sab)) by (nonlinear_arith);
}

/// A similarity lies between minus one and one.
proof fn similarity_bounds(sa: int, sb: int, saa: int, sbb: int, sab: int, n: int)
    requires
        1 <= n <= 64,
        sums_fit(sa, sb, saa, sbb, sab, n),
    ensures
        -FULL <= similarity_of(sa, sb, saa, sbb, sab, n) <= FULL,
{
    factor_bounds(sa, sb, saa, sbb, sab, n);
    let means = 20000 * (sa * sb) + 65025 * (n * n);
    let mean_squares = 10000 * (sa * sa + sb * sb) + 65025 * (n * n);
    let covariance = 20000 * (n * sab - sa * sb) + 585225 * (n * n);
    let variances = 10000 * ((n * saa - sa * sa) + (n * sbb - sb * sb)) + 585225 * (n * n);
    quotient_bounds(means, mean_squares, covariance, variances);
}

proof fn quotient_bounds(a: int, b: int, c: int, d: int)
    requires
        0 < a <= b,
        -d <= c <= d,
        0 < d,
    ensures
        -FULL <= (FULL * (a * c)) / (b * d) <= FULL,
        0 < b * d,
        -(b * d) <= a * c <= b * d,
{
    assert(0 < b * d) by (nonlinear_arith)
        requires
            0 < b,
            0 < d,
    ;
    assert(a * c <= b * d) by (nonlinear_arith)
        requires
            0 < a <= b,
            c <= d,
            0 < d,
    ;
    assert(-(b * d) <= a * c) by (nonlinear_arith)
        requires
            0 < a <= b,
            -d <= c,
            0 < d,
    ;
    let x = a * c;
    let y = b * d;
    assert(-1_000_000_000 <= (1_000_000_000 * x) / y <= 1_000_000_000) by (nonlinear_arith)
        requires
            -y <= x <= y,
            0 < y,
    ;
}

/// The sums over a block of two planes.
fn block_sums(a: &[u8], b: &[u8], w: u32, h: u32, x0: u32, y0: u32, bw: u32, bh: u32) -> (r: (
    i128,
    i128,
    i128,
    i128,
    i128,
))
    requires
        a@.len() == w * h,
        b@.len() == w * h,
        1 <= bw <= 8,
        1 <= bh <= 8,
        x0 + bw <= w,
        y0 + bh <= h,
    ensures
        ({
            let f = values(a@, w as int, x0 as int, y0 as int, bw as int);
            let g = values(b@, w as int, x0 as int, y0 as int, bw as int);
            let n = bw * bh;
            &&& r.0 == counting::sum_below(f, n)
            &&& r.1 == counting::sum_below(g, n)
            &&& r.2 == counting::sum_below(products(f, f), n)
            &&& r.3 == counting::sum_below(products(g, g), n)
            &&& r.4 == counting::sum_below(products(f, g), n)
            &&& sums_fit(r.0 as int, r.1 as int, r.2 as int, r.3 as int, r.4 as int, n)
            &&& 1 <= n <= 64
        }),
{
    let ghost f = values(a@, w as int, x0 as int, y0 as int, bw as int);
    let ghost g = values(b@, w as int, x0 as int, y0 as int, bw as int);
    proof {
        assert(1 <= bw * bh <= 64) by (nonlinear_arith)
            requires
                1 <= bw <= 8,
                1 <= bh <= 8,
        ;
    }
    let n: u32 = bw * bh;
    let len: usize = a.len();
    let mut sa: i128 = 0;
    let mut sb: i128 = 0;
    let mut saa: i128 = 0;
    let mut sbb: i128 = 0;
    let mut sab: i128 = 0;
    let mut t: u32 = 0;
    while t < n
        invariant
            t <= n,
            n == bw * bh,
            1 <= n <= 64,
            len == a@.len(),
            a@.len() == w * h,
            b@.len() == w * h,
            1 <= bw <= 8,
            1 <= bh <= 8,
            x0 + bw <= w,
            y0 + bh <= h,
            f == values(a@, w as int, x0 as int, y0 as int, bw as int),
            g == values(b@, w as int, x0 as int, y0 as int, bw as int),
            sa == counting::sum_below(f, t as int),
            sb == counting::sum_below(g, t as int),
            saa == counting::sum_below(products(f, f), t as int),
            sbb == counting::sum_below(products(g, g), t as int),
            sab == counting::sum_below(products(f, g), t as int),
            0 <= sa <= 255 * t,
            0 <= sb <= 255 * t,
            0 <= saa <= 65025 * t,
            0 <= sbb <= 65025 * t,
            0 <= sab <= 65025 * t,
        decreases n - t,
    {
        let x: u32 = x0 + t % bw;
        proof {
            assert(0 <= t as int / bw as int && t as int / bw as int + 1 <= bh) by (nonlinear_arith)
                requires
                    0 <= t < bw * bh,
                    bw >= 1,
            ;
        }
        let y: u32 = y0 + t / bw;
        proof {
            mask::lemma_pixel_in(w as int, h as int, x as int, y as int);
        }
        let i: usize = y as usize * w as usize + x as usize;
        let u: i128 = a[i] as i128;
        let v: i128 = b[i] as i128;
        proof {
            assert(0 <= u * u <= 65025 && 0 <= v * v <= 65025 && 0 <= u * v <= 65025) by (nonlinear_arith)
                requires
                    0 <= u <= 255,
                    0 <= v <= 255,
            ;
            assert(f(t as int) == u && g(t as int) == v);
        }
        sa = sa + u;
        sb = sb + v;
        saa = saa + u * u;
        sbb = sbb + v * v;
        sab = sab + u * v;
        t = t + 1;
    }
    proof {
        combined_sums(f, g, 1, n as int);
        combined_sums(f, g, -1, n as int);
        cauchy(|t: int| f(t) + 1 * g(t), n as int);
        cauchy(|t: int| f(t) + (-1) * g(t), n as int);
    }
    (sa, sb, saa, sbb, sab)
}

/// The similarity of one block.
fn block_score(a: &[u8], b: &[u8], w: u32, h: u32, x0: u32, y0: u32) -> (r: i128)
    requires
        a@.len() == w * h,
        b@.len() == w * h,
        x0 < w,
        y0 < h,
    ensures
        r == block_similarity(a@, b@, w as int, h as int, x0 as int, y0 as int),
        -FULL <= r <= FULL,
{
    let bw: u32 = if w - x0 < SSIM_BLOCK {
        w - x0
    } else {
        SSIM_BLOCK
    };
    let bh: u32 = if h - y0 < SSIM_BLOCK {
        h - y0
    } else {
        SSIM_BLOCK
    };
    let (sa, sb, saa, sbb, sab): (i128, i128, i128, i128, i128) = block_sums(
        a,
        b,
        w,
        h,
        x0,
        y0,
        bw,
        bh,
    );
    let n: i128 = bw as i128 * bh as i128;
    proof {
        factor_bounds(sa as int, sb as int, saa as int, sbb as int, sab as int, n as int);
        similarity_bounds(sa as int, sb as int, saa as int, sbb as int, sab as int, n as int);
    }
    let square: i128 = n * n;
    let cross: i128 = sa * sb;
    let means: i128 = 20000 * cross + 65025 * square;
    let mean_squares: i128 = 10000 * (sa * sa + sb * sb) + 65025 * square;
    let covariance: i128 = 20000 * (n * sab - cross) + 585225 * square;
    let variances: i128 = 10000 * ((n * saa - sa * sa) + (n * sbb - sb * sb)) + 585225 * square;
    proof {
        quotient_bounds(means as int, mean_squares as int, covariance as int, variances as int);
        assert(mean_squares * variances <= 0x40_0000_0000_0000_0000_0000) by (nonlinear_arith)
            requires
                0 < mean_squares <= 0x800_0000_0000,
                0 < variances <= 0x800_0000_0000,
        ;
    }
    floor_div(FULL as i128 * (means * covariance), mean_squares * variances)
}

/// The mean block similarity of two planes.
fn ssim_planes(a: &[u8], b: &[u8], w: u32, h: u32) -> (r: i64)
    requires
        a@.len() == w * h,
        b@.len() == w * h,
        w * h <= u32::MAX,
    ensures
        r == ssim_of(a@, b@, w as int, h as int),
        -FULL <= r <= FULL,
{
    if w == 0 || h == 0 {
        proof {
            let n = blocks(w as int) * blocks(h as int);
            assert(n == 0) by (nonlinear_arith)
                requires
                    n == blocks(w as int) * blocks(h as int),
                    blocks(w as int) == 0 || blocks(h as int) == 0,
            ;
        }
        return FULL;
    }
    let bx: u64 = (w as u64 + 7) / 8;
    let by_rows: u64 = (h as u64 + 7) / 8;
    proof {
        assert(1 <= bx * by_rows <= 0x2000_0000 * 0x2000_0000) by (nonlinear_arith)
            requires
                1 <= bx <= 0x2000_0000,
                1 <= by_rows <= 0x2000_0000,
        ;
    }
    let n: u64 = bx * by_rows;
    let ghost f = nth_similarity(a@, b@, w as int, h as int);
    let mut total: i128 = 0;
    let mut k: u64 = 0;
    while k < n
        invariant
            k <= n,
            n == bx * by_rows,
            n <= 0x2000_0000 * 0x2000_0000,
            bx == blocks(w as int),
            by_rows == blocks(h as int),
            1 <= bx <= 0x2000_0000,
            w > 0,
            h > 0,
            a@.len() == w * h,
            b@.len() == w * h,
            f == nth_similarity(a@, b@, w as int, h as int),
            total == counting::sum_below(f, k as int),
            -(FULL * k) <= total <= FULL * k,
        decreases n - k,
    {
        proof {
            assert(0 <= k as int / bx as int && k as int / bx as int + 1 <= by_rows) by (nonlinear_arith)
                requires
                    0 <= k < bx * by_rows,
                    bx >= 1,
            ;
        }
        let x0: u32 = (8 * (k % bx)) as u32;
        let y0: u32 = (8 * (k / bx)) as u32;
        total = total + block_score(a, b, w, h, x0, y0);
        k = k + 1;
    }
    let mean: i128 = floor_div(total, n as i128);
    proof {
        let t = total as int;
        let m = n as int;
        assert(-1_000_000_000 <= t / m <= 1_000_000_000) by (nonlinear_arith)
            requires
                m >= 1,
                -(1_000_000_000 * m) <= t <= 1_000_000_000 * m,
        ;
    }
    mean as i64
}

// ---- comparison ---------------------------------------------------------------------

/// The distance of two values.
pub open spec fn gap(a: u8, b: u8) -> int {
    if a < b {
        b - a
    } else {
        a - b
    }
}

/// The total absolute error of two planes.
pub open spec fn error_sum(a: Seq<u8>, b: Seq<u8>) -> int {
    counting::sum_below(|i: int| gap(a[i], b[i]), a.len() as int)
}

/// The scores of two aligned planes.
pub open spec fn aligned_score(a: Seq<u8>, b: Seq<u8>, w: int, h: int) -> Score {
    let n = a.len() as int;
    let inter = counting::count_below(dupes::both_ink(a, b), n);
    let union = counting::count_below(dupes::any_ink(a, b), n);
    blend(
        (FULL * error_sum(a, b)) / (255 * n),
        ssim_of(a, b, w, h),
        if union == 0 {
            FULL as int
        } else {
            (FULL * inter) / union
        },
    )
}

/// The scores of a render against its reference.
pub open spec fn score_of(reference: Seq<u8>, render: Seq<u8>, w: int, h: int) -> Score {
    let (dx, dy) = shift_of(reference, render, w);
    aligned_score(reference, moved(render, w, h, dx, dy), w, h)
}

/// Aligns the render with its reference and scores it.
pub fn compare_planes(reference: &[u8], render: &[u8], w: u32, h: u32) -> (r: Score)
    requires
        w > 0,
        h > 0,
        reference@.len() == w * h,
        render@.len() == w * h,
        w * h <= u32::MAX,
    ensures
        r == score_of(reference@, render@, w as int, h as int),
        0 <= r.mae <= FULL,
        -FULL <= r.ssim <= FULL,
        0 <= r.iou <= FULL,
        -FULL <= r.composite <= FULL,
{
    let (dx, dy): (i128, i128) = find_shift(reference, render, w);
    let aligned = move_plane(render, w, h, dx, dy);
    let n: usize = reference.len();
    let ghost ra = reference@;
    let ghost al = aligned@;
    let ghost f = |i: int| gap(ra[i], al[i]);
    let mut abs_sum: u64 = 0;
    let mut inter: u64 = 0;
    let mut union: u64 = 0;
    let mut i: usize = 0;
    while i < n
        invariant
            i <= n,
            n == ra.len(),
            n == al.len(),
            n <= u32::MAX,
            ra == reference@,
            al == aligned@,
            f == (|i: int| gap(ra[i], al[i])),
            abs_sum == counting::sum_below(f, i as int),
            abs_sum <= 255 * i,
            inter == counting::count_below(dupes::both_ink(ra, al), i as int),
            union == counting::count_below(dupes::any_ink(ra, al), i as int),
            inter <= union <= i,
        decreases n - i,
    {
        let a: u8 = reference[i];
        let b: u8 = aligned[i];
        let d: u8 = if a < b {
            b - a
        } else {
            a - b
        };
        abs_sum = abs_sum + d as u64;
        let x: bool = a >= INK_THRESHOLD;
        let y: bool = b >= INK_THRESHOLD;
        if x && y {
            inter = inter + 1;
        }
        if x || y {
            union = union + 1;
        }
        i = i + 1;
    }
    proof {
        assert(w * h >= 1) by (nonlinear_arith)
            requires
                w >= 1,
                h >= 1,
        ;
        let e = abs_sum as int;
        let m = 255 * n as int;
        assert(0 <= (1_000_000_000 * e) / m <= 1_000_000_000) by (nonlinear_arith)
            requires
                0 <= e <= m,
                m >= 1,
        ;
        if union > 0 {
            let p = inter as int;
            let q = union as int;
            assert(0 <= (1_000_000_000 * p) / q <= 1_000_000_000) by (nonlinear_arith)
                requires
                    0 <= p <= q,
                    q >= 1,
            ;
        }
    }
    let mae: i64 = ((FULL as u128 * abs_sum as u128) / (255 * n as u128)) as i64;
    let iou: i64 = if union == 0 {
        FULL
    } else {
        ((FULL as u128 * inter as u128) / union as u128) as i64
    };
    let ssim: i64 = ssim_planes(reference, aligned.as_slice(), w, h);
    Score::new(mae, ssim, iou)
}

// ---- laws ---------------------------------------------------------------------------

proof fn byte_sums(f: spec_fn(int) -> int, n: int)
    requires
        0 <= n,
        forall|t: int| 0 <= #[trigger] f(t) <= 255,
    ensures
        0 <= counting::sum_below(f, n) <= 255 * n,
        0 <= counting::sum_below(products(f, f), n) <= 65025 * n,
    decreases n,
{
    if n > 0 {
        byte_sums(f, n - 1);
        let v = f(n - 1);
        assert(0 <= v * v <= 65025) by (nonlinear_arith)
            requires
                0 <= v <= 255,
        ;
        assert(products(f, f)(n - 1) == v * v);
    }
}

/// A block against itself is perfectly similar.
proof fn same_block(f: spec_fn(int) -> int, n: int)
    requires
        1 <= n <= 64,
        forall|t: int| 0 <= #[trigger] f(t) <= 255,
    ensures
        similarity(f, f, n) == FULL,
{
    byte_sums(f, n);
    cauchy(f, n);
    let s = counting::sum_below(f, n);
    let q = counting::sum_below(products(f, f), n);
    assert((s + s) * (s + s) == 4 * (s * s)) by (nonlinear_arith);
    assert(n * (q + q + 2 * q) == 4 * (n * q)) by (nonlinear_arith);
    assert((s - s) * (s - s) == 0) by (nonlinear_arith);
    assert(n * (q + q - 2 * q) == 0) by (nonlinear_arith);
    factor_bounds(s, s, q, q, q, n);
    let x = 20000 * (s * s) + 65025 * (n * n);
    let y = 20000 * (n * q - s * s) + 585225 * (n * n);
    assert(x * y > 0) by (nonlinear_arith)
        requires
            x > 0,
            y > 0,
    ;
    let z = x * y;
    assert((1_000_000_000 * z) / z == 1_000_000_000) by (nonlinear_arith)
        requires
            z > 0,
    ;
}

proof fn constant_sum(f: spec_fn(int) -> int, c: int, n: int)
    requires
        0 <= n,
        forall|k: int| 0 <= k < n ==> #[trigger] f(k) == c,
    ensures
        counting::sum_below(f, n) == c * n,
    decreases n,
{
    if n > 0 {
        constant_sum(f, c, n - 1);
        assert(f(n - 1) == c);
        assert(c * (n - 1) + c == c * n) by (nonlinear_arith);
    }
}

/// A plane against itself, inked or blank, scores exactly one.
pub proof fn same_plane_is_perfect(p: Seq<u8>, w: int, h: int)
    requires
        w > 0,
        h > 0,
        p.len() == w * h,
    ensures
        score_of(p, p, w, h) == (Score { mae: 0, ssim: FULL, iou: FULL, composite: FULL }),
{
    let n = p.len() as int;
    let a = weight(p);
    assert(shift_of(p, p, w) == (0int, 0int)) by {
        let x = x_sum(p, w) * a;
        let y = y_sum(p, w) * a;
        byte_sums(|i: int| p[i] as int, n);
        if a != 0 {
            let d = a * a;
            assert(d > 0) by (nonlinear_arith)
                requires
                    d == a * a,
                    a != 0,
            ;
            assert((2 * 0 + d) / (2 * d) == 0) by (nonlinear_arith)
                requires
                    d > 0,
            ;
        }
    }
    let m = moved(p, w, h, 0, 0);
    assert(m =~= p) by {
        assert forall|i: int| 0 <= i < n implies m[i] == p[i] by {
            mask::lemma_pixel_split(w, h, i);
        }
    }
    assert(error_sum(p, p) == 0) by {
        constant_sum(|i: int| gap(p[i], p[i]), 0, n);
    }
    let inter = counting::count_below(dupes::both_ink(p, p), n);
    let union = counting::count_below(dupes::any_ink(p, p), n);
    assert(inter == union) by {
        counting::count_ext(dupes::both_ink(p, p), dupes::any_ink(p, p), n);
    }
    counting::count_bounds(dupes::any_ink(p, p), n);
    if union > 0 {
        assert((1_000_000_000 * union) / union == 1_000_000_000) by (nonlinear_arith)
            requires
                union > 0,
        ;
    }
    assert(n > 0) by (nonlinear_arith)
        requires
            n == w * h,
            w > 0,
            h > 0,
    ;
    assert((FULL * 0) / (255 * n) == 0) by (nonlinear_arith)
        requires
            n > 0,
    ;
    same_plane_is_similar(p, w, h);
}

proof fn same_plane_is_similar(p: Seq<u8>, w: int, h: int)
    requires
        w > 0,
        h > 0,
        p.len() == w * h,
    ensures
        ssim_of(p, p, w, h) == FULL,
{
    let bx = blocks(w);
    let rows = blocks(h);
    let n = bx * rows;
    assert(n >= 1) by (nonlinear_arith)
        requires
            n == bx * rows,
            bx >= 1,
            rows >= 1,
    ;
    let f = nth_similarity(p, p, w, h);
    assert forall|k: int| 0 <= k < n implies #[trigger] f(k) == FULL by {
        assert(0 <= k / bx && k / bx + 1 <= rows) by (nonlinear_arith)
            requires
                0 <= k < bx * rows,
                bx >= 1,
        ;
        let x0 = 8 * (k % bx);
        let y0 = 8 * (k / bx);
        let bw = if w - x0 < 8 {
            w - x0
        } else {
            8
        };
        let bh = if h - y0 < 8 {
            h - y0
        } else {
            8
        };
        assert(1 <= bw * bh <= 64) by (nonlinear_arith)
            requires
                1 <= bw <= 8,
                1 <= bh <= 8,
        ;
        same_block(values(p, w, x0, y0, bw), bw * bh);
    }
    constant_sum(f, FULL as int, n);
    assert((FULL * n) / n == FULL) by (nonlinear_arith)
        requires
            n >= 1,
    ;
}

// ---- documents ----------------------------------------------------------------------

/// Why a document could not be scored.
#[derive(Clone, Debug, PartialEq, Eq)]
pub enum ScoreError {
    /// The crop has not the stated size, or a side is zero.
    SizeMismatch,
    /// The document could not be rendered.
    Render(String),
}

/// The message of an error.
pub open spec fn message_of(e: ScoreError) -> Seq<char> {
    match e {
        ScoreError::SizeMismatch => "crop size does not match w×h"@,
        ScoreError::Render(m) => "render failed: "@ + m@,
    }
}

impl ScoreError {
    /// The error as text.
    pub fn message(&self) -> (r: String)
        ensures
            r@ == message_of(*self),
    {
        match self {
            ScoreError::SizeMismatch => String::from_str("crop size does not match w×h"),
            ScoreError::Render(m) => {
                let mut s = String::from_str("render failed: ");
                s.append(m.as_str());
                s
            },
        }
    }
}

/// The greatest distance of a pixel's four channels from a colour.
pub open spec fn evidence_at(rgba: Seq<u8>, bg: Seq<u8>, i: int) -> int {
    let d0 = gap(rgba[4 * i], bg[0]);
    let d1 = gap(rgba[4 * i + 1], bg[1]);
    let d2 = gap(rgba[4 * i + 2], bg[2]);
    let d3 = gap(rgba[4 * i + 3], bg[3]);
    let a = if d0 < d1 {
        d1
    } else {
        d0
    };
    let b = if d2 < d3 {
        d3
    } else {
        d2
    };
    if a < b {
        b
    } else {
        a
    }
}

/// The ink evidence of a crop: how far each pixel is from the background.
pub open spec fn evidence_of(rgba: Seq<u8>, bg: Seq<u8>) -> Seq<u8> {
    Seq::new(rgba.len() / 4, |i: int| evidence_at(rgba, bg, i) as u8)
}

/// The alpha channel of an image.
pub open spec fn alpha_of(rgba: Seq<u8>) -> Seq<u8> {
    Seq::new(rgba.len() / 4, |i: int| rgba[4 * i + 3])
}

fn far(a: u8, b: u8) -> (r: u8)
    ensures
        r == gap(a, b),
{
    if a < b {
        b - a
    } else {
        a - b
    }
}

fn larger(a: u8, b: u8) -> (r: u8)
    ensures
        r == (if a < b {
            b
        } else {
            a
        }),
{
    if a < b {
        b
    } else {
        a
    }
}

/// The ink evidence of a crop.
pub fn evidence_plane(rgba: &[u8], bg: &[u8; 4]) -> (r: Vec<u8>)
    ensures
        r@ == evidence_of(rgba@, bg@),
{
    let n: usize = rgba.len() / 4;
    let mut out: Vec<u8> = Vec::new();
    let mut i: usize = 0;
    while i < n
        invariant
            i <= n,
            n == rgba@.len() / 4,
            rgba@.len() <= usize::MAX,
            out@.len() == i,
            forall|k: int| 0 <= k < i ==> #[trigger] out@[k] == evidence_at(rgba@, bg@, k),
        decreases n - i,
    {
        let a: u8 = larger(far(rgba[4 * i], bg[0]), far(rgba[4 * i + 1], bg[1]));
        let b: u8 = larger(far(rgba[4 * i + 2], bg[2]), far(rgba[4 * i + 3], bg[3]));
        out.push(larger(a, b));
        i = i + 1;
    }
    assert(out@ =~= evidence_of(rgba@, bg@));
    out
}

/// The alpha channel of an image.
pub fn alpha_plane(rgba: &[u8]) -> (r: Vec<u8>)
    ensures
        r@ == alpha_of(rgba@),
{
    let n: usize = rgba.len() / 4;
    let mut out: Vec<u8> = Vec::new();
    let mut i: usize = 0;
    while i < n
        invariant
            i <= n,
            n == rgba@.len() / 4,
            rgba@.len() <= usize::MAX,
            out@.len() == i,
            forall|k: int| 0 <= k < i ==> #[trigger] out@[k] == rgba@[4 * k + 3],
        decreases n - i,
    {
        out.push(rgba[4 * i + 3]);
        i = i + 1;
    }
    assert(out@ =~= alpha_of(rgba@));
    out
}

/// The document draws nothing but what its own text holds: no image element
/// can stand in it, not even behind an entity.
pub open spec fn stands_alone(doc: Seq<char>) -> bool {
    !doc.contains('&') && text::find_from(doc, "mage"@, 0) is None
}

/// What the renderer draws of a document that stands alone on a canvas of this
/// size, as premultiplied red, green, blue and alpha; `None` when there is
/// nothing to draw because the document does not parse or the canvas cannot be
/// made.
pub uninterp spec fn pixels_of(doc: Seq<char>, w: u32, h: u32) -> Option<Seq<u8>>;

/// Calls `resvg::render` with the transform that stretches the document's size
/// to the canvas. Where a stretch is too large for a number the canvas stays
/// blank, as no outline has a point on it then. There are four bytes for each
/// pixel, and the pixels of a document that stands alone depend on it and on the
/// canvas alone: the crate documents that each pixel has the same value on every
/// platform. An image element may name a file, so of other documents nothing
/// more is said.
#[verifier::external_body]
fn render_svg(doc: &str, w: u32, h: u32) -> (r: Option<Vec<u8>>)
    requires
        4 * w * h <= isize::MAX,
    ensures
        match r {
            Some(v) => v@.len() == 4 * w * h && (stands_alone(doc@) ==> pixels_of(doc@, w, h) == Some(
                v@,
            )),
            None => stands_alone(doc@) ==> pixels_of(doc@, w, h) is None,
        },
{
    let tree = resvg::usvg::Tree::from_str(doc, &resvg::usvg::Options::default()).ok()?;
    let mut canvas = Pixmap::new(w, h)?;
    let own = tree.size();
    let full = IntSize::from_wh(w, h)?.to_size();
    let one = Transform::identity().sx;
    let x = Size::from_wh(own.width(), full.width())?.scale_to_width(one);
    let y = Size::from_wh(own.height(), full.height())?.scale_to_width(one);
    if let (Some(x), Some(y)) = (x, y) {
        resvg::render(&tree, Transform::from_scale(x.height(), y.height()), &mut canvas.as_mut());
    }
    Some(canvas.data().to_vec())
}

/// The crop has `w` by `h` pixels, and there is at least one.
pub open spec fn crop_fits(crop: Seq<u8>, w: int, h: int) -> bool {
    w > 0 && h > 0 && crop.len() == 4 * w * h
}

/// `drawn` is what the renderer may hand back for a document.
pub open spec fn may_draw(doc: Seq<char>, w: u32, h: u32, drawn: Option<Seq<u8>>) -> bool {
    &&& stands_alone(doc) ==> drawn == pixels_of(doc, w, h)
    &&& drawn is Some ==> drawn->0.len() == 4 * w * h
}

/// `r` is the verdict on a render.
pub open spec fn is_drawn_verdict(
    crop: Seq<u8>,
    bg: Seq<u8>,
    w: u32,
    h: u32,
    drawn: Option<Seq<u8>>,
    r: Result<Score, ScoreError>,
) -> bool {
    match drawn {
        None => match r {
            Err(ScoreError::Render(t)) => t@ == "pixmap allocation failed"@,
            _ => false,
        },
        Some(px) => r == Ok::<Score, ScoreError>(
            score_of(evidence_of(crop, bg), alpha_of(px), w as int, h as int),
        ),
    }
}

/// `r` is the verdict on a document: a crop of another size is refused, then a
/// document that does not parse, then a canvas that no memory can hold, and
/// what was drawn is scored.
pub open spec fn is_scoring(
    doc: Seq<char>,
    crop: Seq<u8>,
    bg: Seq<u8>,
    w: u32,
    h: u32,
    r: Result<Score, ScoreError>,
) -> bool {
    if !crop_fits(crop, w as int, h as int) {
        r == Err::<Score, ScoreError>(ScoreError::SizeMismatch)
    } else {
        match emit::svg_objection(doc) {
            Some(m) => match r {
                Err(ScoreError::Render(t)) => t@ == m,
                _ => false,
            },
            None => if crop.len() > isize::MAX {
                is_drawn_verdict(crop, bg, w, h, None, r)
            } else {
                exists|drawn: Option<Seq<u8>>| #[trigger]
                    may_draw(doc, w, h, drawn) && is_drawn_verdict(crop, bg, w, h, drawn, r)
            },
        }
    }
}

/// Scores the pixels of a render against the crop's ink evidence.
pub fn score_pixels(pixels: &[u8], crop: &[u8], bg: &[u8; 4], w: u32, h: u32) -> (r: Score)
    requires
        crop_fits(crop@, w as int, h as int),
        pixels@.len() == crop@.len(),
        w * h <= u32::MAX,
    ensures
        r == score_of(evidence_of(crop@, bg@), alpha_of(pixels@), w as int, h as int),
        0 <= r.mae <= FULL,
        -FULL <= r.ssim <= FULL,
        0 <= r.iou <= FULL,
        -FULL <= r.composite <= FULL,
{
    proof {
        assert(4 * w * h == 4 * (w * h)) by (nonlinear_arith);
    }
    let reference = evidence_plane(crop, bg);
    let render = alpha_plane(pixels);
    compare_planes(reference.as_slice(), render.as_slice(), w, h)
}

/// Renders a document and scores it against the crop's ink evidence.
pub fn score_svg(doc: &str, crop: &[u8], bg: &[u8; 4], w: u32, h: u32) -> (r: Result<Score, ScoreError>)
    requires
        crop_fits(crop@, w as int, h as int) ==> w * h <= u32::MAX,
    ensures
        is_scoring(doc@, crop@, bg@, w, h, r),
        r is Ok ==> -FULL <= r->Ok_0.composite <= FULL,
{
    proof {
        assert(0 <= w * h <= 0xffff_ffff_ffff_ffff) by (nonlinear_arith)
            requires
                0 <= w <= 0xffff_ffff,
                0 <= h <= 0xffff_ffff,
        ;
        assert(4 * w * h == 4 * (w * h)) by (nonlinear_arith);
    }
    if w == 0 || h == 0 || crop.len() as u128 != 4 * (w as u128 * h as u128) {
        return Err(ScoreError::SizeMismatch);
    }
    match emit::parse_svg(doc) {
        Err(m) => Err(ScoreError::Render(m)),
        Ok(_) => if crop.len() > isize::MAX as usize {
            Err(ScoreError::Render(String::from_str("pixmap allocation failed")))
        } else {
            match render_svg(doc, w, h) {
            None => {
                let r = Err(ScoreError::Render(String::from_str("pixmap allocation failed")));
                assert(may_draw(doc@, w, h, None) && is_drawn_verdict(crop@, bg@, w, h, None, r));
                r
            },
            Some(px) => {
                let r = Ok(score_pixels(px.as_slice(), crop, bg, w, h));
                assert(may_draw(doc@, w, h, Some(px@)) && is_drawn_verdict(
                    crop@,
                    bg@,
                    w,
                    h,
                    Some(px@),
                    r,
                ));
                r
            },
            }
        },
    }
}

/// A document that stands alone has one score against a crop, or one reason why
/// there is none.
pub proof fn scoring_is_determined(
    doc: Seq<char>,
    crop: Seq<u8>,
    bg: Seq<u8>,
    w: u32,
    h: u32,
    a: Result<Score, ScoreError>,
    b: Result<Score, ScoreError>,
)
    requires
        stands_alone(doc),
        is_scoring(doc, crop, bg, w, h, a),
        is_scoring(doc, crop, bg, w, h, b),
    ensures
        match (a, b) {
            (Ok(s), Ok(t)) => s == t,
            (Err(d), Err(e)) => message_of(d) == message_of(e),
            _ => false,
        },
{
}

// ---- what a score says --------------------------------------------------------------

/// The evidence of a pixel is the distance of the channel that is farthest from
/// the background: no channel is farther, and one is as far. So only a pixel that
/// equals the background has none.
pub proof fn evidence_is_the_farthest_channel(rgba: Seq<u8>, bg: Seq<u8>, i: int)
    requires
        0 <= i,
        4 * i + 3 < rgba.len(),
        bg.len() == 4,
    ensures
        evidence_of(rgba, bg).len() == rgba.len() / 4,
        forall|c: int|
            0 <= c < 4 ==> #[trigger] bg[c] - rgba[4 * i + c] <= evidence_of(rgba, bg)[i] && rgba[4 * i + c]
                - bg[c] <= evidence_of(rgba, bg)[i],
        exists|c: int|
            0 <= c < 4 && (#[trigger] bg[c] - rgba[4 * i + c] == evidence_of(rgba, bg)[i] || rgba[4 * i + c]
                - bg[c] == evidence_of(rgba, bg)[i]),
        (evidence_of(rgba, bg)[i] == 0) == (forall|c: int| 0 <= c < 4 ==> #[trigger] bg[c] == rgba[4 * i + c]),
{
    let e = evidence_of(rgba, bg)[i];
    let c0 = bg[0] - rgba[4 * i + 0];
    let c1 = bg[1] - rgba[4 * i + 1];
    let c2 = bg[2] - rgba[4 * i + 2];
    let c3 = bg[3] - rgba[4 * i + 3];
    assert(e == c0 || e == -c0 || e == c1 || e == -c1 || e == c2 || e == -c2 || e == c3 || e == -c3);
    if e == 0 {
        assert forall|c: int| 0 <= c < 4 implies #[trigger] bg[c] == rgba[4 * i + c] by {
            assert(c == 0 || c == 1 || c == 2 || c == 3);
        }
    } else {
        assert(c0 != 0 || c1 != 0 || c2 != 0 || c3 != 0);
    }
}

/// The render's ink is its alpha.
pub proof fn render_ink_is_alpha(rgba: Seq<u8>, i: int)
    requires
        0 <= i,
        4 * i + 3 < rgba.len(),
    ensures
        alpha_of(rgba).len() == rgba.len() / 4,
        alpha_of(rgba)[i] == rgba[4 * i + 3],
{
}

/// The blend weighs similarity half, accuracy three tenths and overlap two
/// tenths, rounded down; so a better measure never lowers it.
pub proof fn blend_is_weighted(mae: int, ssim: int, iou: int, r: Score)
    requires
        0 <= mae <= 1_000_000_000,
        -1_000_000_000 <= ssim <= 1_000_000_000,
        0 <= iou <= 1_000_000_000,
        r == blend(mae, ssim, iou),
    ensures
        r.mae == mae,
        r.ssim == ssim,
        r.iou == iou,
        10 * r.composite <= 5 * ssim + 3 * (1_000_000_000 - mae) + 2 * iou < 10 * r.composite + 10,
{
}

proof fn zero_shift(d: int)
    requires
        d > 0,
    ensures
        rounded(0, d) == 0,
{
    assert((2 * 0 + d) / (2 * d) == 0) by (nonlinear_arith)
        requires
            d > 0,
    ;
}

proof fn unmoved(p: Seq<u8>, w: int, h: int)
    requires
        w > 0,
        h > 0,
        p.len() == w * h,
    ensures
        moved(p, w, h, 0, 0) == p,
{
    let m = moved(p, w, h, 0, 0);
    assert forall|i: int| 0 <= i < p.len() implies m[i] == p[i] by {
        mask::lemma_pixel_split(w, h, i);
    }
    assert(m =~= p);
}

/// Two planes whose ink has the same centre: the error is the mean of the
/// differences over the full range, and the overlap is the ink in both over the
/// ink in either, both rounded down; without any ink the overlap is full.
pub proof fn centred_planes_are_compared_in_place(a: Seq<u8>, b: Seq<u8>, w: int, h: int, r: Score)
    requires
        w > 0,
        h > 0,
        a.len() == w * h,
        b.len() == w * h,
        r == score_of(a, b, w, h),
        ({
            let s = counting::sum_below(|k: int| a[k] as int, w * h);
            let t = counting::sum_below(|k: int| b[k] as int, w * h);
            ||| s == 0
            ||| t == 0
            ||| counting::sum_below(|k: int| (k % w) * a[k], w * h) * t == counting::sum_below(
                |k: int| (k % w) * b[k],
                w * h,
            ) * s && counting::sum_below(|k: int| (k / w) * a[k], w * h) * t == counting::sum_below(
                |k: int| (k / w) * b[k],
                w * h,
            ) * s
        }),
    ensures
        ({
            let e = counting::sum_below(
                |k: int|
                    if a[k] >= b[k] {
                        a[k] - b[k]
                    } else {
                        b[k] - a[k]
                    },
                w * h,
            );
            let both = counting::count_below(|k: int| a[k] >= 128 && b[k] >= 128, w * h);
            let any = counting::count_below(|k: int| a[k] >= 128 || b[k] >= 128, w * h);
            &&& r.mae * (255 * (w * h)) <= 1_000_000_000 * e < (r.mae + 1) * (255 * (w * h))
            &&& any == 0 ==> r.iou == 1_000_000_000
            &&& any > 0 ==> r.iou * any <= 1_000_000_000 * both < (r.iou + 1) * any
        }),
{
    let n = w * h;
    assert(n > 0) by (nonlinear_arith)
        requires
            n == w * h,
            w > 0,
            h > 0,
    ;
    let s = weight(a);
    let t = weight(b);
    byte_sums(|i: int| a[i] as int, n);
    byte_sums(|i: int| b[i] as int, n);
    assert(shift_of(a, b, w) == (0int, 0int)) by {
        if s != 0 && t != 0 {
            let d = s * t;
            assert(d > 0) by (nonlinear_arith)
                requires
                    d == s * t,
                    s > 0,
                    t > 0,
            ;
            zero_shift(d);
        }
    }
    unmoved(b, w, h);
    let f = |k: int|
        if a[k] >= b[k] {
            a[k] - b[k]
        } else {
            b[k] - a[k]
        };
    counting::sum_ext(f, |i: int| gap(a[i], b[i]), n);
    let both = |k: int| a[k] >= 128 && b[k] >= 128;
    let any = |k: int| a[k] >= 128 || b[k] >= 128;
    counting::count_ext(both, dupes::both_ink(a, b), n);
    counting::count_ext(any, dupes::any_ink(a, b), n);
    counting::count_le(both, any, n);
    counting::count_bounds(both, n);
    counting::count_bounds(any, n);
    error_bound(a, b, n);
    let e = error_sum(a, b);
    let m = 255 * n;
    let q = (1_000_000_000 * e) / m;
    assert(0 <= q <= 1_000_000_000) by (nonlinear_arith)
        requires
            q == (1_000_000_000 * e) / m,
            0 <= e <= m,
            m > 0,
    ;
    counting::quotient_sides(1_000_000_000 * e, m);
    let y = counting::count_below(any, n);
    let x = counting::count_below(both, n);
    if y > 0 {
        let o = (1_000_000_000 * x) / y;
        assert(0 <= o <= 1_000_000_000) by (nonlinear_arith)
            requires
                o == (1_000_000_000 * x) / y,
                0 <= x <= y,
                y > 0,
        ;
        counting::quotient_sides(1_000_000_000 * x, y);
    }
}

proof fn error_bound(a: Seq<u8>, b: Seq<u8>, n: int)
    requires
        0 <= n,
    ensures
        0 <= counting::sum_below(|i: int| gap(a[i], b[i]), n) <= 255 * n,
    decreases n,
{
    if n > 0 {
        error_bound(a, b, n - 1);
    }
}

proof fn shifted_sum(f: spec_fn(int) -> int, g: spec_fn(int) -> int, d: int, n: int, m: int)
    requires
        0 <= m <= n,
        forall|k: int|
            0 <= k < n ==> #[trigger] g(k) == (if 0 <= k - d < n {
                f(k - d)
            } else {
                0int
            }),
        forall|j: int| 0 <= j < n && !(0 <= j + d < n) ==> #[trigger] f(j) == 0,
    ensures
        counting::sum_below(g, m) == counting::sum_below(
            f,
            if m - d < n {
                m - d
            } else {
                n
            },
        ),
    decreases m,
{
    if m == 0 {
        let e = if 0 - d < n {
            0 - d
        } else {
            n
        };
        zero_sum(f, e);
    } else {
        shifted_sum(f, g, d, n, m - 1);
        assert(g(m - 1) == (if 0 <= m - 1 - d < n {
            f(m - 1 - d)
        } else {
            0int
        }));
    }
}

proof fn zero_sum(f: spec_fn(int) -> int, n: int)
    requires
        forall|j: int| 0 <= j < n ==> #[trigger] f(j) == 0,
    ensures
        counting::sum_below(f, n) == 0,
    decreases n,
{
    if n > 0 {
        zero_sum(f, n - 1);
    }
}

/// Where all ink stays on the plane, moved sums are sums of what was moved.
proof fn whole_shift(f: spec_fn(int) -> int, g: spec_fn(int) -> int, d: int, n: int)
    requires
        0 <= n,
        forall|k: int|
            0 <= k < n ==> #[trigger] g(k) == (if 0 <= k - d < n {
                f(k - d)
            } else {
                0int
            }),
        forall|j: int| 0 <= j < n && !(0 <= j + d < n) ==> #[trigger] f(j) == 0,
    ensures
        counting::sum_below(g, n) == counting::sum_below(f, n),
{
    shifted_sum(f, g, d, n, n);
    if d > 0 {
        let e = if n - d > 0 {
            n - d
        } else {
            0
        };
        tail_is_zero(f, e, n);
        if n - d < 0 {
            assert(counting::sum_below(f, n - d) == 0);
        }
    }
}

proof fn tail_is_zero(f: spec_fn(int) -> int, m: int, n: int)
    requires
        0 <= m <= n,
        forall|j: int| m <= j < n ==> #[trigger] f(j) == 0,
    ensures
        counting::sum_below(f, n) == counting::sum_below(f, m),
    decreases n - m,
{
    if m < n {
        tail_is_zero(f, m, n - 1);
    }
}

/// `q` is `p` moved right by `dx` and down by `dy`, and no ink leaves the plane.
pub open spec fn is_moved(p: Seq<u8>, q: Seq<u8>, w: int, h: int, dx: int, dy: int) -> bool {
    &&& forall|x: int, y: int|
        0 <= x < w && 0 <= y < h && p[#[trigger] mask::pixel_at(w, x, y)] != 0 ==> 0 <= x + dx < w && 0 <= y
            + dy < h && q[mask::pixel_at(w, x + dx, y + dy)] == p[mask::pixel_at(w, x, y)]
    &&& forall|x: int, y: int|
        0 <= x < w && 0 <= y < h && q[#[trigger] mask::pixel_at(w, x, y)] != 0 ==> 0 <= x - dx < w && 0 <= y
            - dy < h && p[mask::pixel_at(w, x - dx, y - dy)] == q[mask::pixel_at(w, x, y)]
}

proof fn moved_position(w: int, h: int, k: int, dx: int, dy: int)
    requires
        w > 0,
        h > 0,
        0 <= k < w * h,
        0 <= k % w + dx < w,
        0 <= k / w + dy < h,
    ensures
        mask::pixel_at(w, k % w + dx, k / w + dy) == k + (dy * w + dx),
        0 <= k + (dy * w + dx) < w * h,
        (k + (dy * w + dx)) % w == k % w + dx,
        (k + (dy * w + dx)) / w == k / w + dy,
        mask::pixel_at(w, k % w, k / w) == k,
{
    mask::lemma_pixel_split(w, h, k);
    let x = k % w + dx;
    let y = k / w + dy;
    assert(y * w + x == (k / w) * w + k % w + (dy * w + dx)) by (nonlinear_arith)
        requires
            x == k % w + dx,
            y == k / w + dy,
    ;
    mask::lemma_pixel_in(w, h, x, y);
    mask::lemma_pixel_split(w, h, y * w + x);
    mask::lemma_pixel_inj(w, (y * w + x) % w, (y * w + x) / w, x, y);
}

proof fn moved_values(p: Seq<u8>, q: Seq<u8>, w: int, h: int, dx: int, dy: int)
    requires
        w > 0,
        h > 0,
        p.len() == w * h,
        q.len() == w * h,
        is_moved(p, q, w, h, dx, dy),
    ensures
        forall|k: int|
            0 <= k < w * h ==> #[trigger] q[k] == (if 0 <= k - (dy * w + dx) < w * h {
                p[k - (dy * w + dx)]
            } else {
                0
            }),
        forall|j: int|
            0 <= j < w * h && #[trigger] p[j] != 0 ==> 0 <= j % w + dx < w && 0 <= j / w + dy < h,
{
    let d = dy * w + dx;
    assert forall|j: int| 0 <= j < w * h && #[trigger] p[j] != 0 implies 0 <= j % w + dx < w && 0 <= j / w
        + dy < h by {
        mask::lemma_pixel_split(w, h, j);
        assert(p[mask::pixel_at(w, j % w, j / w)] != 0);
    }
    assert((-dy) * w == -(dy * w)) by (nonlinear_arith);
    assert forall|k: int| 0 <= k < w * h implies #[trigger] q[k] == (if 0 <= k - d < w * h {
        p[k - d]
    } else {
        0
    }) by {
        mask::lemma_pixel_split(w, h, k);
        if q[k] != 0 {
            assert(q[mask::pixel_at(w, k % w, k / w)] != 0);
            moved_position(w, h, k, -dx, -dy);
        }
        if 0 <= k - d < w * h && p[k - d] != 0 {
            let j = k - d;
            mask::lemma_pixel_split(w, h, j);
            assert(p[mask::pixel_at(w, j % w, j / w)] != 0);
            moved_position(w, h, j, dx, dy);
        }
    }
}

proof fn rounded_whole(v: int, d: int)
    requires
        d > 0,
    ensures
        rounded(v * d, d) == v,
{
    if v >= 0 {
        assert(v * d >= 0) by (nonlinear_arith)
            requires
                v >= 0,
                d > 0,
        ;
        assert((2 * (v * d) + d) / (2 * d) == v) by (nonlinear_arith)
            requires
                d > 0,
                v >= 0,
        ;
    } else {
        let u = -v;
        assert(v * d < 0 && -(v * d) == u * d) by (nonlinear_arith)
            requires
                v < 0,
                u == -v,
                d > 0,
        ;
        assert((2 * (u * d) + d) / (2 * d) == u) by (nonlinear_arith)
            requires
                d > 0,
                u >= 0,
        ;
    }
}

proof fn linear_sum(f: spec_fn(int) -> int, g: spec_fn(int) -> int, c: int, n: int)
    requires
        0 <= n,
    ensures
        counting::sum_below(|k: int| f(k) + c * g(k), n) == counting::sum_below(f, n) + c
            * counting::sum_below(g, n),
    decreases n,
{
    if n > 0 {
        linear_sum(f, g, c, n - 1);
        let s = counting::sum_below(g, n - 1);
        assert(c * (s + g(n - 1)) == c * s + c * g(n - 1)) by (nonlinear_arith);
    } else {
        assert(c * 0 == 0) by (nonlinear_arith);
    }
}

/// A render that is the reference moved by whole pixels, with no ink lost, scores
/// exactly one: the planes are aligned before they are compared.
pub proof fn moved_render_is_perfect(p: Seq<u8>, q: Seq<u8>, w: int, h: int, dx: int, dy: int)
    requires
        w > 0,
        h > 0,
        p.len() == w * h,
        q.len() == w * h,
        is_moved(p, q, w, h, dx, dy),
        exists|k: int| 0 <= k < p.len() && #[trigger] p[k] != 0,
    ensures
        score_of(p, q, w, h) == (Score {
            mae: 0,
            ssim: 1_000_000_000,
            iou: 1_000_000_000,
            composite: 1_000_000_000,
        }),
{
    let n = w * h;
    let d = dy * w + dx;
    moved_values(p, q, w, h, dx, dy);
    let fp = |k: int| p[k] as int;
    let fq = |k: int| q[k] as int;
    let xp = |k: int| (k % w) * p[k];
    let xq = |k: int| (k % w) * q[k];
    let yp = |k: int| (k / w) * p[k];
    let yq = |k: int| (k / w) * q[k];
    let xm = |k: int| xp(k) + dx * fp(k);
    let ym = |k: int| yp(k) + dy * fp(k);
    assert forall|j: int| 0 <= j < n && !(0 <= j + d < n) implies #[trigger] fp(j) == 0 by {
        if p[j] != 0 {
            moved_position(w, h, j, dx, dy);
        }
    }
    whole_shift(fp, fq, d, n);
    assert forall|k: int| 0 <= k < n implies #[trigger] xq(k) == (if 0 <= k - d < n {
        xm(k - d)
    } else {
        0int
    }) by {
        if 0 <= k - d < n {
            let j = k - d;
            assert(q[k] == p[j]);
            if p[j] != 0 {
                moved_position(w, h, j, dx, dy);
                let v = p[j] as int;
                assert((j % w + dx) * v == (j % w) * v + dx * v) by (nonlinear_arith);
            } else {
                assert((k % w) * 0 == 0 && (j % w) * 0 == 0 && dx * 0 == 0) by (nonlinear_arith);
            }
        } else {
            assert((k % w) * 0 == 0) by (nonlinear_arith);
        }
    }
    assert forall|j: int| 0 <= j < n && !(0 <= j + d < n) implies #[trigger] xm(j) == 0 by {
        assert(fp(j) == 0);
        assert((j % w) * 0 == 0 && dx * 0 == 0) by (nonlinear_arith);
    }
    whole_shift(xm, xq, d, n);
    assert forall|k: int| 0 <= k < n implies #[trigger] yq(k) == (if 0 <= k - d < n {
        ym(k - d)
    } else {
        0int
    }) by {
        if 0 <= k - d < n {
            let j = k - d;
            assert(q[k] == p[j]);
            if p[j] != 0 {
                moved_position(w, h, j, dx, dy);
                let v = p[j] as int;
                assert((j / w + dy) * v == (j / w) * v + dy * v) by (nonlinear_arith);
            } else {
                assert((k / w) * 0 == 0 && (j / w) * 0 == 0 && dy * 0 == 0) by (nonlinear_arith);
            }
        } else {
            assert((k / w) * 0 == 0) by (nonlinear_arith);
        }
    }
    assert forall|j: int| 0 <= j < n && !(0 <= j + d < n) implies #[trigger] ym(j) == 0 by {
        assert(fp(j) == 0);
        assert((j / w) * 0 == 0 && dy * 0 == 0) by (nonlinear_arith);
    }
    whole_shift(ym, yq, d, n);
    linear_sum(xp, fp, dx, n);
    linear_sum(yp, fp, dy, n);
    counting::sum_ext(xm, |k: int| xp(k) + dx * fp(k), n);
    counting::sum_ext(ym, |k: int| yp(k) + dy * fp(k), n);
    let a = weight(p);
    counting::sum_ext(|i: int| p[i] as int, fp, n);
    counting::sum_ext(|i: int| q[i] as int, fq, n);
    counting::sum_ext(|i: int| (i % w) * p[i], xp, n);
    counting::sum_ext(|i: int| (i % w) * q[i], xq, n);
    counting::sum_ext(|i: int| (i / w) * p[i], yp, n);
    counting::sum_ext(|i: int| (i / w) * q[i], yq, n);
    let k0 = choose|k: int| 0 <= k < p.len() && #[trigger] p[k] != 0;
    positive_sum(fp, n, k0);
    assert(a > 0 && weight(q) == a);
    let sx = x_sum(p, w);
    let sy = y_sum(p, w);
    assert(x_sum(q, w) == sx + dx * a);
    assert(y_sum(q, w) == sy + dy * a);
    assert(sx * a - (sx + dx * a) * a == (-dx) * (a * a)) by (nonlinear_arith);
    assert(sy * a - (sy + dy * a) * a == (-dy) * (a * a)) by (nonlinear_arith);
    assert(a * a > 0) by (nonlinear_arith)
        requires
            a > 0,
    ;
    rounded_whole(-dx, a * a);
    rounded_whole(-dy, a * a);
    assert(shift_of(p, q, w) == (-dx, -dy));
    let back = moved(q, w, h, -dx, -dy);
    assert forall|i: int| 0 <= i < n implies back[i] == p[i] by {
        mask::lemma_pixel_split(w, h, i);
        if 0 <= i % w + dx < w && 0 <= i / w + dy < h {
            moved_position(w, h, i, dx, dy);
            assert(q[i + d] == p[i]);
        } else {
            assert(p[i] == 0);
        }
    }
    assert(back =~= p);
    same_plane_is_perfect(p, w, h);
    unmoved(p, w, h);
    assert(shift_of(p, p, w) == (0int, 0int)) by {
        zero_shift(a * a);
    }
}

proof fn positive_sum(f: spec_fn(int) -> int, n: int, k: int)
    requires
        0 <= k < n,
        f(k) > 0,
        forall|t: int| 0 <= #[trigger] f(t),
    ensures
        counting::sum_below(f, n) > 0,
    decreases n,
{
    nonnegative_sum(f, n - 1);
    if k < n - 1 {
        positive_sum(f, n - 1, k);
        assert(f(n - 1) >= 0);
    }
}

proof fn nonnegative_sum(f: spec_fn(int) -> int, n: int)
    requires
        forall|t: int| 0 <= #[trigger] f(t),
    ensures
        counting::sum_below(f, n) >= 0,
    decreases n,
{
    if n > 0 {
        nonnegative_sum(f, n - 1);
        assert(f(n - 1) >= 0);
    }
}

/// A document whose drawing is exactly as opaque as each pixel of the crop is far
/// from the background scores one.
pub proof fn exact_drawing_is_perfect(
    doc: Seq<char>,
    crop: Seq<u8>,
    bg: Seq<u8>,
    w: u32,
    h: u32,
    r: Result<Score, ScoreError>,
)
    requires
        w > 0,
        h > 0,
        crop.len() == 4 * w * h,
        crop.len() <= isize::MAX,
        bg.len() == 4,
        is_scoring(doc, crop, bg, w, h, r),
        emit::svg_objection(doc) is None,
        stands_alone(doc),
        pixels_of(doc, w, h) is Some,
        forall|i: int, c: int|
            #![trigger pixels_of(doc, w, h)->0[4 * i + 3], bg[c]]
            0 <= i < w * h && 0 <= c < 4 ==> crop[4 * i + c] - bg[c] <= pixels_of(doc, w, h)->0[4 * i + 3]
                && bg[c] - crop[4 * i + c] <= pixels_of(doc, w, h)->0[4 * i + 3],
        forall|i: int|
            0 <= i < w * h ==> exists|c: int|
                0 <= c < 4 && (#[trigger] bg[c] - crop[4 * i + c] == #[trigger] pixels_of(doc, w, h)->0[4 * i + 3]
                    || crop[4 * i + c] - bg[c] == pixels_of(doc, w, h)->0[4 * i + 3]),
    ensures
        r == Ok::<Score, ScoreError>(
            Score {
                mae: 0,
                ssim: 1_000_000_000,
                iou: 1_000_000_000,
                composite: 1_000_000_000,
            },
        ),
{
    let drawn = choose|drawn: Option<Seq<u8>>| #[trigger]
        may_draw(doc, w, h, drawn) && is_drawn_verdict(crop, bg, w, h, drawn, r);
    let px = drawn->0;
    let n = w * h;
    assert(4 * w * h == 4 * n) by (nonlinear_arith)
        requires
            n == w * h,
    ;
    let a = evidence_of(crop, bg);
    let b = alpha_of(px);
    assert forall|i: int| 0 <= i < n implies a[i] == b[i] by {
        evidence_is_the_farthest_channel(crop, bg, i);
        assert(px[4 * i + 3] == b[i]);
        let c = choose|c: int|
            0 <= c < 4 && (#[trigger] bg[c] - crop[4 * i + c] == px[4 * i + 3] || crop[4 * i + c] - bg[c]
                == px[4 * i + 3]);
        assert(bg[c] - crop[4 * i + c] <= a[i] && crop[4 * i + c] - bg[c] <= a[i]);
        let d = choose|c: int|
            0 <= c < 4 && (#[trigger] bg[c] - crop[4 * i + c] == a[i] || crop[4 * i + c] - bg[c] == a[i]);
        assert(bg[d] - crop[4 * i + d] <= px[4 * i + 3]);
    }
    assert(a =~= b);
    same_plane_is_perfect(a, w as int, h as int);
}

/// Two flat planes are as similar as their levels: twice the product over the sum
/// of the squares, with the constant `(0.01 · 255)²` on both sides.
pub proof fn flat_planes_are_as_similar_as_their_levels(a: Seq<u8>, b: Seq<u8>, w: int, h: int, u: int, v: int)
    requires
        w > 0,
        h > 0,
        a.len() == w * h,
        b.len() == w * h,
        forall|k: int| 0 <= k < a.len() ==> #[trigger] a[k] == u,
        forall|k: int| 0 <= k < b.len() ==> #[trigger] b[k] == v,
    ensures
        ssim_of(a, b, w, h) == (1_000_000_000 * (20000 * (u * v) + 65025)) / (10000 * (u * u + v * v) + 65025),
{
    let bx = blocks(w);
    let rows = blocks(h);
    let n = bx * rows;
    assert(n >= 1) by (nonlinear_arith)
        requires
            n == bx * rows,
            bx >= 1,
            rows >= 1,
    ;
    let want = (1_000_000_000 * (20000 * (u * v) + 65025)) / (10000 * (u * u + v * v) + 65025);
    let f = nth_similarity(a, b, w, h);
    assert(0 < w * h) by (nonlinear_arith)
        requires
            w > 0,
            h > 0,
    ;
    assert(a[0] == u && b[0] == v);
    assert forall|k: int| 0 <= k < n implies #[trigger] f(k) == want by {
        assert(0 <= k / bx && k / bx + 1 <= rows) by (nonlinear_arith)
            requires
                0 <= k < bx * rows,
                bx >= 1,
        ;
        let x0 = 8 * (k % bx);
        let y0 = 8 * (k / bx);
        let bw = if w - x0 < 8 {
            w - x0
        } else {
            8
        };
        let bh = if h - y0 < 8 {
            h - y0
        } else {
            8
        };
        let m = bw * bh;
        assert(1 <= m <= 64) by (nonlinear_arith)
            requires
                m == bw * bh,
                1 <= bw <= 8,
                1 <= bh <= 8,
        ;
        let fa = values(a, w, x0, y0, bw);
        let fb = values(b, w, x0, y0, bw);
        assert forall|t: int| 0 <= t < m implies #[trigger] fa(t) == u && fb(t) == v by {
            assert(0 <= t / bw < bh && 0 <= t % bw < bw) by (nonlinear_arith)
                requires
                    0 <= t < bw * bh,
                    bw >= 1,
            ;
            mask::lemma_pixel_in(w, h, x0 + t % bw, y0 + t / bw);
        }
        assert forall|t: int| 0 <= t < m implies #[trigger] fb(t) == v by {
            assert(fa(t) == u);
        }
        assert forall|t: int| 0 <= t < m implies #[trigger] products(fa, fa)(t) == u * u by {
            assert(fa(t) == u);
        }
        assert forall|t: int| 0 <= t < m implies #[trigger] products(fb, fb)(t) == v * v by {
            assert(fb(t) == v);
        }
        assert forall|t: int| 0 <= t < m implies #[trigger] products(fa, fb)(t) == u * v by {
            assert(fa(t) == u && fb(t) == v);
        }
        constant_sum(fa, u, m);
        constant_sum(fb, v, m);
        constant_sum(products(fa, fa), u * u, m);
        constant_sum(products(fb, fb), v * v, m);
        constant_sum(products(fa, fb), u * v, m);
        flat_block(u, v, m);
    }
    constant_sum(f, want, n);
    assert((want * n) / n == want) by (nonlinear_arith)
        requires
            n >= 1,
    ;
}

proof fn flat_block(u: int, v: int, n: int)
    requires
        0 <= u <= 255,
        0 <= v <= 255,
        n >= 1,
    ensures
        similarity_of(u * n, v * n, (u * u) * n, (v * v) * n, (u * v) * n, n) == (1_000_000_000 * (20000 * (u * v)
            + 65025)) / (10000 * (u * u + v * v) + 65025),
{
    let nn = n * n;
    let p = 20000 * (u * v) + 65025;
    let q = 10000 * (u * u + v * v) + 65025;
    assert(nn > 0) by (nonlinear_arith)
        requires
            nn == n * n,
            n >= 1,
    ;
    assert(u * v >= 0 && u * u >= 0 && v * v >= 0) by (nonlinear_arith)
        requires
            0 <= u,
            0 <= v,
    ;
    assert((u * n) * (v * n) == (u * v) * nn) by (nonlinear_arith)
        requires
            nn == n * n,
    ;
    assert((u * n) * (u * n) == (u * u) * nn) by (nonlinear_arith)
        requires
            nn == n * n,
    ;
    assert((v * n) * (v * n) == (v * v) * nn) by (nonlinear_arith)
        requires
            nn == n * n,
    ;
    assert(n * ((u * v) * n) == (u * v) * nn) by (nonlinear_arith)
        requires
            nn == n * n,
    ;
    assert(n * ((u * u) * n) == (u * u) * nn) by (nonlinear_arith)
        requires
            nn == n * n,
    ;
    assert(n * ((v * v) * n) == (v * v) * nn) by (nonlinear_arith)
        requires
            nn == n * n,
    ;
    let means = 20000 * ((u * v) * nn) + 65025 * nn;
    let squares = 10000 * ((u * u) * nn + (v * v) * nn) + 65025 * nn;
    assert(means == p * nn) by (nonlinear_arith)
        requires
            means == 20000 * ((u * v) * nn) + 65025 * nn,
            p == 20000 * (u * v) + 65025,
    ;
    assert(squares == q * nn) by (nonlinear_arith)
        requires
            squares == 10000 * ((u * u) * nn + (v * v) * nn) + 65025 * nn,
            q == 10000 * (u * u + v * v) + 65025,
    ;
    let c = 585225 * nn;
    let z = nn * c;
    assert(z > 0) by (nonlinear_arith)
        requires
            z == nn * c,
            c == 585225 * nn,
            nn > 0,
    ;
    assert(1_000_000_000 * ((p * nn) * c) == (1_000_000_000 * p) * z) by (nonlinear_arith)
        requires
            z == nn * c,
    ;
    assert((q * nn) * c == q * z) by (nonlinear_arith)
        requires
            z == nn * c,
    ;
    let t = 1_000_000_000 * p;
    assert((t * z) / (q * z) == t / q) by (nonlinear_arith)
        requires
            q > 0,
            z > 0,
    ;
}

/// Similarity does not depend on which plane comes first.
pub proof fn similarity_is_symmetric(a: Seq<u8>, b: Seq<u8>, w: int, h: int)
    ensures
        ssim_of(a, b, w, h) == ssim_of(b, a, w, h),
{
    let f = nth_similarity(a, b, w, h);
    let g = nth_similarity(b, a, w, h);
    let n = blocks(w) * blocks(h);
    assert forall|k: int| 0 <= k < n implies #[trigger] f(k) == g(k) by {
        let x0 = 8 * (k % blocks(w));
        let y0 = 8 * (k / blocks(w));
        let bw = if w - x0 < 8 {
            w - x0
        } else {
            8
        };
        let bh = if h - y0 < 8 {
            h - y0
        } else {
            8
        };
        let m = bw * bh;
        let p = values(a, w, x0, y0, bw);
        let q = values(b, w, x0, y0, bw);
        assert forall|t: int| 0 <= t < m implies #[trigger] products(p, q)(t) == products(q, p)(t) by {
            assert(p(t) * q(t) == q(t) * p(t)) by (nonlinear_arith);
        }
        counting::sum_ext(products(p, q), products(q, p), m);
        let sa = counting::sum_below(p, m);
        let sb = counting::sum_below(q, m);
        assert(sa * sb == sb * sa) by (nonlinear_arith);
    }
    counting::sum_ext(f, g, n);
}

/// The `t`-th value of the `k`-th tile of eight by eight.
pub open spec fn tile_value(a: Seq<u8>, w: int, k: int) -> spec_fn(int) -> int {
    |t: int| a[(8 * (k / (w / 8)) + t / 8) * w + (8 * (k % (w / 8)) + t % 8)] as int
}

/// The products of the values of two tiles.
pub open spec fn tile_product(a: Seq<u8>, b: Seq<u8>, w: int, k: int) -> spec_fn(int) -> int {
    |t: int| tile_value(a, w, k)(t) * tile_value(b, w, k)(t)
}

/// The similarity of two tiles, from their sums and sums of squares and products:
/// of the means, with the constant `(0.01 · 255)²`, times of the spreads, with the
/// constant `(0.03 · 255)²`.
pub open spec fn tile_similarity(a: Seq<u8>, b: Seq<u8>, w: int, k: int) -> int {
    let sa = counting::sum_below(tile_value(a, w, k), 64);
    let sb = counting::sum_below(tile_value(b, w, k), 64);
    let aa = 64 * counting::sum_below(tile_product(a, a, w, k), 64) - sa * sa;
    let bb = 64 * counting::sum_below(tile_product(b, b, w, k), 64) - sb * sb;
    let ab = 64 * counting::sum_below(tile_product(a, b, w, k), 64) - sa * sb;
    let top = (20000 * (sa * sb) + 266_342_400) * (20000 * ab + 2_397_081_600);
    let bottom = (10000 * (sa * sa + sb * sb) + 266_342_400) * (10000 * (aa + bb) + 2_397_081_600);
    (1_000_000_000 * top) / bottom
}

/// The similarity of two planes is the mean over their tiles of eight by eight,
/// rounded down.
pub proof fn similarity_is_the_mean_over_tiles(a: Seq<u8>, b: Seq<u8>, w: int, h: int)
    requires
        w > 0,
        h > 0,
        w % 8 == 0,
        h % 8 == 0,
    ensures
        ssim_of(a, b, w, h) == counting::sum_below(|k: int| tile_similarity(a, b, w, k), (w / 8) * (h / 8)) / ((w / 8) * (
        h / 8)),
{
    let bx = w / 8;
    let by = h / 8;
    let n = bx * by;
    assert(blocks(w) == bx && blocks(h) == by);
    assert(n > 0) by (nonlinear_arith)
        requires
            n == bx * by,
            bx > 0,
            by > 0,
    ;
    let f = |k: int| tile_similarity(a, b, w, k);
    let g = nth_similarity(a, b, w, h);
    assert forall|k: int| 0 <= k < n implies #[trigger] f(k) == g(k) by {
        assert(0 <= k / bx && k / bx + 1 <= by && 0 <= k % bx < bx) by (nonlinear_arith)
            requires
                0 <= k < bx * by,
                bx >= 1,
        ;
        let x0 = 8 * (k % bx);
        let y0 = 8 * (k / bx);
        let p = values(a, w, x0, y0, 8);
        let q = values(b, w, x0, y0, 8);
        assert forall|t: int| 0 <= t < 64 implies #[trigger] p(t) == tile_value(a, w, k)(t) by {
        }
        assert forall|t: int| 0 <= t < 64 implies #[trigger] q(t) == tile_value(b, w, k)(t) by {
        }
        counting::sum_ext(p, tile_value(a, w, k), 64);
        counting::sum_ext(q, tile_value(b, w, k), 64);
        assert forall|t: int| 0 <= t < 64 implies #[trigger] products(p, p)(t) == tile_product(a, a, w, k)(t) by {
            assert(p(t) == tile_value(a, w, k)(t));
        }
        assert forall|t: int| 0 <= t < 64 implies #[trigger] products(q, q)(t) == tile_product(b, b, w, k)(t) by {
            assert(q(t) == tile_value(b, w, k)(t));
        }
        assert forall|t: int| 0 <= t < 64 implies #[trigger] products(p, q)(t) == tile_product(a, b, w, k)(t) by {
            assert(p(t) == tile_value(a, w, k)(t));
            assert(q(t) == tile_value(b, w, k)(t));
        }
        counting::sum_ext(products(p, p), tile_product(a, a, w, k), 64);
        counting::sum_ext(products(q, q), tile_product(b, b, w, k), 64);
        counting::sum_ext(products(p, q), tile_product(a, b, w, k), 64);
        assert(64int * 64int == 4096);
    }
    counting::sum_ext(f, g, n);
}

proof fn rounding_is_nearest(v: int, d: int)
    requires
        d > 0,
    ensures
        -d <= 2 * (rounded(v, d) * d - v) <= d,
{
    if v >= 0 {
        counting::quotient_sides(2 * v + d, 2 * d);
        let q = (2 * v + d) / (2 * d);
        assert(q * (2 * d) == 2 * (q * d) && (q + 1) * (2 * d) == 2 * (q * d) + 2 * d) by (nonlinear_arith);
    } else {
        let u = -v;
        counting::quotient_sides(2 * u + d, 2 * d);
        let q = (2 * u + d) / (2 * d);
        assert(q * (2 * d) == 2 * (q * d) && (q + 1) * (2 * d) == 2 * (q * d) + 2 * d) by (nonlinear_arith);
        assert((-q) * d == -(q * d)) by (nonlinear_arith);
    }
}

/// The render is shifted by the distance between the centres of both planes' ink,
/// rounded to the nearest pixel; a plane without ink is not shifted. Both sides are
/// multiplied by the two weights.
pub proof fn shift_is_the_distance_of_the_centres(a: Seq<u8>, b: Seq<u8>, w: int)
    ensures
        ({
            let wa = counting::sum_below(|k: int| a[k] as int, a.len() as int);
            let wb = counting::sum_below(|k: int| b[k] as int, b.len() as int);
            let across = counting::sum_below(|k: int| (k % w) * a[k], a.len() as int) * wb - counting::sum_below(
                |k: int| (k % w) * b[k],
                b.len() as int,
            ) * wa;
            let down = counting::sum_below(|k: int| (k / w) * a[k], a.len() as int) * wb - counting::sum_below(
                |k: int| (k / w) * b[k],
                b.len() as int,
            ) * wa;
            let (dx, dy) = shift_of(a, b, w);
            &&& wa == 0 || wb == 0 ==> dx == 0 && dy == 0
            &&& wa > 0 && wb > 0 ==> -(wa * wb) <= 2 * (dx * (wa * wb) - across) <= wa * wb
            &&& wa > 0 && wb > 0 ==> -(wa * wb) <= 2 * (dy * (wa * wb) - down) <= wa * wb
        }),
{
    let wa = weight(a);
    let wb = weight(b);
    counting::sum_ext(|k: int| a[k] as int, |i: int| a[i] as int, a.len() as int);
    counting::sum_ext(|k: int| b[k] as int, |i: int| b[i] as int, b.len() as int);
    counting::sum_ext(|k: int| (k % w) * a[k], |i: int| (i % w) * a[i], a.len() as int);
    counting::sum_ext(|k: int| (k % w) * b[k], |i: int| (i % w) * b[i], b.len() as int);
    counting::sum_ext(|k: int| (k / w) * a[k], |i: int| (i / w) * a[i], a.len() as int);
    counting::sum_ext(|k: int| (k / w) * b[k], |i: int| (i / w) * b[i], b.len() as int);
    if wa > 0 && wb > 0 {
        assert(wa * wb > 0) by (nonlinear_arith)
            requires
                wa > 0,
                wb > 0,
        ;
        rounding_is_nearest(x_sum(a, w) * wb - x_sum(b, w) * wa, wa * wb);
        rounding_is_nearest(y_sum(a, w) * wb - y_sum(b, w) * wa, wa * wb);
    }
}

/// The value of a plane once it is moved by `(dx, dy)`; what comes in is blank.
pub open spec fn shifted_value(b: Seq<u8>, w: int, h: int, dx: int, dy: int, k: int) -> u8 {
    if 0 <= k % w - dx < w && 0 <= k / w - dy < h {
        b[(k / w - dy) * w + (k % w - dx)]
    } else {
        0
    }
}

/// A render is compared after the shift: error, overlap and similarity are those of
/// the reference and the moved render.
pub proof fn renders_are_compared_after_the_shift(a: Seq<u8>, b: Seq<u8>, w: int, h: int, r: Score)
    requires
        w > 0,
        h > 0,
        a.len() == w * h,
        b.len() == w * h,
        r == score_of(a, b, w, h),
    ensures
        ({
            let (dx, dy) = shift_of(a, b, w);
            let m = Seq::new(b.len(), |k: int| shifted_value(b, w, h, dx, dy, k));
            let e = counting::sum_below(
                |k: int|
                    if a[k] >= m[k] {
                        a[k] - m[k]
                    } else {
                        m[k] - a[k]
                    },
                w * h,
            );
            let both = counting::count_below(|k: int| a[k] >= 128 && m[k] >= 128, w * h);
            let any = counting::count_below(|k: int| a[k] >= 128 || m[k] >= 128, w * h);
            &&& r.mae * (255 * (w * h)) <= 1_000_000_000 * e < (r.mae + 1) * (255 * (w * h))
            &&& any == 0 ==> r.iou == 1_000_000_000
            &&& any > 0 ==> r.iou * any <= 1_000_000_000 * both < (r.iou + 1) * any
        }),
{
    let (dx, dy) = shift_of(a, b, w);
    let m = Seq::new(b.len(), |k: int| shifted_value(b, w, h, dx, dy, k));
    assert(moved(b, w, h, dx, dy) =~= m);
    let n = w * h;
    assert(n > 0) by (nonlinear_arith)
        requires
            n == w * h,
            w > 0,
            h > 0,
    ;
    let f = |k: int|
        if a[k] >= m[k] {
            a[k] - m[k]
        } else {
            m[k] - a[k]
        };
    counting::sum_ext(f, |i: int| gap(a[i], m[i]), n);
    let both = |k: int| a[k] >= 128 && m[k] >= 128;
    let any = |k: int| a[k] >= 128 || m[k] >= 128;
    counting::count_ext(both, dupes::both_ink(a, m), n);
    counting::count_ext(any, dupes::any_ink(a, m), n);
    counting::count_le(both, any, n);
    counting::count_bounds(both, n);
    counting::count_bounds(any, n);
    error_bound(a, m, n);
    let e = error_sum(a, m);
    let d = 255 * n;
    let q = (1_000_000_000 * e) / d;
    assert(0 <= q <= 1_000_000_000) by (nonlinear_arith)
        requires
            q == (1_000_000_000 * e) / d,
            0 <= e <= d,
            d > 0,
    ;
    counting::quotient_sides(1_000_000_000 * e, d);
    let y = counting::count_below(any, n);
    let x = counting::count_below(both, n);
    if y > 0 {
        let o = (1_000_000_000 * x) / y;
        assert(0 <= o <= 1_000_000_000) by (nonlinear_arith)
            requires
                o == (1_000_000_000 * x) / y,
                0 <= x <= y,
                y > 0,
        ;
        counting::quotient_sides(1_000_000_000 * x, y);
    }
}

} // verus!
