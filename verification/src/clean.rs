//! Mask cleaning: `median(3)`, then `open(3)`, then `close(3|5)`.
//!
//! The passes run on a row-padded bit matrix where 3x3 morphology becomes
//! word-parallel shifts. Pixels off the sheet count as background, so erosion
//! removes a one-pixel frame at the sheet's border.
//!
//! Contracts speak of planes, predicates on pixel coordinates: [`dilated`],
//! [`eroded`] and [`majority`] say pixel by pixel what a pass returns.
use vstd::prelude::*;
use crate::counting;
use crate::mask;
use crate::mask::ForegroundMask;

verus! {

/// A predicate on pixel coordinates.
pub type Plane = spec_fn(int, int) -> bool;

/// The ink of a mask as a plane.
pub open spec fn plane_of(m: ForegroundMask) -> Plane {
    |x: int, y: int| m.ink(x, y)
}

/// Some pixel of the 3x3 neighbourhood of `(x, y)` is set.
pub open spec fn any9(f: Plane, x: int, y: int) -> bool {
    ||| f(x - 1, y - 1)
    ||| f(x, y - 1)
    ||| f(x + 1, y - 1)
    ||| f(x - 1, y)
    ||| f(x, y)
    ||| f(x + 1, y)
    ||| f(x - 1, y + 1)
    ||| f(x, y + 1)
    ||| f(x + 1, y + 1)
}

/// Every pixel of the 3x3 neighbourhood of `(x, y)` is set.
pub open spec fn all9(f: Plane, x: int, y: int) -> bool {
    &&& f(x - 1, y - 1)
    &&& f(x, y - 1)
    &&& f(x + 1, y - 1)
    &&& f(x - 1, y)
    &&& f(x, y)
    &&& f(x + 1, y)
    &&& f(x - 1, y + 1)
    &&& f(x, y + 1)
    &&& f(x + 1, y + 1)
}

/// One for a set pixel, zero for a clear one.
pub open spec fn one(b: bool) -> int {
    if b {
        1
    } else {
        0
    }
}

/// How many pixels of the 3x3 neighbourhood of `(x, y)` are set.
pub open spec fn sum9(f: Plane, x: int, y: int) -> int {
    one(f(x - 1, y - 1)) + one(f(x, y - 1)) + one(f(x + 1, y - 1)) + one(f(x - 1, y)) + one(
        f(x, y),
    ) + one(f(x + 1, y)) + one(f(x - 1, y + 1)) + one(f(x, y + 1)) + one(f(x + 1, y + 1))
}

/// Dilation by the 3x3 square on a `w` by `h` sheet.
pub open spec fn dilated(w: int, h: int, f: Plane) -> Plane {
    |x: int, y: int| 0 <= x < w && 0 <= y < h && any9(f, x, y)
}

/// Erosion by the 3x3 square.
pub open spec fn eroded(f: Plane) -> Plane {
    |x: int, y: int| all9(f, x, y)
}

/// The 3x3 majority filter on a `w` by `h` sheet.
pub open spec fn majority(w: int, h: int, f: Plane) -> Plane {
    |x: int, y: int| 0 <= x < w && 0 <= y < h && sum9(f, x, y) >= 5
}

/// `n` dilations.
pub open spec fn dilated_by(w: int, h: int, f: Plane, n: nat) -> Plane
    decreases n,
{
    if n == 0 {
        f
    } else {
        dilated(w, h, dilated_by(w, h, f, (n - 1) as nat))
    }
}

/// `n` erosions.
pub open spec fn eroded_by(f: Plane, n: nat) -> Plane
    decreases n,
{
    if n == 0 {
        f
    } else {
        eroded(eroded_by(f, (n - 1) as nat))
    }
}

/// Opening: erosion, then dilation.
pub open spec fn opened(w: int, h: int, f: Plane) -> Plane {
    dilated(w, h, eroded(f))
}

/// Closing: `n` dilations, then `n` erosions.
pub open spec fn closed_by(w: int, h: int, f: Plane, n: nat) -> Plane {
    eroded_by(dilated_by(w, h, f, n), n)
}

/// The whole cleaning pass with `n` closing rounds.
pub open spec fn cleaned(w: int, h: int, f: Plane, n: nat) -> Plane {
    closed_by(
        w,
        h,
        opened(w, h, majority(w, h, f)),
        if n < 2 {
            n
        } else {
            2
        },
    )
}

/// Mask `r` has the size of `m` and the ink that `f` says.
pub open spec fn is_result(m: ForegroundMask, r: ForegroundMask, f: Plane) -> bool {
    &&& r.wf()
    &&& r.width == m.width
    &&& r.height == m.height
    &&& forall|x: int, y: int| #[trigger] r.ink(x, y) == f(x, y)
}

// ---- bits of a word -------------------------------------------------------

/// Bit `b` of `w`.
pub open spec fn bit_of(w: u64, b: u64) -> bool {
    (w >> b) & 1 == 1
}

proof fn kernel_or(w: u64, prev: u64, next: u64, b: u64)
    by (bit_vector)
    requires
        b < 64,
    ensures
        bit_of(w | ((w << 1) | (prev >> 63)) | ((w >> 1) | (next << 63)), b) == (bit_of(w, b) || (
        if b > 0 {
            bit_of(w, (b - 1) as u64)
        } else {
            bit_of(prev, 63)
        }) || (if b < 63 {
            bit_of(w, (b + 1) as u64)
        } else {
            bit_of(next, 0)
        })),
{
}

proof fn kernel_and(w: u64, prev: u64, next: u64, b: u64)
    by (bit_vector)
    requires
        b < 64,
    ensures
        bit_of(w & ((w << 1) | (prev >> 63)) & ((w >> 1) | (next << 63)), b) == (bit_of(w, b) && (
        if b > 0 {
            bit_of(w, (b - 1) as u64)
        } else {
            bit_of(prev, 63)
        }) && (if b < 63 {
            bit_of(w, (b + 1) as u64)
        } else {
            bit_of(next, 0)
        })),
{
}

proof fn or_and_bits(v: u64, w: u64, b: u64)
    by (bit_vector)
    requires
        b < 64,
    ensures
        bit_of(v | w, b) == (bit_of(v, b) || bit_of(w, b)),
        bit_of(v & w, b) == (bit_of(v, b) && bit_of(w, b)),
        !bit_of(0, b),
        bit_of(0xffff_ffff_ffff_ffff, b),
{
}

proof fn span_bits(lo: u64, take: u64, b: u64)
    by (bit_vector)
    requires
        b < 64,
        0 < take < 64,
        lo <= 64 - take,
    ensures
        bit_of((((1u64 << take) - 1) as u64) << lo, b) == (lo <= b && b < lo + take),
        (1u64 << take) >= 1,
{
}

proof fn low_bits(n: u64, b: u64)
    by (bit_vector)
    requires
        b < 64,
        n < 64,
    ensures
        bit_of(((1u64 << n) - 1) as u64, b) == (b < n),
        (1u64 << n) >= 1,
{
}

// ---- the packed matrix ------------------------------------------------------

/// Row-padded bit matrix: `stride` words per row, padding bits clear.
pub struct PackedRows {
    /// Width in pixels.
    pub w: u32,
    /// Height in pixels.
    pub h: u32,
    /// Words per row.
    pub stride: usize,
    /// The rows, one after the other.
    pub words: Vec<u64>,
}

/// Bit `x` of a row of words; false outside the row.
pub open spec fn row_bit(row: Seq<u64>, x: int) -> bool {
    0 <= x < 64 * row.len() && bit_of(row[x / 64], (x % 64) as u64)
}

impl PackedRows {
    /// The words of row `y`.
    pub open spec fn row_words(&self, y: int) -> Seq<u64> {
        self.words@.subrange(y * self.stride, y * self.stride + self.stride)
    }

    /// Pixel `(x, y)`; false off the matrix.
    pub open spec fn on(&self, x: int, y: int) -> bool {
        0 <= y < self.h && row_bit(self.row_words(y), x)
    }

    /// The pixels of the matrix as a plane.
    pub open spec fn plane(&self) -> Plane {
        |x: int, y: int| self.on(x, y)
    }

    /// The layout fits the size, and no padding bit is set.
    pub open spec fn wf(&self) -> bool {
        &&& self.w * self.h <= mask::MAX_PIXELS
        &&& 64 * self.stride >= self.w
        &&& 64 * (self.stride - 1) < self.w
        &&& self.words@.len() == self.stride * self.h
        &&& self.stride * self.h <= usize::MAX
        &&& forall|x: int, y: int| #[trigger] self.on(x, y) ==> x < self.w
    }

    /// An all-clear matrix.
    fn blank(w: u32, h: u32) -> (r: PackedRows)
        requires
            w * h <= mask::MAX_PIXELS,
        ensures
            r.wf(),
            r.w == w,
            r.h == h,
            forall|x: int, y: int| !#[trigger] r.on(x, y),
    {
        let stride: usize = w as usize / 64 + (if w % 64 == 0 {
            0
        } else {
            1
        });
        proof {
            stride_fits(w as int, h as int, stride as int);
        }
        let n: usize = stride * h as usize;
        let mut words: Vec<u64> = Vec::new();
        let mut i: usize = 0;
        while i < n
            invariant
                i <= n,
                words@.len() == i,
                forall|k: int| 0 <= k < i ==> words@[k] == 0,
            decreases n - i,
        {
            words.push(0);
            i = i + 1;
        }
        let r = PackedRows { w, h, stride, words };
        assert forall|x: int, y: int| !#[trigger] r.on(x, y) by {
            if 0 <= y < h {
                mask::lemma_row(stride as int, h as int, y);
            }
            if 0 <= y < h && 0 <= x < 64 * stride {
                assert(r.row_words(y)[x / 64] == 0);
                or_and_bits(0, 0, (x % 64) as u64);
            }
        }
        r
    }

    /// The ink of a mask.
    pub fn from_mask(mask: &ForegroundMask) -> (r: PackedRows)
        requires
            mask.wf(),
        ensures
            r.wf(),
            r.w == mask.width,
            r.h == mask.height,
            forall|x: int, y: int| #[trigger] r.on(x, y) == mask.ink(x, y),
    {
        let mut p = PackedRows::blank(mask.width, mask.height);
        let runs = mask.runs();
        let mut i: usize = 0;
        while i < runs.len()
            invariant
                i <= runs@.len(),
                mask.wf(),
                p.wf(),
                p.w == mask.width,
                p.h == mask.height,
                mask::is_runs_of(*mask, runs@),
                forall|x: int, y: int| #[trigger]
                    p.on(x, y) == mask::some_run_covers(runs@.take(i as int), x, y),
            decreases runs@.len() - i,
        {
            let run = runs[i];
            assert(mask::is_maximal_run(*mask, runs@[i as int]));
            let ghost p0 = p;
            let mut x: u32 = run.x_start;
            while x < run.x_end
                invariant
                    p.wf(),
                    p.w == p0.w,
                    p.h == p0.h,
                    run.x_start <= x <= run.x_end <= p.w,
                    run.y < p.h,
                    forall|a: int, b: int| #[trigger]
                        p.on(a, b) == (p0.on(a, b) || (b == run.y && run.x_start <= a < x)),
                decreases run.x_end - x,
            {
                let lo: u32 = x % 64;
                let room: u32 = 64 - lo;
                let left: u32 = run.x_end - x;
                let take: u32 = if room < left {
                    room
                } else {
                    left
                };
                let ghost p1 = p;
                p.fill(x, run.y, take);
                x = x + take;
            }
            proof {
                assert forall|a: int, b: int| #[trigger]
                    p.on(a, b) == mask::some_run_covers(runs@.take(i + 1), a, b) by {
                    let s = runs@.take(i as int);
                    let t = runs@.take(i + 1);
                    assert(p0.on(a, b) == mask::some_run_covers(s, a, b));
                    if mask::some_run_covers(s, a, b) {
                        let k = choose|k: int|
                            0 <= k < s.len() && mask::run_covers(#[trigger] s[k], a, b);
                        assert(mask::run_covers(t[k], a, b));
                    }
                    if mask::run_covers(run, a, b) {
                        assert(mask::run_covers(t[i as int], a, b));
                    }
                    if mask::some_run_covers(t, a, b) {
                        let k = choose|k: int|
                            0 <= k < t.len() && mask::run_covers(#[trigger] t[k], a, b);
                        if k < i {
                            assert(mask::run_covers(s[k], a, b));
                        }
                    }
                }
            }
            i = i + 1;
        }
        proof {
            assert(runs@.take(runs@.len() as int) =~= runs@);
            assert forall|x: int, y: int| #[trigger] p.on(x, y) == mask.ink(x, y) by {
                assert(p.on(x, y) == mask::some_run_covers(runs@, x, y));
                if mask::some_run_covers(runs@, x, y) {
                    let k = choose|k: int|
                        0 <= k < runs@.len() && mask::run_covers(#[trigger] runs@[k], x, y);
                    assert(mask::is_maximal_run(*mask, runs@[k]));
                }
                if mask.ink(x, y) {
                    assert(mask::some_run_covers(runs@, x, y));
                }
            }
        }
        p
    }

    /// Sets `take` pixels of row `y` from column `x` on, all in one word.
    fn fill(&mut self, x: u32, y: u32, take: u32)
        requires
            old(self).wf(),
            y < old(self).h,
            0 < take,
            x % 64 + take <= 64,
            x + take <= old(self).w,
        ensures
            final(self).wf(),
            final(self).w == old(self).w,
            final(self).h == old(self).h,
            forall|a: int, b: int| #[trigger]
                final(self).on(a, b) == (old(self).on(a, b) || (b == y && x <= a < x + take)),
    {
        let ghost p0 = *self;
        let wi: usize = x as usize / 64;
        let lo: u64 = x as u64 % 64;
        let m: u64 = if take == 64 {
            u64::MAX
        } else {
            proof {
                span_bits(lo, take as u64, 0);
            }
            ((1u64 << take as u64) - 1) << lo
        };
        proof {
            mask::lemma_row(self.stride as int, self.h as int, y as int);
        }
        let at: usize = y as usize * self.stride + wi;
        let old_word: u64 = self.words[at];
        self.words.set(at, old_word | m);
        proof {
            assert forall|a: int, b: int| #[trigger]
                self.on(a, b) == (p0.on(a, b) || (b == y && x <= a < x + take)) by {
                if 0 <= b < self.h {
                    mask::lemma_row(self.stride as int, self.h as int, b);
                }
                if 0 <= b < self.h && 0 <= a < 64 * self.stride {
                    let k = b * self.stride + a / 64;
                    assert(self.row_words(b)[a / 64] == self.words@[k]);
                    assert(p0.row_words(b)[a / 64] == p0.words@[k]);
                    if k == at {
                        mask::lemma_pixel_inj(
                            self.stride as int,
                            a / 64,
                            b,
                            wi as int,
                            y as int,
                        );
                        let c = (a % 64) as u64;
                        or_and_bits(old_word, m, c);
                        if take != 64 {
                            span_bits(lo, take as u64, c);
                        }
                    } else if b == y {
                        assert(a / 64 != wi);
                    }
                }
            }
        }
    }

    /// Value of pixel `(x, y)`; a pixel off the sheet is background.
    pub fn bit(&self, x: i64, y: i64) -> (r: bool)
        requires
            self.wf(),
        ensures
            r == self.on(x as int, y as int),
    {
        if x < 0 || y < 0 || x >= self.w as i64 || y >= self.h as i64 {
            return false;
        }
        proof {
            mask::lemma_row(self.stride as int, self.h as int, y as int);
        }
        let idx: usize = y as usize * self.stride + x as usize / 64;
        assert(self.row_words(y as int)[x as int / 64] == self.words@[idx as int]);
        (self.words[idx] >> (x as u64 % 64)) & 1 == 1
    }

    /// The matrix as a mask.
    pub fn to_mask(&self) -> (r: ForegroundMask)
        requires
            self.wf(),
        ensures
            r.wf(),
            r.width == self.w,
            r.height == self.h,
            forall|x: int, y: int| #[trigger] r.ink(x, y) == self.on(x, y),
    {
        let mut bits: Vec<bool> = Vec::new();
        let mut y: u32 = 0;
        proof {
            mask::lemma_row(self.w as int, self.h as int, 0);
        }
        while y < self.h
            invariant
                self.wf(),
                y <= self.h,
                bits@.len() == y * self.w,
                y * self.w <= self.w * self.h,
                y == self.h ==> y * self.w == self.w * self.h,
                forall|a: int, b: int|
                    0 <= a < self.w && 0 <= b < y ==> bits@[mask::pixel_at(self.w as int, a, b)]
                        == #[trigger] self.on(a, b),
            decreases self.h - y,
        {
            let mut x: u32 = 0;
            while x < self.w
                invariant
                    self.wf(),
                    y < self.h,
                    x <= self.w,
                    bits@.len() == y * self.w + x,
                    forall|a: int, b: int|
                        0 <= a < self.w && 0 <= b && (b < y || (b == y && a < x))
                            ==> bits@[mask::pixel_at(self.w as int, a, b)] == #[trigger] self.on(
                            a,
                            b,
                        ),
                decreases self.w - x,
            {
                let ghost bits0 = bits@;
                let v: bool = self.bit(x as i64, y as i64);
                bits.push(v);
                proof {
                    assert forall|a: int, b: int|
                        0 <= a < self.w && 0 <= b && (b < y || (b == y && a < x + 1)) implies
                        bits@[mask::pixel_at(self.w as int, a, b)] == #[trigger] self.on(a, b) by {
                        mask::lemma_pixel_order(self.w as int, a, b, x as int, y as int);
                        mask::lemma_pixel_order(self.w as int, x as int, y as int, a, b);
                        mask::lemma_row(self.w as int, self.h as int, b);
                        if b < y || a < x {
                            assert(bits0[mask::pixel_at(self.w as int, a, b)] == self.on(a, b));
                        }
                    }
                }
                x = x + 1;
            }
            proof {
                mask::lemma_row(self.w as int, self.h as int, y as int);
                mask::lemma_row(self.w as int, self.h as int, y + 1);
            }
            y = y + 1;
        }
        ForegroundMask { width: self.w, height: self.h, bits }
    }
}

/// The stride of a `w`-wide row, times the height, is a machine size.
proof fn stride_fits(w: int, h: int, stride: int)
    requires
        0 <= w <= u32::MAX,
        0 <= h <= u32::MAX,
        w * h <= mask::MAX_PIXELS,
        stride == w / 64 + (if w % 64 == 0 {
            0int
        } else {
            1int
        }),
    ensures
        64 * stride >= w,
        64 * (stride - 1) < w,
        0 <= stride * h <= usize::MAX,
{
    if w == 0 {
        assert(stride * h == 0) by (nonlinear_arith)
            requires
                stride == 0,
        ;
    } else {
        assert(stride <= w);
        assert(0 <= stride * h <= w * h) by (nonlinear_arith)
            requires
                0 <= stride <= w,
                0 <= h,
        ;
    }
}

/// Three neighbouring bits of a row, folded by OR or AND.
pub open spec fn fold3(row: Seq<u64>, x: int, dilate: bool) -> bool {
    if dilate {
        row_bit(row, x - 1) || row_bit(row, x) || row_bit(row, x + 1)
    } else {
        row_bit(row, x - 1) && row_bit(row, x) && row_bit(row, x + 1)
    }
}

/// The 3-wide horizontal kernel of row `y`, with carries across words.
fn kernel_row(p: &PackedRows, y: usize, dilate: bool) -> (v: Vec<u64>)
    requires
        p.wf(),
        y < p.h,
    ensures
        v@.len() == p.stride,
        forall|x: int|
            0 <= x < 64 * p.stride ==> #[trigger] row_bit(v@, x) == fold3(
                p.row_words(y as int),
                x,
                dilate,
            ),
{
    let mut v: Vec<u64> = Vec::new();
    let ghost row = p.row_words(y as int);
    proof {
        mask::lemma_row(p.stride as int, p.h as int, y as int);
    }
    let base: usize = y * p.stride;
    let mut i: usize = 0;
    while i < p.stride
        invariant
            i <= p.stride,
            p.wf(),
            y < p.h,
            base == y * p.stride,
            base + p.stride <= p.words@.len(),
            row == p.row_words(y as int),
            v@.len() == i,
            forall|x: int|
                0 <= x < 64 * i ==> #[trigger] bit_of(v@[x / 64], (x % 64) as u64) == fold3(
                    row,
                    x,
                    dilate,
                ),
        decreases p.stride - i,
    {
        let w: u64 = p.words[base + i];
        let prev: u64 = if i > 0 {
            p.words[base + i - 1]
        } else {
            0
        };
        let next: u64 = if i + 1 < p.stride {
            p.words[base + i + 1]
        } else {
            0
        };
        let l: u64 = (w << 1) | (prev >> 63);
        let r: u64 = (w >> 1) | (next << 63);
        let ghost v0 = v@;
        let out: u64 = if dilate {
            w | l | r
        } else {
            w & l & r
        };
        v.push(out);
        proof {
            assert(row[i as int] == w);
            assert forall|x: int| 0 <= x < 64 * (i + 1) implies #[trigger] bit_of(
                v@[x / 64],
                (x % 64) as u64,
            ) == fold3(row, x, dilate) by {
                if x < 64 * i {
                    assert(v@[x / 64] == v0[x / 64]);
                    assert(bit_of(v0[x / 64], (x % 64) as u64) == fold3(row, x, dilate));
                } else {
                    let b = (x - 64 * i) as u64;
                    assert(x / 64 == i && x % 64 == b);
                    kernel_or(w, prev, next, b);
                    kernel_and(w, prev, next, b);
                    or_and_bits(0, 0, 63);
                    or_and_bits(0, 0, 0);
                    if b > 0 {
                        assert((x - 1) / 64 == i && (x - 1) % 64 == b - 1);
                    } else if i > 0 {
                        assert((x - 1) / 64 == i - 1 && (x - 1) % 64 == 63);
                        assert(row[i - 1] == prev);
                    }
                    if b < 63 {
                        assert((x + 1) / 64 == i && (x + 1) % 64 == b + 1);
                    } else if i + 1 < p.stride {
                        assert((x + 1) / 64 == i + 1 && (x + 1) % 64 == 0);
                        assert(row[i + 1] == next);
                    }
                }
            }
        }
        i = i + 1;
    }
    v
}

/// The result of 3x3 morphology at pixel `(x, y)`, before the sheet's width
/// cuts the row off.
pub open spec fn fold9(p: PackedRows, x: int, y: int, dilate: bool) -> bool {
    if dilate {
        any9(p.plane(), x, y)
    } else {
        all9(p.plane(), x, y)
    }
}

/// One output row of 3x3 morphology: the horizontal kernel of rows `y - 1`, `y`
/// and `y + 1`, folded. A missing row is background.
fn morph_row(p: &PackedRows, y: usize, dilate: bool) -> (v: Vec<u64>)
    requires
        p.wf(),
        y < p.h,
    ensures
        v@.len() == p.stride,
        forall|x: int| #[trigger]
            row_bit(v@, x) == (0 <= x < p.w && fold9(*p, x, y as int, dilate)),
{
    let mid = kernel_row(p, y, dilate);
    let above: Option<Vec<u64>> = if y > 0 {
        Some(kernel_row(p, y - 1, dilate))
    } else {
        None
    };
    let below: Option<Vec<u64>> = if y + 1 < p.h as usize {
        Some(kernel_row(p, y + 1, dilate))
    } else {
        None
    };
    let mut v: Vec<u64> = Vec::new();
    let mut i: usize = 0;
    let tail: u64 = p.w as u64 % 64;
    proof {
        low_bits(tail, 0);
    }
    let last_valid: u64 = if tail == 0 {
        u64::MAX
    } else {
        (1u64 << tail) - 1
    };
    while i < p.stride
        invariant
            i <= p.stride,
            p.wf(),
            y < p.h,
            tail == p.w as u64 % 64,
            last_valid == (if tail == 0 {
                u64::MAX
            } else {
                ((1u64 << tail) - 1) as u64
            }),
            above is Some == (y > 0),
            below is Some == (y + 1 < p.h),
            mid@.len() == p.stride,
            above is Some ==> above->0@.len() == p.stride,
            below is Some ==> below->0@.len() == p.stride,
            forall|x: int|
                0 <= x < 64 * p.stride ==> #[trigger] row_bit(mid@, x) == fold3(
                    p.row_words(y as int),
                    x,
                    dilate,
                ),
            above is Some ==> forall|x: int|
                0 <= x < 64 * p.stride ==> #[trigger] row_bit(above->0@, x) == fold3(
                    p.row_words(y - 1),
                    x,
                    dilate,
                ),
            below is Some ==> forall|x: int|
                0 <= x < 64 * p.stride ==> #[trigger] row_bit(below->0@, x) == fold3(
                    p.row_words(y + 1),
                    x,
                    dilate,
                ),
            v@.len() == i,
            forall|x: int|
                0 <= x < 64 * i ==> #[trigger] bit_of(v@[x / 64], (x % 64) as u64) == (x < p.w
                    && fold9(*p, x, y as int, dilate)),
        decreases p.stride - i,
    {
        let a: u64 = match &above {
            Some(row) => row[i],
            None => 0,
        };
        let b: u64 = match &below {
            Some(row) => row[i],
            None => 0,
        };
        let c: u64 = mid[i];
        let folded: u64 = if dilate {
            a | c | b
        } else {
            a & c & b
        };
        let out: u64 = if i + 1 == p.stride {
            folded & last_valid
        } else {
            folded
        };
        let ghost v0 = v@;
        v.push(out);
        proof {
            assert forall|x: int| 0 <= x < 64 * (i + 1) implies #[trigger] bit_of(
                v@[x / 64],
                (x % 64) as u64,
            ) == (x < p.w && fold9(*p, x, y as int, dilate)) by {
                if x < 64 * i {
                    assert(v@[x / 64] == v0[x / 64]);
                    assert(bit_of(v0[x / 64], (x % 64) as u64) == (x < p.w && fold9(
                        *p,
                        x,
                        y as int,
                        dilate,
                    )));
                } else {
                    let k = (x - 64 * i) as u64;
                    assert(x / 64 == i && x % 64 == k);
                    or_and_bits(a, c, k);
                    or_and_bits(a | c, b, k);
                    or_and_bits(a & c, b, k);
                    or_and_bits(folded, last_valid, k);
                    if tail != 0 {
                        low_bits(tail, k);
                    }
                    or_and_bits(0, 0, k);
                    assert(row_bit(mid@, x) == bit_of(c, k));
                    if y > 0 {
                        assert(row_bit(above->0@, x) == bit_of(a, k));
                    }
                    if y + 1 < p.h {
                        assert(row_bit(below->0@, x) == bit_of(b, k));
                    }
                    assert(bit_of(folded, k) == fold9(*p, x, y as int, dilate));
                    if i + 1 == p.stride {
                        assert(k < tail || tail == 0 <==> x < p.w);
                    } else {
                        assert(x < p.w);
                    }
                }
            }
        }
        i = i + 1;
    }
    assert forall|x: int| #[trigger]
        row_bit(v@, x) == (0 <= x < p.w && fold9(*p, x, y as int, dilate)) by {
        if 0 <= x < 64 * p.stride {
            assert(bit_of(v@[x / 64], (x % 64) as u64) == (x < p.w && fold9(
                *p,
                x,
                y as int,
                dilate,
            )));
        }
    }
    v
}

/// 3x3 morphology of the whole matrix.
fn morph(p: &PackedRows, dilate: bool) -> (r: PackedRows)
    requires
        p.wf(),
    ensures
        r.wf(),
        r.w == p.w,
        r.h == p.h,
        dilate ==> forall|x: int, y: int| #[trigger]
            r.on(x, y) == dilated(p.w as int, p.h as int, p.plane())(x, y),
        !dilate ==> forall|x: int, y: int| #[trigger] r.on(x, y) == eroded(p.plane())(x, y),
{
    let mut words: Vec<u64> = Vec::new();
    let mut y: usize = 0;
    proof {
        mask::lemma_row(p.stride as int, p.h as int, 0);
    }
    while y < p.h as usize
        invariant
            p.wf(),
            y <= p.h,
            words@.len() == y * p.stride,
            y == p.h ==> y * p.stride == p.stride * p.h,
            forall|x: int, b: int|
                0 <= b < y ==> #[trigger] row_bit(
                    words@.subrange(b * p.stride, b * p.stride + p.stride),
                    x,
                ) == (0 <= x < p.w && fold9(*p, x, b, dilate)),
        decreases p.h - y,
    {
        let row = morph_row(p, y, dilate);
        let ghost words0 = words@;
        let mut i: usize = 0;
        while i < row.len()
            invariant
                i <= row@.len(),
                words@ == words0 + row@.take(i as int),
            decreases row@.len() - i,
        {
            words.push(row[i]);
            assert(row@.take(i + 1) =~= row@.take(i as int).push(row@[i as int]));
            i = i + 1;
        }
        proof {
            assert(row@.take(row@.len() as int) =~= row@);
            mask::lemma_row(p.stride as int, p.h as int, y as int);
            mask::lemma_row(p.stride as int, p.h as int, y + 1);
            assert forall|x: int, b: int| 0 <= b < y + 1 implies #[trigger] row_bit(
                words@.subrange(b * p.stride, b * p.stride + p.stride),
                x,
            ) == (0 <= x < p.w && fold9(*p, x, b, dilate)) by {
                mask::lemma_row(p.stride as int, y + 1, b);
                if b < y {
                    mask::lemma_row(p.stride as int, y as int, b);
                    assert(words@.subrange(b * p.stride, b * p.stride + p.stride)
                        =~= words0.subrange(b * p.stride, b * p.stride + p.stride));
                    assert(row_bit(
                        words0.subrange(b * p.stride, b * p.stride + p.stride),
                        x,
                    ) == (0 <= x < p.w && fold9(*p, x, b, dilate)));
                } else {
                    assert(words@.subrange(b * p.stride, b * p.stride + p.stride) =~= row@);
                }
            }
        }
        y = y + 1;
    }
    let r = PackedRows { w: p.w, h: p.h, stride: p.stride, words };
    proof {
        assert forall|x: int, b: int| 0 <= b < p.h implies #[trigger] r.on(x, b) == (0 <= x < p.w
            && fold9(*p, x, b, dilate)) by {
            assert(row_bit(words@.subrange(b * p.stride, b * p.stride + p.stride), x) == (0 <= x
                < p.w && fold9(*p, x, b, dilate)));
        }
        assert forall|x: int, b: int| !dilate && all9(p.plane(), x, b) implies 0 <= x < p.w && 0
            <= b < p.h by {
            assert(p.on(x, b));
        }
    }
    r
}

// ---- the passes ---------------------------------------------------------------

/// 3x3 square dilation.
pub fn dilate3(mask: &ForegroundMask) -> (r: ForegroundMask)
    requires
        mask.wf(),
    ensures
        is_result(*mask, r, dilated(mask.width as int, mask.height as int, plane_of(*mask))),
{
    let p = PackedRows::from_mask(mask);
    assert(p.plane() =~= plane_of(*mask));
    morph(&p, true).to_mask()
}

/// 3x3 square erosion; pixels off the sheet are background.
pub fn erode3(mask: &ForegroundMask) -> (r: ForegroundMask)
    requires
        mask.wf(),
    ensures
        is_result(*mask, r, eroded(plane_of(*mask))),
{
    let p = PackedRows::from_mask(mask);
    assert(p.plane() =~= plane_of(*mask));
    morph(&p, false).to_mask()
}

/// 3x3 majority filter: a pixel is ink when at least five of its neighbourhood,
/// itself included, are ink.
pub fn median3(mask: &ForegroundMask) -> (r: ForegroundMask)
    requires
        mask.wf(),
    ensures
        is_result(*mask, r, majority(mask.width as int, mask.height as int, plane_of(*mask))),
{
    let p = PackedRows::from_mask(mask);
    let mut out = PackedRows::blank(p.w, p.h);
    let ghost f = plane_of(*mask);
    let mut y: u32 = 0;
    while y < p.h
        invariant
            y <= p.h,
            p.wf(),
            out.wf(),
            out.w == p.w,
            out.h == p.h,
            p.w == mask.width,
            p.h == mask.height,
            f == plane_of(*mask),
            forall|a: int, b: int| #[trigger] p.on(a, b) == mask.ink(a, b),
            forall|a: int, b: int| #[trigger]
                out.on(a, b) == (0 <= a < p.w && 0 <= b < y && sum9(f, a, b) >= 5),
        decreases p.h - y,
    {
        let mut x: u32 = 0;
        while x < p.w
            invariant
                y < p.h,
                x <= p.w,
                p.wf(),
                out.wf(),
                out.w == p.w,
                out.h == p.h,
                f == plane_of(*mask),
                forall|a: int, b: int| #[trigger] p.on(a, b) == mask.ink(a, b),
                forall|a: int, b: int| #[trigger]
                    out.on(a, b) == (0 <= a < p.w && 0 <= b && (b < y || (b == y && a < x)) && sum9(
                        f,
                        a,
                        b,
                    ) >= 5),
            decreases p.w - x,
        {
            let n: u8 = row3(&p, x as i64, y as i64 - 1) + row3(&p, x as i64, y as i64) + row3(
                &p,
                x as i64,
                y as i64 + 1,
            );
            assert(n == sum9(f, x as int, y as int));
            if n >= 5 {
                out.fill(x, y, 1);
            }
            x = x + 1;
        }
        y = y + 1;
    }
    out.to_mask()
}

/// How many of the three pixels around `(x, y)` in row `y` are set.
fn row3(p: &PackedRows, x: i64, y: i64) -> (n: u8)
    requires
        p.wf(),
        i64::MIN < x < i64::MAX,
    ensures
        n <= 3,
        n == one(p.on(x - 1, y as int)) + one(p.on(x as int, y as int)) + one(
            p.on(x + 1, y as int),
        ),
{
    let mut n: u8 = 0;
    if p.bit(x - 1, y) {
        n = n + 1;
    }
    if p.bit(x, y) {
        n = n + 1;
    }
    if p.bit(x + 1, y) {
        n = n + 1;
    }
    n
}

/// Erosion, then dilation: removes isolated pixels and thin spurs.
pub fn open3(mask: &ForegroundMask) -> (r: ForegroundMask)
    requires
        mask.wf(),
    ensures
        is_result(*mask, r, opened(mask.width as int, mask.height as int, plane_of(*mask))),
{
    let e = erode3(mask);
    assert(plane_of(e) =~= eroded(plane_of(*mask)));
    dilate3(&e)
}

/// `passes` dilations, then `passes` erosions: bridges narrow gaps.
pub fn close(mask: &ForegroundMask, passes: u8) -> (r: ForegroundMask)
    requires
        mask.wf(),
    ensures
        is_result(
            *mask,
            r,
            closed_by(mask.width as int, mask.height as int, plane_of(*mask), passes as nat),
        ),
{
    let mut p = PackedRows::from_mask(mask);
    let ghost w = mask.width as int;
    let ghost h = mask.height as int;
    let ghost f = plane_of(*mask);
    assert(p.plane() =~= f);
    let mut i: u8 = 0;
    while i < passes
        invariant
            i <= passes,
            p.wf(),
            p.w == w,
            p.h == h,
            p.plane() =~= dilated_by(w, h, f, i as nat),
        decreases passes - i,
    {
        p = morph(&p, true);
        assert(p.plane() =~= dilated_by(w, h, f, (i + 1) as nat));
        i = i + 1;
    }
    let ghost g = dilated_by(w, h, f, passes as nat);
    i = 0;
    while i < passes
        invariant
            i <= passes,
            p.wf(),
            p.w == w,
            p.h == h,
            p.plane() =~= eroded_by(g, i as nat),
        decreases passes - i,
    {
        p = morph(&p, false);
        assert(p.plane() =~= eroded_by(g, (i + 1) as nat));
        i = i + 1;
    }
    let r = p.to_mask();
    assert forall|x: int, y: int| #[trigger] r.ink(x, y) == closed_by(w, h, f, passes as nat)(
        x,
        y,
    ) by {
        assert(r.ink(x, y) == p.plane()(x, y));
    }
    r
}

/// A single 3x3 close: the default gap bridge.
pub fn close3(mask: &ForegroundMask) -> (r: ForegroundMask)
    requires
        mask.wf(),
    ensures
        is_result(*mask, r, closed_by(mask.width as int, mask.height as int, plane_of(*mask), 1)),
{
    close(mask, 1)
}

/// The full cleaning pass: majority filter, opening, closing with one or two
/// rounds.
pub fn clean(mask: &ForegroundMask, close_passes: u8) -> (r: ForegroundMask)
    requires
        mask.wf(),
    ensures
        is_result(
            *mask,
            r,
            cleaned(
                mask.width as int,
                mask.height as int,
                plane_of(*mask),
                close_passes as nat,
            ),
        ),
{
    let m = median3(mask);
    assert(plane_of(m) =~= majority(mask.width as int, mask.height as int, plane_of(*mask)));
    let o = open3(&m);
    assert(plane_of(o) =~= opened(mask.width as int, mask.height as int, plane_of(m)));
    let passes: u8 = if close_passes < 2 {
        close_passes
    } else {
        2
    };
    close(&o, passes)
}

// ---- laws -----------------------------------------------------------------------

/// Erosion only removes ink, and dilation only adds to it.
pub proof fn erosion_and_dilation_bracket(w: int, h: int, f: Plane, x: int, y: int)
    requires
        0 <= x < w,
        0 <= y < h,
    ensures
        eroded(f)(x, y) ==> f(x, y),
        f(x, y) ==> dilated(w, h, f)(x, y),
{
}

/// Opening never adds a pixel.
pub proof fn opening_only_removes(w: int, h: int, f: Plane, x: int, y: int)
    ensures
        opened(w, h, f)(x, y) ==> f(x, y),
{
}

/// A sheet without ink has none after cleaning.
pub proof fn cleaning_blank_stays_blank(w: int, h: int, f: Plane, n: nat, x: int, y: int)
    requires
        forall|a: int, b: int| !#[trigger] f(a, b),
    ensures
        !cleaned(w, h, f, n)(x, y),
{
    let g = opened(w, h, majority(w, h, f));
    assert forall|a: int, b: int| !#[trigger] g(a, b) by {
        opening_only_removes(w, h, majority(w, h, f), a, b);
        assert(sum9(f, a, b) == 0);
    }
    let k: nat = if n < 2 {
        n
    } else {
        2
    };
    blank_dilated(w, h, g, k);
    blank_eroded(dilated_by(w, h, g, k), k);
}

proof fn blank_dilated(w: int, h: int, f: Plane, n: nat)
    requires
        forall|a: int, b: int| !#[trigger] f(a, b),
    ensures
        forall|a: int, b: int| !#[trigger] dilated_by(w, h, f, n)(a, b),
    decreases n,
{
    if n > 0 {
        blank_dilated(w, h, f, (n - 1) as nat);
        let g = dilated_by(w, h, f, (n - 1) as nat);
        assert forall|a: int, b: int| !#[trigger] dilated_by(w, h, f, n)(a, b) by {
            assert(!any9(g, a, b));
        }
    }
}

proof fn blank_eroded(f: Plane, n: nat)
    requires
        forall|a: int, b: int| !#[trigger] f(a, b),
    ensures
        forall|a: int, b: int| !#[trigger] eroded_by(f, n)(a, b),
    decreases n,
{
    if n > 0 {
        blank_eroded(f, (n - 1) as nat);
        let g = eroded_by(f, (n - 1) as nat);
        assert forall|a: int, b: int| !#[trigger] eroded_by(f, n)(a, b) by {
            assert(!all9(g, a, b));
        }
    }
}

/// `(a, b)` is at most `n` steps from `(x, y)`, diagonals included.
pub open spec fn within(a: int, b: int, x: int, y: int, n: int) -> bool {
    -n <= a - x <= n && -n <= b - y <= n
}

proof fn dilated_reach(w: int, h: int, f: Plane, n: nat, x: int, y: int, a: int, b: int)
    requires
        f(x, y),
        0 <= x < w,
        0 <= y < h,
        0 <= a < w,
        0 <= b < h,
        within(a, b, x, y, n as int),
    ensures
        dilated_by(w, h, f, n)(a, b),
    decreases n,
{
    if n > 0 {
        let c = if a < x {
            a + 1
        } else if a > x {
            a - 1
        } else {
            a
        };
        let d = if b < y {
            b + 1
        } else if b > y {
            b - 1
        } else {
            b
        };
        dilated_reach(w, h, f, (n - 1) as nat, x, y, c, d);
    }
}

proof fn eroded_keeps(f: Plane, n: nat, x: int, y: int)
    requires
        forall|a: int, b: int| within(a, b, x, y, n as int) ==> #[trigger] f(a, b),
    ensures
        eroded_by(f, n)(x, y),
    decreases n,
{
    if n > 0 {
        let k = (n - 1) as nat;
        eroded_keeps(f, k, x - 1, y - 1);
        eroded_keeps(f, k, x, y - 1);
        eroded_keeps(f, k, x + 1, y - 1);
        eroded_keeps(f, k, x - 1, y);
        eroded_keeps(f, k, x, y);
        eroded_keeps(f, k, x + 1, y);
        eroded_keeps(f, k, x - 1, y + 1);
        eroded_keeps(f, k, x, y + 1);
        eroded_keeps(f, k, x + 1, y + 1);
    }
}

/// Closing keeps every ink pixel that is at least `n` pixels away from the
/// sheet's border.
pub proof fn closing_keeps_inner_ink(w: int, h: int, f: Plane, n: nat, x: int, y: int)
    requires
        f(x, y),
        n <= x < w - n,
        n <= y < h - n,
    ensures
        closed_by(w, h, f, n)(x, y),
{
    let g = dilated_by(w, h, f, n);
    assert forall|a: int, b: int| within(a, b, x, y, n as int) implies #[trigger] g(a, b) by {
        dilated_reach(w, h, f, n, x, y, a, b);
    }
    eroded_keeps(g, n, x, y);
}

// ---- what cleaning keeps ------------------------------------------------------------

/// Dilation inks a pixel exactly where ink touches it, corners included.
pub proof fn dilation_inks_what_touches(m: ForegroundMask, r: ForegroundMask, x: int, y: int)
    requires
        is_result(m, r, dilated(m.width as int, m.height as int, plane_of(m))),
        0 <= x < m.width,
        0 <= y < m.height,
    ensures
        r.bits@[y * r.width + x] == (exists|a: int, b: int|
            -1 <= a - x <= 1 && -1 <= b - y <= 1 && #[trigger] m.ink(a, b)),
{
    assert(r.ink(x, y) == dilated(m.width as int, m.height as int, plane_of(m))(x, y));
    if any9(plane_of(m), x, y) {
        assert(m.ink(x - 1, y - 1) || m.ink(x, y - 1) || m.ink(x + 1, y - 1) || m.ink(x - 1, y) || m.ink(x, y)
            || m.ink(x + 1, y) || m.ink(x - 1, y + 1) || m.ink(x, y + 1) || m.ink(x + 1, y + 1));
    }
    if exists|a: int, b: int| -1 <= a - x <= 1 && -1 <= b - y <= 1 && #[trigger] m.ink(a, b) {
        let (a, b) = choose|a: int, b: int| -1 <= a - x <= 1 && -1 <= b - y <= 1 && #[trigger] m.ink(a, b);
        assert(plane_of(m)(a, b));
        assert(a == x - 1 || a == x || a == x + 1);
        assert(b == y - 1 || b == y || b == y + 1);
    }
}

/// Erosion keeps a pixel exactly where all that touches it is ink; what lies off
/// the sheet is not.
pub proof fn erosion_keeps_what_is_surrounded(m: ForegroundMask, r: ForegroundMask, x: int, y: int)
    requires
        is_result(m, r, eroded(plane_of(m))),
        0 <= x < m.width,
        0 <= y < m.height,
    ensures
        r.bits@[y * r.width + x] == (forall|a: int, b: int|
            -1 <= a - x <= 1 && -1 <= b - y <= 1 ==> #[trigger] m.ink(a, b)),
{
    assert(r.ink(x, y) == eroded(plane_of(m))(x, y));
    if all9(plane_of(m), x, y) {
        assert forall|a: int, b: int| -1 <= a - x <= 1 && -1 <= b - y <= 1 implies #[trigger] m.ink(a, b) by {
            assert(a == x - 1 || a == x || a == x + 1);
            assert(b == y - 1 || b == y || b == y + 1);
        }
    } else {
        assert(!m.ink(x - 1, y - 1) || !m.ink(x, y - 1) || !m.ink(x + 1, y - 1) || !m.ink(x - 1, y) || !m.ink(
            x,
            y,
        ) || !m.ink(x + 1, y) || !m.ink(x - 1, y + 1) || !m.ink(x, y + 1) || !m.ink(x + 1, y + 1));
    }
}

/// The majority filter inks a pixel exactly where at least five of the nine pixels
/// round it, itself included, are ink.
pub proof fn majority_needs_five_of_nine(m: ForegroundMask, r: ForegroundMask, x: int, y: int)
    requires
        is_result(m, r, majority(m.width as int, m.height as int, plane_of(m))),
        0 <= x < m.width,
        0 <= y < m.height,
    ensures
        r.bits@[y * r.width + x] == (counting::count_below(
            |t: int| m.ink(x - 1 + t % 3, y - 1 + t / 3),
            9,
        ) >= 5),
{
    assert(r.ink(x, y) == majority(m.width as int, m.height as int, plane_of(m))(x, y));
    let f = |t: int| m.ink(x - 1 + t % 3, y - 1 + t / 3);
    reveal_with_fuel(counting::count_below, 10);
    assert(f(0) == m.ink(x - 1, y - 1) && f(1) == m.ink(x, y - 1) && f(2) == m.ink(x + 1, y - 1));
    assert(f(3) == m.ink(x - 1, y) && f(4) == m.ink(x, y) && f(5) == m.ink(x + 1, y));
    assert(f(6) == m.ink(x - 1, y + 1) && f(7) == m.ink(x, y + 1) && f(8) == m.ink(x + 1, y + 1));
}

/// Opening keeps exactly the pixels that lie in some three by three block of ink.
pub proof fn opening_keeps_solid_blocks(m: ForegroundMask, r: ForegroundMask, x: int, y: int)
    requires
        is_result(m, r, opened(m.width as int, m.height as int, plane_of(m))),
        0 <= x < m.width,
        0 <= y < m.height,
    ensures
        r.bits@[y * r.width + x] == (exists|a: int, b: int|
            -1 <= a - x <= 1 && -1 <= b - y <= 1 && #[trigger] is_solid(m, a, b)),
{
    let f = eroded(plane_of(m));
    assert(r.ink(x, y) == opened(m.width as int, m.height as int, plane_of(m))(x, y));
    assert forall|a: int, b: int| #[trigger] f(a, b) == is_solid(m, a, b) by {
        if all9(plane_of(m), a, b) {
            assert forall|p: int, q: int| -1 <= p - a <= 1 && -1 <= q - b <= 1 implies #[trigger] m.ink(p, q) by {
                assert(p == a - 1 || p == a || p == a + 1);
                assert(q == b - 1 || q == b || q == b + 1);
            }
        } else {
            assert(!m.ink(a - 1, b - 1) || !m.ink(a, b - 1) || !m.ink(a + 1, b - 1) || !m.ink(a - 1, b)
                || !m.ink(a, b) || !m.ink(a + 1, b) || !m.ink(a - 1, b + 1) || !m.ink(a, b + 1) || !m.ink(
                a + 1,
                b + 1,
            ));
        }
    }
    if any9(f, x, y) {
        assert(is_solid(m, x - 1, y - 1) || is_solid(m, x, y - 1) || is_solid(m, x + 1, y - 1) || is_solid(
            m,
            x - 1,
            y,
        ) || is_solid(m, x, y) || is_solid(m, x + 1, y) || is_solid(m, x - 1, y + 1) || is_solid(m, x, y + 1)
            || is_solid(m, x + 1, y + 1));
    }
    if exists|a: int, b: int| -1 <= a - x <= 1 && -1 <= b - y <= 1 && #[trigger] is_solid(m, a, b) {
        let (a, b) = choose|a: int, b: int|
            -1 <= a - x <= 1 && -1 <= b - y <= 1 && #[trigger] is_solid(m, a, b);
        assert(f(a, b));
        assert(a == x - 1 || a == x || a == x + 1);
        assert(b == y - 1 || b == y || b == y + 1);
    }
}

/// The three by three block round `(a, b)` is ink.
pub open spec fn is_solid(m: ForegroundMask, a: int, b: int) -> bool {
    forall|p: int, q: int| -1 <= p - a <= 1 && -1 <= q - b <= 1 ==> #[trigger] m.ink(p, q)
}

/// Ink within `n` of a pixel, diagonals included.
pub open spec fn has_ink_near(m: ForegroundMask, x: int, y: int, n: int) -> bool {
    exists|a: int, b: int| -n <= a - x <= n && -n <= b - y <= n && #[trigger] m.ink(a, b)
}

/// Everything within `n` of a pixel lies on the sheet and has ink within `n`.
pub open spec fn is_narrow(m: ForegroundMask, x: int, y: int, n: int) -> bool {
    forall|a: int, b: int|
        -n <= a - x <= n && -n <= b - y <= n ==> #[trigger] has_ink_near(m, a, b, n) && 0 <= a < m.width && 0
            <= b < m.height
}

proof fn dilated_comes_from(m: ForegroundMask, n: nat, x: int, y: int)
    requires
        dilated_by(m.width as int, m.height as int, plane_of(m), n)(x, y),
    ensures
        0 <= x < m.width,
        0 <= y < m.height,
        has_ink_near(m, x, y, n as int),
    decreases n,
{
    let w = m.width as int;
    let h = m.height as int;
    if n == 0 {
        assert(m.ink(x, y));
    } else {
        let f = dilated_by(w, h, plane_of(m), (n - 1) as nat);
        assert(any9(f, x, y));
        let b = if f(x - 1, y - 1) || f(x, y - 1) || f(x + 1, y - 1) {
            y - 1
        } else if f(x - 1, y) || f(x, y) || f(x + 1, y) {
            y
        } else {
            y + 1
        };
        let a = if f(x - 1, b) {
            x - 1
        } else if f(x, b) {
            x
        } else {
            x + 1
        };
        dilated_comes_from(m, (n - 1) as nat, a, b);
        let (p, q) = choose|p: int, q: int|
            -(n - 1) <= p - a <= n - 1 && -(n - 1) <= q - b <= n - 1 && #[trigger] m.ink(p, q);
        assert(m.ink(p, q));
    }
}

proof fn eroded_needs(f: Plane, n: nat, x: int, y: int, a: int, b: int)
    requires
        eroded_by(f, n)(x, y),
        within(a, b, x, y, n as int),
    ensures
        f(a, b),
    decreases n,
{
    if n > 0 {
        let p = if a < x {
            x - 1
        } else if a > x {
            x + 1
        } else {
            x
        };
        let q = if b < y {
            y - 1
        } else if b > y {
            y + 1
        } else {
            y
        };
        assert(all9(eroded_by(f, (n - 1) as nat), x, y));
        assert(eroded_by(f, (n - 1) as nat)(p, q));
        eroded_needs(f, (n - 1) as nat, p, q, a, b);
    }
}

/// Closing with `n` passes inks a pixel exactly where everything within `n` of it
/// lies on the sheet and has ink within `n`.
pub proof fn closing_fills_narrow_gaps(m: ForegroundMask, r: ForegroundMask, n: nat, x: int, y: int)
    requires
        is_result(m, r, closed_by(m.width as int, m.height as int, plane_of(m), n)),
        0 <= x < m.width,
        0 <= y < m.height,
    ensures
        r.bits@[y * r.width + x] == is_narrow(m, x, y, n as int),
{
    let w = m.width as int;
    let h = m.height as int;
    let g = dilated_by(w, h, plane_of(m), n);
    assert(r.ink(x, y) == closed_by(w, h, plane_of(m), n)(x, y));
    if eroded_by(g, n)(x, y) {
        assert forall|a: int, b: int| -n <= a - x <= n && -n <= b - y <= n implies #[trigger] has_ink_near(
            m,
            a,
            b,
            n as int,
        ) && 0 <= a < m.width && 0 <= b < m.height by {
            eroded_needs(g, n, x, y, a, b);
            dilated_comes_from(m, n, a, b);
        }
    }
    if is_narrow(m, x, y, n as int) {
        assert forall|a: int, b: int| within(a, b, x, y, n as int) implies #[trigger] g(a, b) by {
            assert(has_ink_near(m, a, b, n as int));
            let (p, q) = choose|p: int, q: int|
                -n <= p - a <= n && -n <= q - b <= n && #[trigger] m.ink(p, q);
            assert(plane_of(m)(p, q));
            dilated_reach(w, h, plane_of(m), n, p, q, a, b);
        }
        eroded_keeps(g, n, x, y);
    }
}

proof fn same_planes(m: ForegroundMask, r: ForegroundMask, f: Plane)
    requires
        is_result(m, r, f),
    ensures
        plane_of(r) == f,
{
    assert(plane_of(r) =~= f);
}

/// Cleaning is the majority filter, then the opening, then the closing, with at
/// most two passes.
pub proof fn cleaning_is_three_steps(
    m: ForegroundMask,
    filtered: ForegroundMask,
    open: ForegroundMask,
    closed: ForegroundMask,
    r: ForegroundMask,
    n: nat,
    passes: nat,
)
    requires
        is_result(m, filtered, majority(m.width as int, m.height as int, plane_of(m))),
        is_result(filtered, open, opened(m.width as int, m.height as int, plane_of(filtered))),
        is_result(open, closed, closed_by(m.width as int, m.height as int, plane_of(open), passes)),
        is_result(m, r, cleaned(m.width as int, m.height as int, plane_of(m), n)),
        n <= 2 ==> passes == n,
        n > 2 ==> passes == 2,
    ensures
        r.bits@ == closed.bits@,
{
    let w = m.width as int;
    let h = m.height as int;
    same_planes(m, filtered, majority(w, h, plane_of(m)));
    same_planes(filtered, open, opened(w, h, plane_of(filtered)));
    same_planes(open, closed, closed_by(w, h, plane_of(open), passes));
    same_planes(m, r, cleaned(w, h, plane_of(m), n));
    assert forall|k: int| 0 <= k < r.bits@.len() implies r.bits@[k] == closed.bits@[k] by {
        assert(w * h == m.width * m.height);
        assert(w > 0 && h > 0) by (nonlinear_arith)
            requires
                w * h > 0,
                w >= 0,
                h >= 0,
        ;
        mask::lemma_pixel_split(w, h, k);
        assert(r.ink(k % w, k / w) == plane_of(r)(k % w, k / w));
        assert(closed.ink(k % w, k / w) == plane_of(closed)(k % w, k / w));
    }
    assert(r.bits@ =~= closed.bits@);
}

} // verus!
