//! The foreground mask: one bit per sheet pixel, and its run-length form.
use vstd::prelude::*;
use crate::counting;
use crate::geometry::RleRun;

verus! {

/// The most pixels a mask may hold, so that a pixel count always fits an
/// `i32` label.
pub const MAX_PIXELS: u64 = 0x7fff_ffff;

/// Row-major ink bits of a `width` by `height` sheet.
#[derive(Clone, Debug, PartialEq, Eq)]
pub struct ForegroundMask {
    /// Width in pixels.
    pub width: u32,
    /// Height in pixels.
    pub height: u32,
    /// One flag per pixel, row by row.
    pub bits: Vec<bool>,
}

/// The position of pixel `(x, y)` in row-major order.
pub open spec fn pixel_at(w: int, x: int, y: int) -> int {
    y * w + x
}

/// `r` is a maximal stretch of ink in its row.
pub open spec fn is_maximal_run(m: ForegroundMask, r: RleRun) -> bool {
    &&& r.x_start < r.x_end <= m.width
    &&& r.y < m.height
    &&& forall|x: int| r.x_start <= x < r.x_end ==> m.ink(x, r.y as int)
    &&& !m.ink(r.x_start - 1, r.y as int)
    &&& !m.ink(r.x_end as int, r.y as int)
}

/// Run `a` stands before run `b` in row-major order, without touching it.
pub open spec fn run_before(a: RleRun, b: RleRun) -> bool {
    a.y < b.y || (a.y == b.y && a.x_end < b.x_start)
}

/// `r` covers pixel `(x, y)`.
pub open spec fn run_covers(r: RleRun, x: int, y: int) -> bool {
    r.y == y && r.x_start <= x < r.x_end
}

/// `runs` is the run-length form of `m`: its maximal runs in row-major order.
pub open spec fn is_runs_of(m: ForegroundMask, runs: Seq<RleRun>) -> bool {
    &&& forall|i: int| 0 <= i < runs.len() ==> #[trigger] is_maximal_run(m, runs[i])
    &&& forall|i: int, j: int|
        0 <= i < j < runs.len() ==> run_before(#[trigger] runs[i], #[trigger] runs[j])
    &&& forall|x: int, y: int| #[trigger]
        m.ink(x, y) ==> exists|i: int| 0 <= i < runs.len() && run_covers(#[trigger] runs[i], x, y)
}

/// `runs` covers pixel `(x, y)`.
pub open spec fn some_run_covers(runs: Seq<RleRun>, x: int, y: int) -> bool {
    exists|i: int| 0 <= i < runs.len() && run_covers(#[trigger] runs[i], x, y)
}

impl ForegroundMask {
    /// One flag per pixel, and no more pixels than [`MAX_PIXELS`].
    pub open spec fn wf(&self) -> bool {
        &&& self.bits@.len() == self.width * self.height
        &&& self.width * self.height <= MAX_PIXELS
    }

    /// Pixel `(x, y)` is on the sheet and is ink.
    pub open spec fn ink(&self, x: int, y: int) -> bool {
        &&& 0 <= x < self.width
        &&& 0 <= y < self.height
        &&& self.bits@[pixel_at(self.width as int, x, y)]
    }

    /// An all-background mask.
    pub fn new(width: u32, height: u32) -> (r: ForegroundMask)
        requires
            width * height <= MAX_PIXELS,
        ensures
            r.wf(),
            r.width == width,
            r.height == height,
            forall|x: int, y: int| !r.ink(x, y),
            forall|k: int| 0 <= k < r.bits@.len() ==> !#[trigger] r.bits@[k],
    {
        let n: usize = width as usize * height as usize;
        let mut bits: Vec<bool> = Vec::new();
        let mut i: usize = 0;
        while i < n
            invariant
                i <= n,
                n == width * height,
                bits@.len() == i,
                forall|k: int| 0 <= k < i ==> !bits@[k],
            decreases n - i,
        {
            bits.push(false);
            i = i + 1;
        }
        let r = ForegroundMask { width, height, bits };
        assert forall|x: int, y: int| !r.ink(x, y) by {
            if 0 <= x < r.width && 0 <= y < r.height {
                lemma_pixel_in(r.width as int, r.height as int, x, y);
            }
        }
        r
    }

    /// Width in pixels.
    pub fn width(&self) -> (r: u32)
        ensures
            r == self.width,
    {
        self.width
    }

    /// Height in pixels.
    pub fn height(&self) -> (r: u32)
        ensures
            r == self.height,
    {
        self.height
    }

    /// Whether pixel `(x, y)` is ink; a pixel off the sheet is not.
    pub fn get(&self, x: u32, y: u32) -> (r: bool)
        requires
            self.wf(),
        ensures
            r == self.ink(x as int, y as int),
    {
        if x >= self.width || y >= self.height {
            return false;
        }
        proof {
            lemma_pixel_in(self.width as int, self.height as int, x as int, y as int);
        }
        self.bits[y as usize * self.width as usize + x as usize]
    }

    /// Makes pixel `(x, y)` ink or background.
    pub fn set(&mut self, x: u32, y: u32, on: bool)
        requires
            old(self).wf(),
            x < old(self).width,
            y < old(self).height,
        ensures
            final(self).wf(),
            final(self).width == old(self).width,
            final(self).height == old(self).height,
            final(self).bits@ == old(self).bits@.update(
                pixel_at(old(self).width as int, x as int, y as int),
                on,
            ),
            forall|p: int, q: int|
                final(self).ink(p, q) == (if p == x && q == y {
                    on
                } else {
                    old(self).ink(p, q)
                }),
    {
        let ghost m0 = *self;
        proof {
            lemma_pixel_in(self.width as int, self.height as int, x as int, y as int);
        }
        let i: usize = y as usize * self.width as usize + x as usize;
        self.bits.set(i, on);
        proof {
            assert forall|p: int, q: int|
                self.ink(p, q) == (if p == x && q == y {
                    on
                } else {
                    m0.ink(p, q)
                }) by {
                if 0 <= p < self.width && 0 <= q < self.height {
                    lemma_pixel_in(self.width as int, self.height as int, p, q);
                    if pixel_at(self.width as int, p, q) == i {
                        lemma_pixel_inj(self.width as int, p, q, x as int, y as int);
                    }
                }
            }
        }
    }

    /// Makes the pixel at row-major position `i` ink or background.
    pub fn set_index(&mut self, i: usize, on: bool)
        requires
            old(self).wf(),
            i < old(self).bits@.len(),
        ensures
            final(self).wf(),
            final(self).width == old(self).width,
            final(self).height == old(self).height,
            final(self).bits@ == old(self).bits@.update(i as int, on),
    {
        self.bits.set(i, on);
    }

    /// The number of ink pixels.
    pub fn ink_count(&self) -> (r: u64)
        requires
            self.wf(),
        ensures
            r == counting::count_below(|k: int| self.bits@[k], self.bits@.len() as int),
    {
        let mut n: u64 = 0;
        let mut i: usize = 0;
        let ghost f = |k: int| self.bits@[k];
        while i < self.bits.len()
            invariant
                i <= self.bits@.len(),
                f == (|k: int| self.bits@[k]),
                n == counting::count_below(f, i as int),
                n <= i,
            decreases self.bits@.len() - i,
        {
            if self.bits[i] {
                n = n + 1;
            }
            i = i + 1;
        }
        n
    }

    /// The run-length form: maximal ink runs in row-major order.
    pub fn runs(&self) -> (r: Vec<RleRun>)
        requires
            self.wf(),
        ensures
            is_runs_of(*self, r@),
    {
        let mut out: Vec<RleRun> = Vec::new();
        let mut y: u32 = 0;
        while y < self.height
            invariant
                self.wf(),
                y <= self.height,
                forall|i: int| 0 <= i < out@.len() ==> #[trigger] is_maximal_run(*self, out@[i]),
                forall|i: int| 0 <= i < out@.len() ==> (#[trigger] out@[i]).y < y,
                forall|i: int, j: int|
                    0 <= i < j < out@.len() ==> run_before(#[trigger] out@[i], #[trigger] out@[j]),
                forall|p: int, q: int|
                    q < y && #[trigger] self.ink(p, q) ==> some_run_covers(out@, p, q),
            decreases self.height - y,
        {
            let mut x: u32 = 0;
            while x < self.width
                invariant
                    self.wf(),
                    y < self.height,
                    x <= self.width,
                    forall|i: int|
                        0 <= i < out@.len() ==> #[trigger] is_maximal_run(*self, out@[i]),
                    forall|i: int|
                        0 <= i < out@.len() ==> (#[trigger] out@[i]).y < y || (out@[i].y == y
                            && (out@[i].x_end < x || x == self.width)),
                    forall|i: int, j: int|
                        0 <= i < j < out@.len() ==> run_before(
                            #[trigger] out@[i],
                            #[trigger] out@[j],
                        ),
                    forall|p: int, q: int|
                        (q < y || (q == y && p < x)) && #[trigger] self.ink(p, q)
                            ==> some_run_covers(out@, p, q),
                    x < self.width ==> !self.ink(x - 1, y as int),
                decreases self.width - x,
            {
                if !self.get(x, y) {
                    x = x + 1;
                    continue;
                }
                let start: u32 = x;
                while x < self.width && self.get(x, y)
                    invariant
                        self.wf(),
                        y < self.height,
                        start <= x <= self.width,
                        forall|p: int| start <= p < x ==> self.ink(p, y as int),
                    decreases self.width - x,
                {
                    x = x + 1;
                }
                let run = RleRun { y, x_start: start, x_end: x };
                let ghost before = out@;
                out.push(run);
                proof {
                    assert(!self.ink(x as int, y as int));
                    assert(is_maximal_run(*self, run));
                    assert forall|p: int, q: int|
                        (q < y || (q == y && p < x)) && #[trigger] self.ink(p, q) implies
                        some_run_covers(out@, p, q) by {
                        if q < y || p < start {
                            assert(some_run_covers(before, p, q));
                            let i = choose|i: int|
                                0 <= i < before.len() && run_covers(#[trigger] before[i], p, q);
                            assert(run_covers(out@[i], p, q));
                        } else {
                            assert(run_covers(out@[before.len() as int], p, q));
                        }
                    }
                }
                if x < self.width {
                    x = x + 1;
                }
            }
            y = y + 1;
        }
        assert forall|p: int, q: int| #[trigger] self.ink(p, q) implies exists|i: int|
            0 <= i < out@.len() && run_covers(#[trigger] out@[i], p, q) by {
            assert(some_run_covers(out@, p, q));
        }
        out
    }

    /// The mask whose ink is what `runs` cover.
    pub fn from_runs(width: u32, height: u32, runs: &[RleRun]) -> (r: ForegroundMask)
        requires
            width * height <= MAX_PIXELS,
            forall|i: int|
                0 <= i < runs@.len() ==> (#[trigger] runs@[i]).y < height && runs@[i].x_end
                    <= width,
        ensures
            r.wf(),
            r.width == width,
            r.height == height,
            forall|x: int, y: int| #[trigger] r.ink(x, y) == some_run_covers(runs@, x, y),
    {
        let mut m = ForegroundMask::new(width, height);
        let mut i: usize = 0;
        while i < runs.len()
            invariant
                i <= runs@.len(),
                m.wf(),
                m.width == width,
                m.height == height,
                forall|k: int|
                    0 <= k < runs@.len() ==> (#[trigger] runs@[k]).y < height && runs@[k].x_end
                        <= width,
                forall|x: int, y: int| #[trigger]
                    m.ink(x, y) == some_run_covers(runs@.take(i as int), x, y),
            decreases runs@.len() - i,
        {
            let run = runs[i];
            let ghost m0 = m;
            let mut x: u32 = run.x_start;
            while x < run.x_end
                invariant
                    m.wf(),
                    m.width == width,
                    m.height == height,
                    run.y < height,
                    run.x_end <= width,
                    run.x_start <= x,
                    run.x_start <= run.x_end ==> x <= run.x_end,
                    forall|p: int, q: int| #[trigger]
                        m.ink(p, q) == (m0.ink(p, q) || (q == run.y && run.x_start <= p < x && p
                            < run.x_end)),
                decreases run.x_end - x,
            {
                m.set(x, run.y, true);
                x = x + 1;
            }
            proof {
                assert forall|p: int, q: int| #[trigger]
                    m.ink(p, q) == some_run_covers(runs@.take(i + 1), p, q) by {
                    let a = runs@.take(i as int);
                    let b = runs@.take(i + 1);
                    assert(m0.ink(p, q) == some_run_covers(a, p, q));
                    assert(b[i as int] == run);
                    if some_run_covers(a, p, q) {
                        let k = choose|k: int| 0 <= k < a.len() && run_covers(#[trigger] a[k], p, q);
                        assert(run_covers(b[k], p, q));
                    }
                    if run_covers(run, p, q) {
                        assert(run_covers(b[i as int], p, q));
                    }
                    if some_run_covers(b, p, q) {
                        let k = choose|k: int| 0 <= k < b.len() && run_covers(#[trigger] b[k], p, q);
                        if k < i {
                            assert(run_covers(a[k], p, q));
                        }
                    }
                }
            }
            i = i + 1;
        }
        assert(runs@.take(runs@.len() as int) =~= runs@);
        m
    }
}

/// A pixel on the sheet has a position inside the bit vector.
pub proof fn lemma_pixel_in(w: int, h: int, x: int, y: int)
    requires
        0 <= x < w,
        0 <= y < h,
    ensures
        0 <= pixel_at(w, x, y) < w * h,
        0 <= y * w,
        y * w + w <= w * h,
{
    assert(0 <= y * w) by (nonlinear_arith)
        requires
            0 <= y,
            0 <= w,
    ;
    assert(y * w + w <= w * h) by (nonlinear_arith)
        requires
            y + 1 <= h,
            0 <= w,
    ;
}

/// Where row `y` starts and ends in row-major order.
pub proof fn lemma_row(w: int, h: int, y: int)
    requires
        0 <= w,
        0 <= y <= h,
    ensures
        0 <= y * w <= w * h,
        y < h ==> y * w + w <= w * h,
        y == h ==> y * w == w * h,
        (y + 1) * w == y * w + w,
        w * h == h * w,
{
    assert(w * h == h * w) by (nonlinear_arith);
    assert(0 <= y * w <= w * h && (y < h ==> y * w + w <= w * h) && (y == h ==> y * w == w * h)
        && (y + 1) * w == y * w + w) by (nonlinear_arith)
        requires
            0 <= w,
            0 <= y <= h,
    ;
}

/// Distinct pixels have distinct positions.
pub proof fn lemma_pixel_inj(w: int, x: int, y: int, p: int, q: int)
    requires
        0 <= x < w,
        0 <= p < w,
        pixel_at(w, x, y) == pixel_at(w, p, q),
    ensures
        x == p,
        y == q,
{
    assert(y == q) by (nonlinear_arith)
        requires
            0 <= x < w,
            0 <= p < w,
            y * w + x == q * w + p,
    ;
}

/// Row-major positions order pixels by row, then by column.
pub proof fn lemma_pixel_order(w: int, x: int, y: int, p: int, q: int)
    requires
        0 <= x < w,
        0 <= p < w,
    ensures
        pixel_at(w, x, y) < pixel_at(w, p, q) <==> y < q || (y == q && x < p),
{
    if y < q {
        assert(y * w + w <= q * w) by (nonlinear_arith)
            requires
                y + 1 <= q,
                0 < w,
        ;
    }
    if q < y {
        assert(q * w + w <= y * w) by (nonlinear_arith)
            requires
                q + 1 <= y,
                0 < w,
        ;
    }
}

/// The column and row of a row-major position.
pub proof fn lemma_pixel_split(w: int, h: int, k: int)
    requires
        0 < w,
        0 <= k < w * h,
    ensures
        0 <= k % w < w,
        0 <= k / w < h,
        pixel_at(w, k % w, k / w) == k,
{
    assert(0 <= k % w < w && 0 <= k / w < h && (k / w) * w + k % w == k) by (nonlinear_arith)
        requires
            0 < w,
            0 <= k < w * h,
    ;
}

/// Reading a mask back from its own runs gives the same mask.
pub proof fn runs_round_trip(m: ForegroundMask, back: ForegroundMask, runs: Seq<RleRun>)
    requires
        m.wf(),
        back.wf(),
        back.width == m.width,
        back.height == m.height,
        is_runs_of(m, runs),
        forall|x: int, y: int| #[trigger] back.ink(x, y) == some_run_covers(runs, x, y),
    ensures
        back.bits@ == m.bits@,
{
    let w = m.width as int;
    let h = m.height as int;
    assert forall|k: int| 0 <= k < m.bits@.len() implies back.bits@[k] == m.bits@[k] by {
        if w == 0 {
            assert(w * h == 0) by (nonlinear_arith)
                requires
                    w == 0,
            ;
        }
        lemma_pixel_split(w, h, k);
        let x = k % w;
        let y = k / w;
        assert(back.ink(x, y) == some_run_covers(runs, x, y));
        if m.ink(x, y) {
            assert(some_run_covers(runs, x, y));
        }
        if some_run_covers(runs, x, y) {
            let i = choose|i: int| 0 <= i < runs.len() && run_covers(#[trigger] runs[i], x, y);
            assert(is_maximal_run(m, runs[i]));
        }
    }
    assert(back.bits@ =~= m.bits@);
}

/// A mask is its ink.
pub proof fn same_ink_same_mask(a: ForegroundMask, b: ForegroundMask)
    requires
        a.wf(),
        b.wf(),
        a.width == b.width,
        a.height == b.height,
        forall|x: int, y: int| #[trigger] a.ink(x, y) == b.ink(x, y),
    ensures
        a.bits@ == b.bits@,
{
    let w = a.width as int;
    let h = a.height as int;
    assert forall|k: int| 0 <= k < a.bits@.len() implies a.bits@[k] == b.bits@[k] by {
        if w == 0 {
            assert(w * h == 0) by (nonlinear_arith)
                requires
                    w == 0,
            ;
        }
        lemma_pixel_split(w, h, k);
        assert(a.ink(k % w, k / w) == b.ink(k % w, k / w));
    }
    assert(a.bits@ =~= b.bits@);
}

/// A pixel is ink exactly where one run of the mask covers it, and no two runs do.
pub proof fn runs_cover_the_ink_once(m: ForegroundMask, runs: Seq<RleRun>, x: int, y: int)
    requires
        m.wf(),
        is_runs_of(m, runs),
        0 <= x < m.width,
        0 <= y < m.height,
    ensures
        m.bits@[y * m.width + x] == (exists|i: int|
            0 <= i < runs.len() && (#[trigger] runs[i]).y == y && runs[i].x_start <= x < runs[i].x_end),
        forall|i: int, j: int|
            0 <= i < runs.len() && 0 <= j < runs.len() && (#[trigger] runs[i]).y == y && runs[i].x_start <= x
                < runs[i].x_end && (#[trigger] runs[j]).y == y && runs[j].x_start <= x < runs[j].x_end
                ==> i == j,
{
    if m.ink(x, y) {
        let i = choose|i: int| 0 <= i < runs.len() && run_covers(#[trigger] runs[i], x, y);
        assert(runs[i].y == y);
    }
    assert forall|i: int|
        0 <= i < runs.len() && (#[trigger] runs[i]).y == y && runs[i].x_start <= x < runs[i].x_end implies m.ink(
        x,
        y,
    ) by {
        assert(is_maximal_run(m, runs[i]));
    }
    assert forall|i: int, j: int|
        0 <= i < runs.len() && 0 <= j < runs.len() && (#[trigger] runs[i]).y == y && runs[i].x_start <= x
            < runs[i].x_end && (#[trigger] runs[j]).y == y && runs[j].x_start <= x < runs[j].x_end implies i
        == j by {
        if i < j {
            assert(run_before(runs[i], runs[j]));
        }
        if j < i {
            assert(run_before(runs[j], runs[i]));
        }
    }
}

} // verus!
