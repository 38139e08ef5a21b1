//! Connected-component grouping of a foreground mask.
//!
//! Two groupers share one contract: [`RleCclGrouper`] works on the mask's runs
//! and is the production path, [`CclGrouper`] works pixel by pixel and is the
//! readable statement of 8-connectivity. Both return exactly the 8-connected
//! components with enough ink, in one canonical order, so they always agree
//! ([`groupers_agree`]).
use vstd::prelude::*;
use crate::connect;
use crate::counting;
use crate::geometry::{Bbox, IconGroup, RleRun};
use crate::mask;
use crate::mask::ForegroundMask;
use crate::sorting;
use crate::sorting::SortKey;
use crate::union_find;

verus! {

/// The default smallest component, in ink pixels.
pub const DEFAULT_MIN_AREA: u32 = 16;

/// Pixel-domain two-pass union-find grouper.
#[derive(Clone, Copy, Debug)]
pub struct CclGrouper {
    /// Components with fewer ink pixels are dropped.
    pub min_area: u32,
}

impl Default for CclGrouper {
    fn default() -> (r: Self)
        ensures
            r.min_area == 16,
    {
        CclGrouper { min_area: DEFAULT_MIN_AREA }
    }
}

/// Run-domain connected-component grouper: the production path.
#[derive(Clone, Copy, Debug)]
pub struct RleCclGrouper {
    /// Components with fewer ink pixels are dropped.
    pub min_area: u32,
}

impl Default for RleCclGrouper {
    fn default() -> (r: Self)
        ensures
            r.min_area == 16,
    {
        RleCclGrouper { min_area: DEFAULT_MIN_AREA }
    }
}

// ---- what a grouping is --------------------------------------------------

/// Two ink pixels at most one step apart, diagonals included.
pub open spec fn touching(m: ForegroundMask, a: (int, int), b: (int, int)) -> bool {
    &&& m.ink(a.0, a.1)
    &&& m.ink(b.0, b.1)
    &&& -1 <= a.0 - b.0 <= 1
    &&& -1 <= a.1 - b.1 <= 1
}

/// [`touching`] as a relation.
pub open spec fn touch8(m: ForegroundMask) -> spec_fn((int, int), (int, int)) -> bool {
    |a: (int, int), b: (int, int)| touching(m, a, b)
}

/// Two ink pixels of one 8-connected component.
pub open spec fn connected(m: ForegroundMask, a: (int, int), b: (int, int)) -> bool {
    m.ink(a.0, a.1) && connect::reaches(touch8(m), a, b)
}

/// Pixel `a` is scanned before pixel `b`: by row, then by column.
pub open spec fn scan_before(a: (int, int), b: (int, int)) -> bool {
    a.1 < b.1 || (a.1 == b.1 && a.0 < b.0)
}

/// The pixel at row-major position `k`.
pub open spec fn pixel_of(w: int, k: int) -> (int, int) {
    (k % w, k / w)
}

/// Membership of row-major positions in the component of `p`.
pub open spec fn member(m: ForegroundMask, p: (int, int)) -> spec_fn(int) -> bool {
    |k: int| connected(m, p, pixel_of(m.width as int, k))
}

/// The number of pixels in the component of `p`.
pub open spec fn component_area(m: ForegroundMask, p: (int, int)) -> int {
    counting::count_below(member(m, p), m.width * m.height)
}

/// `p` is the pixel of its component that is scanned first.
pub open spec fn is_leader(m: ForegroundMask, p: (int, int)) -> bool {
    &&& m.ink(p.0, p.1)
    &&& forall|q: (int, int)| #[trigger] connected(m, p, q) ==> !scan_before(q, p)
}

/// The component of `p` touches column `x`.
pub open spec fn has_column(m: ForegroundMask, p: (int, int), x: int) -> bool {
    exists|q: (int, int)| #[trigger] connected(m, p, q) && q.0 == x
}

/// The component of `p` touches row `y`.
pub open spec fn has_row(m: ForegroundMask, p: (int, int), y: int) -> bool {
    exists|q: (int, int)| #[trigger] connected(m, p, q) && q.1 == y
}

/// `b` is the tight box around the component of `p`.
pub open spec fn is_tight(m: ForegroundMask, p: (int, int), b: Bbox) -> bool {
    &&& forall|q: (int, int)| #[trigger] connected(m, p, q) ==> b.covers(q.0, q.1)
    &&& has_column(m, p, b.x as int)
    &&& has_column(m, p, b.right() - 1)
    &&& has_row(m, p, b.y as int)
    &&& has_row(m, p, b.bottom() - 1)
}

/// The origin of a group as a pixel.
pub open spec fn origin_of(g: IconGroup) -> (int, int) {
    (g.origin.0 as int, g.origin.1 as int)
}

/// `g` describes the component of its origin, and the origin leads it.
pub open spec fn is_component(m: ForegroundMask, g: IconGroup) -> bool {
    &&& is_leader(m, origin_of(g))
    &&& g.area == component_area(m, origin_of(g))
    &&& is_tight(m, origin_of(g), g.bbox)
}

/// The canonical order: top to bottom, left to right, then by origin.
pub open spec fn group_key(g: IconGroup) -> SortKey {
    (g.bbox.y as u64, g.bbox.x as u64, g.origin.0 as u64, g.origin.1 as u64)
}

/// `out` lists exactly the components of `m` with at least `min_area` pixels,
/// in canonical order.
pub open spec fn is_grouping(m: ForegroundMask, min_area: int, out: Seq<IconGroup>) -> bool {
    &&& forall|i: int|
        0 <= i < out.len() ==> is_component(m, #[trigger] out[i]) && out[i].area >= min_area
    &&& forall|p: (int, int)| #[trigger]
        is_leader(m, p) && component_area(m, p) >= min_area ==> lists_origin(out, p)
    &&& forall|i: int, j: int|
        0 <= i < j < out.len() ==> sorting::key_lt(
            group_key(#[trigger] out[i]),
            group_key(#[trigger] out[j]),
        )
}

/// Some group in `out` has origin `p`.
pub open spec fn lists_origin(out: Seq<IconGroup>, p: (int, int)) -> bool {
    exists|i: int| 0 <= i < out.len() && origin_of(#[trigger] out[i]) == p
}

// ---- connectivity of pixels and runs -------------------------------------

pub proof fn connected_self(m: ForegroundMask, a: (int, int))
    requires
        m.ink(a.0, a.1),
    ensures
        connected(m, a, a),
{
    connect::reaches_self(touch8(m), a);
}

pub proof fn connected_ink(m: ForegroundMask, a: (int, int), b: (int, int))
    requires
        connected(m, a, b),
    ensures
        m.ink(b.0, b.1),
{
    connect::reaches_keeps(touch8(m), |q: (int, int)| m.ink(q.0, q.1), a, b);
}

pub proof fn connected_sym(m: ForegroundMask, a: (int, int), b: (int, int))
    requires
        connected(m, a, b),
    ensures
        connected(m, b, a),
{
    connected_ink(m, a, b);
    assert forall|x: (int, int), y: (int, int)| #[trigger] touch8(m)(x, y) implies touch8(m)(y, x) by {}
    connect::reaches_sym(touch8(m), a, b);
}

pub proof fn connected_trans(m: ForegroundMask, a: (int, int), b: (int, int), c: (int, int))
    requires
        connected(m, a, b),
        connected(m, b, c),
    ensures
        connected(m, a, c),
{
    connect::reaches_trans(touch8(m), a, b, c);
}

/// The first pixel of a run.
pub open spec fn run_start(r: RleRun) -> (int, int) {
    (r.x_start as int, r.y as int)
}

/// Two runs hold a pair of pixels at most one step apart.
pub open spec fn runs_touch(a: RleRun, b: RleRun) -> bool {
    &&& -1 <= a.y - b.y <= 1
    &&& a.x_start <= b.x_end
    &&& b.x_start <= a.x_end
}

/// `r` is a non-empty stretch of ink.
pub open spec fn is_ink_run(m: ForegroundMask, r: RleRun) -> bool {
    &&& r.x_start < r.x_end <= m.width
    &&& r.y < m.height
    &&& forall|x: int| r.x_start <= x < r.x_end ==> m.ink(x, r.y as int)
}

/// Run `a` lies before run `b` in scan order.
pub open spec fn run_precedes(a: RleRun, b: RleRun) -> bool {
    a.y < b.y || (a.y == b.y && a.x_end <= b.x_start)
}

/// `items` cut the ink of `m` into stretches, in scan order.
pub open spec fn covers_ink(m: ForegroundMask, items: Seq<RleRun>) -> bool {
    &&& m.wf()
    &&& forall|i: int| 0 <= i < items.len() ==> is_ink_run(m, #[trigger] items[i])
    &&& forall|i: int, j: int|
        0 <= i < j < items.len() ==> run_precedes(#[trigger] items[i], #[trigger] items[j])
    &&& forall|x: int, y: int| #[trigger] m.ink(x, y) ==> mask::some_run_covers(items, x, y)
}

/// Every item is connected to the root of its set.
pub open spec fn roots_connected(m: ForegroundMask, items: Seq<RleRun>, p: Seq<usize>) -> bool {
    &&& union_find::uf_wf(p)
    &&& forall|i: int|
        0 <= i < p.len() ==> connected(
            m,
            run_start(items[i]),
            run_start(items[#[trigger] union_find::uf_root(p, i)]),
        )
}

/// The first `n` items that touch one another are in one set.
pub open spec fn touching_joined(items: Seq<RleRun>, p: Seq<usize>, n: int) -> bool {
    forall|i: int, j: int|
        0 <= i < j < n && runs_touch(#[trigger] items[i], #[trigger] items[j])
            ==> union_find::uf_root(p, i) == union_find::uf_root(p, j)
}

/// Sets of items are the components of the mask.
pub open spec fn roots_are_components(m: ForegroundMask, items: Seq<RleRun>, p: Seq<usize>) -> bool {
    &&& union_find::uf_wf(p)
    &&& p.len() == items.len()
    &&& forall|i: int, j: int|
        0 <= i < p.len() && 0 <= j < p.len() ==> ((#[trigger] union_find::uf_root(p, i)
            == #[trigger] union_find::uf_root(p, j)) <==> connected(
            m,
            run_start(items[i]),
            run_start(items[j]),
        ))
}

/// Every pixel of a run is connected to its first pixel.
pub proof fn run_connected(m: ForegroundMask, r: RleRun, x: int)
    requires
        is_ink_run(m, r),
        r.x_start <= x < r.x_end,
    ensures
        connected(m, run_start(r), (x, r.y as int)),
    decreases x - r.x_start,
{
    if x == r.x_start {
        connected_self(m, run_start(r));
    } else {
        run_connected(m, r, x - 1);
        assert(touch8(m)((x - 1, r.y as int), (x, r.y as int)));
        connect::reaches_step(touch8(m), run_start(r), (x - 1, r.y as int), (x, r.y as int));
    }
}

/// Touching runs are connected.
proof fn touching_runs_connected(m: ForegroundMask, a: RleRun, b: RleRun)
    requires
        is_ink_run(m, a),
        is_ink_run(m, b),
        runs_touch(a, b),
    ensures
        connected(m, run_start(a), run_start(b)),
{
    let xa = if a.x_start >= b.x_start - 1 {
        a.x_start as int
    } else {
        b.x_start - 1
    };
    let xb = if b.x_start >= a.x_start - 1 {
        b.x_start as int
    } else {
        a.x_start - 1
    };
    run_connected(m, a, xa);
    run_connected(m, b, xb);
    let pa = (xa, a.y as int);
    let pb = (xb, b.y as int);
    assert(touch8(m)(pa, pb));
    connect::reaches_step(touch8(m), run_start(a), pa, pb);
    connected_sym(m, run_start(b), pb);
    connected_trans(m, run_start(a), pb, run_start(b));
}

/// Joining two connected items keeps every item connected to its root.
proof fn join_keeps_roots(
    m: ForegroundMask,
    items: Seq<RleRun>,
    p: Seq<usize>,
    q: Seq<usize>,
    a: int,
    b: int,
)
    requires
        p.len() <= items.len(),
        q.len() == p.len(),
        0 <= a < p.len(),
        0 <= b < p.len(),
        roots_connected(m, items, p),
        union_find::uf_wf(q),
        union_find::uf_joined(p, q, a, b),
        connected(m, run_start(items[a]), run_start(items[b])),
    ensures
        roots_connected(m, items, q),
{
    let ra = union_find::uf_root(p, a);
    let rb = union_find::uf_root(p, b);
    let sa = run_start(items[a]);
    let sb = run_start(items[b]);
    let sra = run_start(items[ra]);
    let srb = run_start(items[rb]);
    assert(connected(m, sa, sra));
    assert(connected(m, sb, srb));
    connected_sym(m, sa, sra);
    connected_sym(m, sb, srb);
    connected_trans(m, sra, sa, sb);
    connected_trans(m, sra, sb, srb);
    connected_sym(m, sra, srb);
    assert forall|i: int| 0 <= i < q.len() implies connected(
        m,
        run_start(items[i]),
        run_start(items[#[trigger] union_find::uf_root(q, i)]),
    ) by {
        let ri = union_find::uf_root(p, i);
        assert(connected(m, run_start(items[i]), run_start(items[ri])));
        if ri == ra {
            connected_trans(m, run_start(items[i]), sra, srb);
        } else if ri == rb {
            connected_trans(m, run_start(items[i]), srb, sra);
        }
    }
}

/// Once every touching pair is joined, sets and components coincide.
proof fn joined_means_components(m: ForegroundMask, items: Seq<RleRun>, p: Seq<usize>)
    requires
        covers_ink(m, items),
        p.len() == items.len(),
        roots_connected(m, items, p),
        touching_joined(items, p, items.len() as int),
    ensures
        roots_are_components(m, items, p),
{
    assert forall|i: int, j: int| 0 <= i < p.len() && 0 <= j < p.len() implies ((
    #[trigger] union_find::uf_root(p, i) == #[trigger] union_find::uf_root(p, j)) <==> connected(
        m,
        run_start(items[i]),
        run_start(items[j]),
    )) by {
        let si = run_start(items[i]);
        let sj = run_start(items[j]);
        let ri = union_find::uf_root(p, i);
        if ri == union_find::uf_root(p, j) {
            let sr = run_start(items[ri]);
            assert(connected(m, si, sr));
            assert(connected(m, sj, sr));
            connected_sym(m, sj, sr);
            connected_trans(m, si, sr, sj);
        }
        if connected(m, si, sj) {
            let keep = |q: (int, int)| in_set(items, p, ri, q);
            assert(is_ink_run(m, items[i]));
            assert(mask::run_covers(items[i], si.0, si.1));
            assert(keep(si));
            assert forall|x: (int, int), y: (int, int)| #[trigger]
                touch8(m)(x, y) && keep(x) implies keep(y) by {
                let t = choose|t: int|
                    0 <= t < items.len() && mask::run_covers(#[trigger] items[t], x.0, x.1)
                        && union_find::uf_root(p, t) == ri;
                assert(mask::some_run_covers(items, y.0, y.1));
                let u = choose|u: int|
                    0 <= u < items.len() && mask::run_covers(#[trigger] items[u], y.0, y.1);
                assert(runs_touch(items[t], items[u]));
                assert(runs_touch(items[u], items[t]));
                assert(union_find::uf_root(p, u) == ri);
            }
            connect::reaches_keeps(touch8(m), keep, si, sj);
            let t = choose|t: int|
                0 <= t < items.len() && mask::run_covers(#[trigger] items[t], sj.0, sj.1)
                    && union_find::uf_root(p, t) == ri;
            assert(is_ink_run(m, items[j]));
            if t < j {
                assert(run_precedes(items[t], items[j]));
            }
            if j < t {
                assert(run_precedes(items[j], items[t]));
            }
            assert(t == j);
        }
    }
}

/// Pixel `q` belongs to an item of the set with root `r`.
spec fn in_set(items: Seq<RleRun>, p: Seq<usize>, r: int, q: (int, int)) -> bool {
    exists|t: int|
        0 <= t < items.len() && mask::run_covers(#[trigger] items[t], q.0, q.1)
            && union_find::uf_root(p, t) == r
}

// ---- aggregation ----------------------------------------------------------

/// The running measurements of one component.
#[derive(Clone, Copy, Debug)]
pub struct CclStats {
    /// The item that leads the component.
    pub root: usize,
    /// Least column.
    pub minx: u32,
    /// Least row.
    pub miny: u32,
    /// Greatest column.
    pub maxx: u32,
    /// Greatest row.
    pub maxy: u32,
    /// Ink pixels.
    pub area: u32,
}

/// The row-major position behind the last of the first `n` items.
spec fn end_pos(m: ForegroundMask, items: Seq<RleRun>, n: int) -> int {
    if n <= 0 {
        0
    } else {
        mask::pixel_at(m.width as int, items[n - 1].x_end as int, items[n - 1].y as int)
    }
}

/// Item `t` attains the bounds of `st` that it is asked for.
spec fn attained(items: Seq<RleRun>, p: Seq<usize>, n: int, st: CclStats) -> bool {
    &&& exists|t: int|
        0 <= t < n && #[trigger] union_find::uf_root(p, t) == st.root && items[t].x_start == st.minx
    &&& exists|t: int|
        0 <= t < n && #[trigger] union_find::uf_root(p, t) == st.root && items[t].x_end - 1
            == st.maxx
    &&& exists|t: int|
        0 <= t < n && #[trigger] union_find::uf_root(p, t) == st.root && items[t].y == st.miny
    &&& exists|t: int|
        0 <= t < n && #[trigger] union_find::uf_root(p, t) == st.root && items[t].y == st.maxy
}

/// `st` measures the items of its set among the first `n`.
spec fn measured(m: ForegroundMask, items: Seq<RleRun>, p: Seq<usize>, n: int, st: CclStats) -> bool {
    &&& st.root < n
    &&& union_find::uf_root(p, st.root as int) == st.root
    &&& st.area == counting::count_below(
        member(m, run_start(items[st.root as int])),
        end_pos(m, items, n),
    )
    &&& forall|t: int|
        0 <= t < n && #[trigger] union_find::uf_root(p, t) == st.root ==> st.minx
            <= items[t].x_start && items[t].x_end - 1 <= st.maxx && st.miny <= items[t].y
            && items[t].y <= st.maxy
    &&& attained(items, p, n, st)
}

/// Positions between items hold no ink, and an item's positions all belong to
/// the component of its root.
proof fn area_step(m: ForegroundMask, items: Seq<RleRun>, p: Seq<usize>, n: int, r: int)
    requires
        covers_ink(m, items),
        roots_are_components(m, items, p),
        0 <= n < items.len(),
        0 <= r < items.len(),
        union_find::uf_root(p, r) == r,
    ensures
        0 <= end_pos(m, items, n) <= end_pos(m, items, n + 1) <= m.width * m.height,
        counting::count_below(member(m, run_start(items[r])), end_pos(m, items, n + 1))
            == counting::count_below(member(m, run_start(items[r])), end_pos(m, items, n)) + (
        if union_find::uf_root(p, n) == r {
            items[n].x_end - items[n].x_start
        } else {
            0
        }),
{
    let w = m.width as int;
    let h = m.height as int;
    let f = member(m, run_start(items[r]));
    let it = items[n];
    assert(is_ink_run(m, it));
    let a = end_pos(m, items, n);
    let b = mask::pixel_at(w, it.x_start as int, it.y as int);
    let c = end_pos(m, items, n + 1);
    mask::lemma_pixel_in(w, h, it.x_start as int, it.y as int);
    mask::lemma_pixel_in(w, h, it.x_end - 1, it.y as int);
    assert(c == b + (it.x_end - it.x_start));
    if n > 0 {
        let prev = items[n - 1];
        assert(is_ink_run(m, prev));
        assert(run_precedes(prev, it));
        mask::lemma_pixel_in(w, h, prev.x_end - 1, prev.y as int);
        mask::lemma_pixel_order(w, prev.x_end - 1, prev.y as int, it.x_start as int, it.y as int);
        assert(a <= b);
    }
    assert forall|k: int| a <= k < b implies #[trigger] f(k) == false by {
        mask::lemma_pixel_split(w, h, k);
        let q = pixel_of(w, k);
        if connected(m, run_start(items[r]), q) {
            connected_ink(m, run_start(items[r]), q);
            assert(mask::some_run_covers(items, q.0, q.1));
            let t = choose|t: int|
                0 <= t < items.len() && mask::run_covers(#[trigger] items[t], q.0, q.1);
            assert(is_ink_run(m, items[t]));
            if t >= n {
                if t > n {
                    assert(run_precedes(items[n], items[t]));
                }
                mask::lemma_pixel_order(w, q.0, q.1, it.x_start as int, it.y as int);
            } else {
                let prev = items[n - 1];
                if t < n - 1 {
                    assert(run_precedes(items[t], prev));
                }
                mask::lemma_pixel_order(w, prev.x_end - 1, prev.y as int, q.0, q.1);
            }
        }
    }
    counting::count_span(f, a, b, false);
    let v = union_find::uf_root(p, n) == r;
    assert forall|k: int| b <= k < c implies #[trigger] f(k) == v by {
        let x = it.x_start + (k - b);
        let q = (x, it.y as int);
        assert(k == mask::pixel_at(w, x, it.y as int));
        mask::lemma_pixel_in(w, h, x, it.y as int);
        mask::lemma_pixel_split(w, h, k);
        mask::lemma_pixel_inj(w, k % w, k / w, x, it.y as int);
        run_connected(m, it, x);
        let sr = run_start(items[r]);
        assert((union_find::uf_root(p, r) == union_find::uf_root(p, n)) <==> connected(
            m,
            sr,
            run_start(it),
        ));
        if v {
            connected_trans(m, sr, run_start(it), q);
        }
        if connected(m, sr, q) {
            connected_sym(m, run_start(it), q);
            connected_trans(m, sr, q, run_start(it));
        }
    }
    counting::count_span(f, b, c, v);
}

/// After the last item the positions up to the end of the sheet hold no ink.
proof fn area_end(m: ForegroundMask, items: Seq<RleRun>, r: int)
    requires
        covers_ink(m, items),
        0 <= r < items.len(),
    ensures
        counting::count_below(
            member(m, run_start(items[r])),
            end_pos(m, items, items.len() as int),
        ) == component_area(m, run_start(items[r])),
{
    let w = m.width as int;
    let h = m.height as int;
    let n = items.len() as int;
    let f = member(m, run_start(items[r]));
    let last = items[n - 1];
    assert(is_ink_run(m, last));
    mask::lemma_pixel_in(w, h, last.x_end - 1, last.y as int);
    assert forall|k: int| end_pos(m, items, n) <= k < w * h implies #[trigger] f(k) == false by {
        mask::lemma_pixel_split(w, h, k);
        let q = pixel_of(w, k);
        if connected(m, run_start(items[r]), q) {
            connected_ink(m, run_start(items[r]), q);
            assert(mask::some_run_covers(items, q.0, q.1));
            let t = choose|t: int|
                0 <= t < items.len() && mask::run_covers(#[trigger] items[t], q.0, q.1);
            assert(is_ink_run(m, items[t]));
            if t < n - 1 {
                assert(run_precedes(items[t], last));
            }
            mask::lemma_pixel_order(w, last.x_end - 1, last.y as int, q.0, q.1);
        }
    }
    counting::count_span(f, end_pos(m, items, n), w * h, false);
}

/// Sorts groups into canonical order.
pub fn sort_groups(groups: &Vec<IconGroup>) -> (r: Vec<IconGroup>)
    ensures
        is_sorted_listing(groups@, r@),
{
    let mut keys: Vec<SortKey> = Vec::new();
    let mut i: usize = 0;
    while i < groups.len()
        invariant
            i <= groups@.len(),
            keys@.len() == i,
            forall|k: int| 0 <= k < i ==> #[trigger] keys@[k] == group_key(groups@[k]),
        decreases groups@.len() - i,
    {
        let g = groups[i];
        keys.push((g.bbox.y as u64, g.bbox.x as u64, g.origin.0 as u64, g.origin.1 as u64));
        i = i + 1;
    }
    let order = sorting::sort_order(&keys);
    let mut out: Vec<IconGroup> = Vec::new();
    let mut i: usize = 0;
    while i < order.len()
        invariant
            i <= order@.len(),
            out@.len() == i,
            keys@.len() == groups@.len(),
            sorting::is_order(keys@, order@, 0, keys@.len() as int),
            forall|k: int| 0 <= k < i ==> #[trigger] out@[k] == groups@[order@[k] as int],
        decreases order@.len() - i,
    {
        out.push(groups[order[i]]);
        i = i + 1;
    }
    assert(keys@ =~= keys_of(groups@));
    assert(out@ =~= picked(groups@, order@));
    out
}

/// The canonical keys of a list of groups.
pub open spec fn keys_of(groups: Seq<IconGroup>) -> Seq<SortKey> {
    Seq::new(groups.len(), |i: int| group_key(groups[i]))
}

/// The groups at the listed positions.
pub open spec fn picked(groups: Seq<IconGroup>, order: Seq<usize>) -> Seq<IconGroup> {
    Seq::new(order.len(), |i: int| groups[order[i] as int])
}

/// `out` is `groups` in canonical order, equal keys in their original order.
pub open spec fn is_sorted_listing(groups: Seq<IconGroup>, out: Seq<IconGroup>) -> bool {
    exists|order: Seq<usize>| #[trigger]
        sorting::is_order(keys_of(groups), order, 0, groups.len() as int) && out == picked(
            groups,
            order,
        )
}

/// Measures each component, drops the small ones and sorts the rest.
fn aggregate(m: &ForegroundMask, items: &Vec<RleRun>, parent: &mut Vec<usize>, min_area: u32) -> (r: Vec<IconGroup>)
    requires
        covers_ink(*m, items@),
        roots_are_components(*m, items@, old(parent)@),
    ensures
        is_grouping(*m, min_area as int, r@),
{
    let n: usize = items.len();
    let ghost p0 = parent@;
    let mut stats: Vec<CclStats> = Vec::new();
    let mut slot: Vec<usize> = Vec::new();
    let mut i: usize = 0;
    while i < n
        invariant
            i <= n,
            n == items@.len(),
            covers_ink(*m, items@),
            roots_are_components(*m, items@, p0),
            parent@.len() == n,
            union_find::uf_wf(parent@),
            forall|j: int|
                0 <= j < n ==> #[trigger] union_find::uf_root(parent@, j) == union_find::uf_root(
                    p0,
                    j,
                ),
            slot@.len() == i,
            forall|j: int|
                0 <= j < stats@.len() ==> measured(*m, items@, p0, i as int, #[trigger] stats@[j]),
            forall|j: int|
                0 <= j < stats@.len() ==> slot@[(#[trigger] stats@[j]).root as int] == j,
            forall|t: int|
                0 <= t < i ==> slot@[#[trigger] union_find::uf_root(p0, t)] < stats@.len()
                    && stats@[slot@[union_find::uf_root(p0, t)] as int].root == union_find::uf_root(
                    p0,
                    t,
                ),
        decreases n - i,
    {
        let run = items[i];
        assert(is_ink_run(*m, items@[i as int]));
        let root: usize = union_find::uf_find(parent, i);
        let last: u32 = run.x_end - 1;
        let ghost stats0 = stats@;
        let ghost slot0 = slot@;
        proof {
            union_find::lemma_root_bounds(p0, i as int);
            assert(root == union_find::uf_root(p0, i as int));
        }
        if root == i {
            let k: usize = stats.len();
            slot.push(k);
            let st = CclStats {
                root,
                minx: run.x_start,
                miny: run.y,
                maxx: last,
                maxy: run.y,
                area: run.x_end - run.x_start,
            };
            stats.push(st);
            proof {
                area_step(*m, items@, p0, i as int, root as int);
                // Nothing before the leading item belongs to its component.
                new_component_area(*m, items@, p0, i as int);
                assert(union_find::uf_root(p0, i as int) == st.root);
                assert(measured(*m, items@, p0, i + 1, st)) by {
                    assert forall|t: int|
                        0 <= t < i + 1 && #[trigger] union_find::uf_root(p0, t)
                            == st.root implies t == i by {
                        union_find::lemma_root_bounds(p0, t);
                    }
                }
            }
        } else {
            slot.push(0);
            proof {
                union_find::lemma_root_bounds(p0, root as int);
                assert(slot0[union_find::uf_root(p0, root as int)] < stats0.len());
            }
            let k: usize = slot[root];
            let st0 = stats[k];
            proof {
                area_step(*m, items@, p0, i as int, root as int);
                counting::count_bounds(
                    member(*m, run_start(items@[root as int])),
                    end_pos(*m, items@, i + 1),
                );
            }
            let st = CclStats {
                root,
                minx: if run.x_start < st0.minx {
                    run.x_start
                } else {
                    st0.minx
                },
                miny: if run.y < st0.miny {
                    run.y
                } else {
                    st0.miny
                },
                maxx: if last > st0.maxx {
                    last
                } else {
                    st0.maxx
                },
                maxy: if run.y > st0.maxy {
                    run.y
                } else {
                    st0.maxy
                },
                area: st0.area + (run.x_end - run.x_start),
            };
            stats.set(k, st);
            proof {
                assert(measured(*m, items@, p0, i as int, stats0[k as int]));
                widened(*m, items@, p0, i as int, st0, st);
            }
        }
        proof {
            assert forall|j: int| 0 <= j < stats@.len() implies measured(
                *m,
                items@,
                p0,
                i + 1,
                #[trigger] stats@[j],
            ) by {
                if stats@[j].root != root {
                    assert(stats@[j] == stats0[j]);
                    assert(measured(*m, items@, p0, i as int, stats0[j]));
                    unchanged(*m, items@, p0, i as int, stats0[j]);
                }
            }
            assert forall|t: int| 0 <= t < i + 1 implies slot@[#[trigger] union_find::uf_root(
                p0,
                t,
            )] < stats@.len() && stats@[slot@[union_find::uf_root(p0, t)] as int].root
                == union_find::uf_root(p0, t) by {
                union_find::lemma_root_bounds(p0, t);
                if t < i {
                    let rt = union_find::uf_root(p0, t);
                    assert(slot0[rt] < stats0.len());
                    assert(slot@[rt] == slot0[rt]);
                } else if root < i {
                    assert(union_find::uf_root(p0, root as int) == root);
                    assert(slot@[root as int] == slot0[root as int]);
                }
            }
        }
        i = i + 1;
    }
    let mut groups: Vec<IconGroup> = Vec::new();
    let ghost mut from: Seq<int> = Seq::empty();
    let mut j: usize = 0;
    while j < stats.len()
        invariant
            j <= stats@.len(),
            n == items@.len(),
            covers_ink(*m, items@),
            roots_are_components(*m, items@, p0),
            forall|k: int|
                0 <= k < stats@.len() ==> measured(*m, items@, p0, n as int, #[trigger] stats@[k]),
            forall|k: int, l: int|
                0 <= k < l < stats@.len() ==> (#[trigger] stats@[k]).root != (
                #[trigger] stats@[l]).root,
            from.len() == groups@.len(),
            forall|k: int|
                0 <= k < groups@.len() ==> 0 <= #[trigger] from[k] < j && origin_of(groups@[k])
                    == run_start(items@[stats@[from[k]].root as int]),
            forall|k: int, l: int| 0 <= k < l < from.len() ==> #[trigger] from[k] < #[trigger] from[l],
            forall|k: int|
                0 <= k < groups@.len() ==> is_component(*m, #[trigger] groups@[k])
                    && groups@[k].area >= min_area,
            forall|k: int|
                0 <= k < j && (#[trigger] stats@[k]).area >= min_area ==> lists_origin(
                    groups@,
                    run_start(items@[stats@[k].root as int]),
                ),
        decreases stats@.len() - j,
    {
        let s = stats[j];
        let ghost groups0 = groups@;
        if s.area >= min_area {
            let o = items[s.root];
            proof {
                assert(measured(*m, items@, p0, n as int, stats@[j as int]));
                measured_component(*m, items@, p0, s);
            }
            let g = IconGroup {
                bbox: Bbox {
                    x: s.minx,
                    y: s.miny,
                    w: s.maxx - s.minx + 1,
                    h: s.maxy - s.miny + 1,
                },
                area: s.area,
                origin: (o.x_start, o.y),
            };
            groups.push(g);
            proof {
                from = from.push(j as int);
                assert(origin_of(groups@[groups0.len() as int]) == run_start(
                    items@[s.root as int],
                ));
            }
        }
        proof {
            assert forall|k: int|
                0 <= k < j + 1 && (#[trigger] stats@[k]).area >= min_area implies lists_origin(
                groups@,
                run_start(items@[stats@[k].root as int]),
            ) by {
                if k < j {
                    let l = choose|l: int|
                        0 <= l < groups0.len() && origin_of(#[trigger] groups0[l]) == run_start(
                            items@[stats@[k].root as int],
                        );
                    assert(groups@[l] == groups0[l]);
                }
            }
        }
        j = j + 1;
    }
    let out = sort_groups(&groups);
    let ghost total: usize = groups.len();
    proof {
        assert forall|p: (int, int)| #[trigger]
            is_leader(*m, p) && component_area(*m, p) >= min_area implies lists_origin(
            groups@,
            p,
        ) by {
            leader_has_item(*m, items@, p0, p);
            let t = choose|t: int|
                0 <= t < items@.len() && run_start(#[trigger] items@[t]) == p
                    && union_find::uf_root(p0, t) == t;
            let k = slot@[union_find::uf_root(p0, t)] as int;
            assert(measured(*m, items@, p0, n as int, stats@[k]));
            area_end(*m, items@, t);
        }
        assert forall|k: int, l: int| 0 <= k < l < groups@.len() implies origin_of(
            #[trigger] groups@[k],
        ) != origin_of(#[trigger] groups@[l]) by {
            let rk = stats@[from[k]].root as int;
            let rl = stats@[from[l]].root as int;
            assert(measured(*m, items@, p0, n as int, stats@[from[k]]));
            assert(measured(*m, items@, p0, n as int, stats@[from[l]]));
            if rk < rl {
                assert(run_precedes(items@[rk], items@[rl]));
                assert(is_ink_run(*m, items@[rk]));
            } else {
                assert(run_precedes(items@[rl], items@[rk]));
                assert(is_ink_run(*m, items@[rl]));
            }
        }
        sorted_grouping(*m, min_area as int, groups@, out@);
    }
    out
}

/// Before the leading item of a set no position belongs to its component.
proof fn new_component_area(m: ForegroundMask, items: Seq<RleRun>, p: Seq<usize>, i: int)
    requires
        covers_ink(m, items),
        roots_are_components(m, items, p),
        0 <= i < items.len(),
        union_find::uf_root(p, i) == i,
    ensures
        counting::count_below(member(m, run_start(items[i])), end_pos(m, items, i)) == 0,
{
    prefix_area(m, items, p, i, i);
}

proof fn prefix_area(m: ForegroundMask, items: Seq<RleRun>, p: Seq<usize>, i: int, n: int)
    requires
        covers_ink(m, items),
        roots_are_components(m, items, p),
        0 <= n <= i < items.len(),
        union_find::uf_root(p, i) == i,
    ensures
        counting::count_below(member(m, run_start(items[i])), end_pos(m, items, n)) == 0,
    decreases n,
{
    if n > 0 {
        prefix_area(m, items, p, i, n - 1);
        area_step(m, items, p, n - 1, i);
        union_find::lemma_root_bounds(p, n - 1);
    }
}

/// One more item outside the set leaves the measurements as they are.
proof fn unchanged(m: ForegroundMask, items: Seq<RleRun>, p: Seq<usize>, i: int, st: CclStats)
    requires
        covers_ink(m, items),
        roots_are_components(m, items, p),
        0 <= i < items.len(),
        measured(m, items, p, i, st),
        union_find::uf_root(p, i) != st.root,
    ensures
        measured(m, items, p, i + 1, st),
{
    area_step(m, items, p, i, st.root as int);
    attained_stays(items, p, i, st);
}

proof fn attained_stays(items: Seq<RleRun>, p: Seq<usize>, i: int, st: CclStats)
    requires
        attained(items, p, i, st),
    ensures
        attained(items, p, i + 1, st),
{
    let a = choose|t: int|
        0 <= t < i && #[trigger] union_find::uf_root(p, t) == st.root && items[t].x_start
            == st.minx;
    let b = choose|t: int|
        0 <= t < i && #[trigger] union_find::uf_root(p, t) == st.root && items[t].x_end - 1
            == st.maxx;
    let c = choose|t: int|
        0 <= t < i && #[trigger] union_find::uf_root(p, t) == st.root && items[t].y == st.miny;
    let d = choose|t: int|
        0 <= t < i && #[trigger] union_find::uf_root(p, t) == st.root && items[t].y == st.maxy;
    assert(0 <= a < i + 1 && 0 <= b < i + 1 && 0 <= c < i + 1 && 0 <= d < i + 1);
}

/// One more item of the set widens the measurements to cover it.
proof fn widened(
    m: ForegroundMask,
    items: Seq<RleRun>,
    p: Seq<usize>,
    i: int,
    st0: CclStats,
    st: CclStats,
)
    requires
        covers_ink(m, items),
        roots_are_components(m, items, p),
        0 <= i < items.len(),
        measured(m, items, p, i, st0),
        union_find::uf_root(p, i) == st0.root,
        st.root == st0.root,
        st.minx == (if items[i].x_start < st0.minx {
            items[i].x_start
        } else {
            st0.minx
        }),
        st.maxx == (if items[i].x_end - 1 > st0.maxx {
            items[i].x_end - 1
        } else {
            st0.maxx as int
        }),
        st.miny == (if items[i].y < st0.miny {
            items[i].y
        } else {
            st0.miny
        }),
        st.maxy == (if items[i].y > st0.maxy {
            items[i].y
        } else {
            st0.maxy
        }),
        st.area == st0.area + (items[i].x_end - items[i].x_start),
    ensures
        measured(m, items, p, i + 1, st),
{
    area_step(m, items, p, i, st.root as int);
    attained_stays(items, p, i, st0);
    assert(union_find::uf_root(p, i) == st.root);
    assert(exists|t: int|
        0 <= t < i + 1 && #[trigger] union_find::uf_root(p, t) == st.root && items[t].x_start
            == st.minx) by {
        let a = choose|t: int|
            0 <= t < i + 1 && #[trigger] union_find::uf_root(p, t) == st0.root && items[t].x_start
                == st0.minx;
        let b = if st.minx == st0.minx {
            a
        } else {
            i
        };
        assert(union_find::uf_root(p, b) == st.root && items[b].x_start == st.minx);
    }
    assert(exists|t: int|
        0 <= t < i + 1 && #[trigger] union_find::uf_root(p, t) == st.root && items[t].x_end - 1
            == st.maxx) by {
        let a = choose|t: int|
            0 <= t < i + 1 && #[trigger] union_find::uf_root(p, t) == st0.root && items[t].x_end - 1
                == st0.maxx;
        let b = if st.maxx == st0.maxx {
            a
        } else {
            i
        };
        assert(union_find::uf_root(p, b) == st.root && items[b].x_end - 1 == st.maxx);
    }
    assert(exists|t: int|
        0 <= t < i + 1 && #[trigger] union_find::uf_root(p, t) == st.root && items[t].y
            == st.miny) by {
        let a = choose|t: int|
            0 <= t < i + 1 && #[trigger] union_find::uf_root(p, t) == st0.root && items[t].y
                == st0.miny;
        let b = if st.miny == st0.miny {
            a
        } else {
            i
        };
        assert(union_find::uf_root(p, b) == st.root && items[b].y == st.miny);
    }
    assert(exists|t: int|
        0 <= t < i + 1 && #[trigger] union_find::uf_root(p, t) == st.root && items[t].y
            == st.maxy) by {
        let a = choose|t: int|
            0 <= t < i + 1 && #[trigger] union_find::uf_root(p, t) == st0.root && items[t].y
                == st0.maxy;
        let b = if st.maxy == st0.maxy {
            a
        } else {
            i
        };
        assert(union_find::uf_root(p, b) == st.root && items[b].y == st.maxy);
    }
}

/// The component of a root holds exactly the pixels of the items of its set.
proof fn set_pixels(m: ForegroundMask, items: Seq<RleRun>, p: Seq<usize>, r: int, q: (int, int))
    requires
        covers_ink(m, items),
        roots_are_components(m, items, p),
        0 <= r < items.len(),
        union_find::uf_root(p, r) == r,
        connected(m, run_start(items[r]), q),
    ensures
        exists|t: int|
            0 <= t < items.len() && mask::run_covers(#[trigger] items[t], q.0, q.1)
                && union_find::uf_root(p, t) == r,
{
    connected_ink(m, run_start(items[r]), q);
    assert(mask::some_run_covers(items, q.0, q.1));
    let t = choose|t: int| 0 <= t < items.len() && mask::run_covers(#[trigger] items[t], q.0, q.1);
    assert(is_ink_run(m, items[t]));
    run_connected(m, items[t], q.0);
    connected_sym(m, run_start(items[t]), q);
    connected_trans(m, run_start(items[r]), q, run_start(items[t]));
    assert(union_find::uf_root(p, r) == union_find::uf_root(p, t));
}

/// Full measurements describe the component of the leading item.
proof fn measured_component(m: ForegroundMask, items: Seq<RleRun>, p: Seq<usize>, s: CclStats)
    requires
        covers_ink(m, items),
        roots_are_components(m, items, p),
        measured(m, items, p, items.len() as int, s),
    ensures
        s.minx <= s.maxx < m.width,
        s.miny <= s.maxy < m.height,
        is_component(
            m,
            IconGroup {
                bbox: Bbox {
                    x: s.minx,
                    y: s.miny,
                    w: (s.maxx - s.minx + 1) as u32,
                    h: (s.maxy - s.miny + 1) as u32,
                },
                area: s.area,
                origin: (items[s.root as int].x_start, items[s.root as int].y),
            },
        ),
{
    let r = s.root as int;
    let o = run_start(items[r]);
    let n = items.len() as int;
    assert(is_ink_run(m, items[r]));
    let ta = choose|t: int|
        0 <= t < n && #[trigger] union_find::uf_root(p, t) == s.root && items[t].x_start == s.minx;
    let tb = choose|t: int|
        0 <= t < n && #[trigger] union_find::uf_root(p, t) == s.root && items[t].x_end - 1
            == s.maxx;
    let tc = choose|t: int|
        0 <= t < n && #[trigger] union_find::uf_root(p, t) == s.root && items[t].y == s.miny;
    let td = choose|t: int|
        0 <= t < n && #[trigger] union_find::uf_root(p, t) == s.root && items[t].y == s.maxy;
    assert(is_ink_run(m, items[ta]));
    assert(is_ink_run(m, items[tb]));
    assert(is_ink_run(m, items[tc]));
    assert(is_ink_run(m, items[td]));
    let b = Bbox {
        x: s.minx,
        y: s.miny,
        w: (s.maxx - s.minx + 1) as u32,
        h: (s.maxy - s.miny + 1) as u32,
    };
    area_end(m, items, r);
    assert(connected(m, o, run_start(items[ta])));
    assert(connected(m, o, run_start(items[tb])));
    assert(connected(m, o, run_start(items[tc])));
    assert(connected(m, o, run_start(items[td])));
    let last = (items[tb].x_end - 1, items[tb].y as int);
    run_connected(m, items[tb], items[tb].x_end - 1);
    connected_trans(m, o, run_start(items[tb]), last);
    assert(has_column(m, o, b.x as int));
    assert(has_column(m, o, b.right() - 1));
    assert(has_row(m, o, b.y as int));
    assert(has_row(m, o, b.bottom() - 1));
    assert forall|q: (int, int)| #[trigger] connected(m, o, q) implies b.covers(q.0, q.1)
        && !scan_before(q, o) by {
        set_pixels(m, items, p, r, q);
        let t = choose|t: int|
            0 <= t < items.len() && mask::run_covers(#[trigger] items[t], q.0, q.1)
                && union_find::uf_root(p, t) == r;
        union_find::lemma_root_bounds(p, t);
        if r < t {
            assert(run_precedes(items[r], items[t]));
        }
    }
}

/// The leader of a component is the first pixel of the leading item.
proof fn leader_has_item(m: ForegroundMask, items: Seq<RleRun>, p: Seq<usize>, q: (int, int))
    requires
        covers_ink(m, items),
        roots_are_components(m, items, p),
        is_leader(m, q),
    ensures
        exists|t: int|
            0 <= t < items.len() && run_start(#[trigger] items[t]) == q && union_find::uf_root(p, t)
                == t,
{
    assert(mask::some_run_covers(items, q.0, q.1));
    let t = choose|t: int| 0 <= t < items.len() && mask::run_covers(#[trigger] items[t], q.0, q.1);
    assert(is_ink_run(m, items[t]));
    run_connected(m, items[t], q.0);
    connected_sym(m, run_start(items[t]), q);
    assert(run_start(items[t]) == q);
    let r = union_find::uf_root(p, t);
    union_find::lemma_root_bounds(p, t);
    assert(union_find::uf_root(p, r) == union_find::uf_root(p, t));
    assert(connected(m, run_start(items[t]), run_start(items[r])));
    if r < t {
        assert(run_precedes(items[r], items[t]));
        assert(is_ink_run(m, items[r]));
    }
}

/// Sorting a complete listing of distinct components gives the grouping.
proof fn sorted_grouping(m: ForegroundMask, min_area: int, groups: Seq<IconGroup>, out: Seq<IconGroup>)
    requires
        is_sorted_listing(groups, out),
        groups.len() <= usize::MAX,
        forall|i: int|
            0 <= i < groups.len() ==> is_component(m, #[trigger] groups[i]) && groups[i].area
                >= min_area,
        forall|p: (int, int)| #[trigger]
            is_leader(m, p) && component_area(m, p) >= min_area ==> lists_origin(groups, p),
        forall|k: int, l: int|
            0 <= k < l < groups.len() ==> origin_of(#[trigger] groups[k]) != origin_of(
                #[trigger] groups[l],
            ),
    ensures
        is_grouping(m, min_area, out),
{
    let order = choose|order: Seq<usize>| #[trigger]
        sorting::is_order(keys_of(groups), order, 0, groups.len() as int) && out == picked(
            groups,
            order,
        );
    let keys = keys_of(groups);
    assert forall|i: int, j: int| 0 <= i < j < out.len() implies sorting::key_lt(
        group_key(#[trigger] out[i]),
        group_key(#[trigger] out[j]),
    ) by {
        let a = order[i] as int;
        let b = order[j] as int;
        assert(sorting::pos_lt(keys, a, b));
        assert(keys[a] == group_key(groups[a]));
        assert(keys[b] == group_key(groups[b]));
        if keys[a] == keys[b] {
            assert(origin_of(groups[a]) == origin_of(groups[b]));
        }
    }
    assert forall|p: (int, int)| #[trigger]
        is_leader(m, p) && component_area(m, p) >= min_area implies lists_origin(out, p) by {
        assert(lists_origin(groups, p));
        let k = choose|k: int| 0 <= k < groups.len() && origin_of(#[trigger] groups[k]) == p;
        assert(order.contains(k as usize));
        let i = choose|i: int| 0 <= i < order.len() && order[i] == k as usize;
        assert(origin_of(out[i]) == p);
    }
}

// ---- the pixel grouper ----------------------------------------------------

/// Pixel `(x, y)` is ink and its item, if it comes before item `i`, is joined
/// with item `i`.
spec fn neighbour_done(
    m: ForegroundMask,
    items: Seq<RleRun>,
    p: Seq<usize>,
    i: int,
    x: int,
    y: int,
) -> bool {
    forall|j: int|
        0 <= j < i && run_start(#[trigger] items[j]) == (x, y) ==> union_find::uf_root(p, j)
            == union_find::uf_root(p, i)
}

/// Every item so far is one ink pixel, in scan order.
spec fn unit_items(m: ForegroundMask, items: Seq<RleRun>) -> bool {
    &&& m.wf()
    &&& forall|i: int|
        0 <= i < items.len() ==> is_ink_run(m, #[trigger] items[i]) && items[i].x_end
            == items[i].x_start + 1
    &&& forall|i: int, j: int|
        0 <= i < j < items.len() ==> run_precedes(#[trigger] items[i], #[trigger] items[j])
}

/// `ids` names the item of every ink pixel among the first `n` positions.
spec fn ids_name(m: ForegroundMask, items: Seq<RleRun>, ids: Seq<usize>, n: int) -> bool {
    forall|k: int|
        0 <= k < n && #[trigger] m.bits@[k] ==> ids[k] < items.len() && run_start(
            items[ids[k] as int],
        ) == pixel_of(m.width as int, k)
}

/// Joins item `i` with the item of pixel `(x, y)` when that pixel is ink.
fn join_neighbour(
    m: &ForegroundMask,
    items: &Vec<RleRun>,
    ids: &Vec<usize>,
    parent: &mut Vec<usize>,
    i: usize,
    x: u32,
    y: u32,
)
    requires
        unit_items(*m, items@),
        i + 1 == items@.len(),
        old(parent)@.len() == items@.len(),
        roots_connected(*m, items@, old(parent)@),
        x < m.width,
        y < m.height,
        mask::pixel_at(m.width as int, x as int, y as int) < ids@.len() <= m.bits@.len(),
        ids_name(*m, items@, ids@, ids@.len() as int),
        -1 <= x - items@[i as int].x_start <= 1,
        -1 <= y - items@[i as int].y <= 1,
    ensures
        final(parent)@.len() == old(parent)@.len(),
        roots_connected(*m, items@, final(parent)@),
        neighbour_done(*m, items@, final(parent)@, i as int, x as int, y as int),
        forall|a: int, b: int|
            0 <= a < items@.len() && 0 <= b < items@.len() && union_find::uf_root(
                old(parent)@,
                a,
            ) == union_find::uf_root(old(parent)@, b) ==> #[trigger] union_find::uf_root(
                final(parent)@,
                a,
            ) == #[trigger] union_find::uf_root(final(parent)@, b),
{
    let ghost p0 = parent@;
    proof {
        mask::lemma_pixel_in(m.width as int, m.height as int, x as int, y as int);
        mask::lemma_pixel_split(
            m.width as int,
            m.height as int,
            mask::pixel_at(m.width as int, x as int, y as int),
        );
        mask::lemma_pixel_inj(
            m.width as int,
            mask::pixel_at(m.width as int, x as int, y as int) % (m.width as int),
            mask::pixel_at(m.width as int, x as int, y as int) / (m.width as int),
            x as int,
            y as int,
        );
    }
    if m.get(x, y) {
        let k: usize = y as usize * m.width as usize + x as usize;
        let j: usize = ids[k];
        proof {
            assert(m.bits@[k as int]);
            assert(run_start(items@[j as int]) == (x as int, y as int));
            assert(is_ink_run(*m, items@[i as int]));
            assert(is_ink_run(*m, items@[j as int]));
            touching_runs_connected(*m, items@[i as int], items@[j as int]);
        }
        union_find::uf_union(parent, i, j);
        proof {
            join_keeps_roots(*m, items@, p0, parent@, i as int, j as int);
            assert forall|t: int|
                0 <= t < i && run_start(#[trigger] items@[t]) == (x as int, y as int) implies
                union_find::uf_root(parent@, t) == union_find::uf_root(parent@, i as int) by {
                if t < j {
                    assert(run_precedes(items@[t], items@[j as int]));
                }
                if j < t {
                    assert(run_precedes(items@[j as int], items@[t]));
                }
                assert(t == j);
                assert(union_find::uf_root(parent@, j as int) == union_find::uf_root(
                    parent@,
                    i as int,
                ));
            }
        }
    } else {
        assert forall|t: int|
            0 <= t < i && run_start(#[trigger] items@[t]) == (x as int, y as int) implies false by {
            assert(is_ink_run(*m, items@[t]));
            assert(m.ink(x as int, y as int));
        }
    }
}

impl CclGrouper {
    /// The 8-connected components of `mask` with at least `min_area` pixels, in
    /// canonical order, found pixel by pixel.
    pub fn group_all(&self, mask: &ForegroundMask) -> (r: Vec<IconGroup>)
        requires
            mask.wf(),
        ensures
            is_grouping(*mask, self.min_area as int, r@),
    {
        let w: u32 = mask.width;
        let h: u32 = mask.height;
        let mut items: Vec<RleRun> = Vec::new();
        let mut ids: Vec<usize> = Vec::new();
        let mut parent: Vec<usize> = Vec::new();
        let mut y: u32 = 0;
        proof {
            mask::lemma_row(w as int, h as int, 0);
        }
        while y < h
            invariant
                y <= h,
                w == mask.width,
                h == mask.height,
                unit_items(*mask, items@),
                ids@.len() == y * w,
                y < h ==> 0 <= y * w && y * w + w <= w * h,
                y == h ==> y * w == w * h,
                ids_name(*mask, items@, ids@, ids@.len() as int),
                parent@.len() == items@.len(),
                items@.len() <= ids@.len(),
                roots_connected(*mask, items@, parent@),
                touching_joined(items@, parent@, items@.len() as int),
                forall|i: int| 0 <= i < items@.len() ==> (#[trigger] items@[i]).y < y,
                forall|a: int, b: int|
                    b < y && #[trigger] mask.ink(a, b) ==> mask::some_run_covers(items@, a, b),
            decreases h - y,
        {
            let mut x: u32 = 0;
            while x < w
                invariant
                    y < h,
                    x <= w,
                    w == mask.width,
                    h == mask.height,
                    0 <= y * w && y * w + w <= w * h,
                    unit_items(*mask, items@),
                    ids@.len() == y * w + x,
                    ids_name(*mask, items@, ids@, ids@.len() as int),
                    parent@.len() == items@.len(),
                    items@.len() <= ids@.len(),
                    roots_connected(*mask, items@, parent@),
                    touching_joined(items@, parent@, items@.len() as int),
                    forall|i: int|
                        0 <= i < items@.len() ==> (#[trigger] items@[i]).y < y || (items@[i].y == y
                            && items@[i].x_end <= x),
                    forall|a: int, b: int|
                        (b < y || (b == y && a < x)) && #[trigger] mask.ink(a, b)
                            ==> mask::some_run_covers(items@, a, b),
                decreases w - x,
            {
                proof {
                    mask::lemma_pixel_in(w as int, h as int, x as int, y as int);
                    mask::lemma_pixel_split(
                        w as int,
                        h as int,
                        mask::pixel_at(w as int, x as int, y as int),
                    );
                    mask::lemma_pixel_inj(
                        w as int,
                        mask::pixel_at(w as int, x as int, y as int) % (w as int),
                        mask::pixel_at(w as int, x as int, y as int) / (w as int),
                        x as int,
                        y as int,
                    );
                }
                if !mask.get(x, y) {
                    ids.push(0);
                    x = x + 1;
                    continue;
                }
                let i: usize = items.len();
                let ghost items0 = items@;
                let ghost ids0 = ids@;
                let ghost p0 = parent@;
                let unit = RleRun { y, x_start: x, x_end: x + 1 };
                items.push(unit);
                ids.push(i);
                parent.push(i);
                proof {
                    assert(mask.ink(x as int, y as int));
                    assert(is_ink_run(*mask, unit));
                    fresh_root(*mask, items0, p0, unit);
                    assert(items@ =~= items0.push(unit));
                    assert(parent@ =~= p0.push(i));
                    assert(ids_name(*mask, items@, ids@, ids@.len() as int));
                    assert forall|a: int, b: int|
                        (b < y || (b == y && a < x + 1)) && #[trigger] mask.ink(a, b) implies
                        mask::some_run_covers(items@, a, b) by {
                        if b < y || a < x {
                            assert(mask::some_run_covers(items0, a, b));
                            let t = choose|t: int|
                                0 <= t < items0.len() && mask::run_covers(
                                    #[trigger] items0[t],
                                    a,
                                    b,
                                );
                            assert(mask::run_covers(items@[t], a, b));
                        } else {
                            assert(mask::run_covers(items@[i as int], a, b));
                        }
                    }
                }
                let ghost p1 = parent@;
                if y > 0 && x > 0 {
                    proof {
                        mask::lemma_pixel_order(w as int, x - 1, y - 1, x as int, y as int);
                    }
                    join_neighbour(mask, &items, &ids, &mut parent, i, x - 1, y - 1);
                }
                let ghost p2 = parent@;
                if y > 0 {
                    proof {
                        mask::lemma_pixel_order(w as int, x as int, y - 1, x as int, y as int);
                    }
                    join_neighbour(mask, &items, &ids, &mut parent, i, x, y - 1);
                }
                let ghost p3 = parent@;
                if y > 0 && x + 1 < w {
                    proof {
                        mask::lemma_pixel_order(w as int, x + 1, y - 1, x as int, y as int);
                    }
                    join_neighbour(mask, &items, &ids, &mut parent, i, x + 1, y - 1);
                }
                let ghost p4 = parent@;
                if x > 0 {
                    join_neighbour(mask, &items, &ids, &mut parent, i, x - 1, y);
                }
                proof {
                    assert forall|a: int, b: int|
                        0 <= a < b < items@.len() && runs_touch(
                            #[trigger] items@[a],
                            #[trigger] items@[b],
                        ) implies union_find::uf_root(parent@, a) == union_find::uf_root(
                        parent@,
                        b,
                    ) by {
                        if b < i {
                            assert(runs_touch(items0[a], items0[b]));
                            assert(union_find::uf_root(p0, a) == union_find::uf_root(p0, b));
                            assert(union_find::uf_root(p1, a) == union_find::uf_root(p1, b));
                            assert(union_find::uf_root(p2, a) == union_find::uf_root(p2, b));
                            assert(union_find::uf_root(p3, a) == union_find::uf_root(p3, b));
                            assert(union_find::uf_root(p4, a) == union_find::uf_root(p4, b));
                        } else {
                            let s = run_start(items@[a]);
                            assert(is_ink_run(*mask, items@[a]));
                            assert(items@[a].y < y || (items@[a].y == y && items@[a].x_end <= x));
                            if s == (x - 1, y - 1) {
                                assert(union_find::uf_root(p2, a) == union_find::uf_root(p2, b));
                                assert(union_find::uf_root(p3, a) == union_find::uf_root(p3, b));
                                assert(union_find::uf_root(p4, a) == union_find::uf_root(p4, b));
                            } else if s == (x as int, y - 1) {
                                assert(union_find::uf_root(p3, a) == union_find::uf_root(p3, b));
                                assert(union_find::uf_root(p4, a) == union_find::uf_root(p4, b));
                            } else if s == (x + 1, y - 1) {
                                assert(union_find::uf_root(p4, a) == union_find::uf_root(p4, b));
                            } else {
                                assert(s == (x - 1, y as int));
                            }
                        }
                    }
                }
                x = x + 1;
            }
            proof {
                mask::lemma_row(w as int, h as int, y as int);
                mask::lemma_row(w as int, h as int, y + 1);
            }
            y = y + 1;
        }
        proof {
            assert forall|a: int, b: int| #[trigger] mask.ink(a, b) implies mask::some_run_covers(
                items@,
                a,
                b,
            ) by {}
            joined_means_components(*mask, items@, parent@);
        }
        aggregate(mask, &items, &mut parent, self.min_area)
    }
}

/// A new item starts as a set of its own and leaves the others alone.
proof fn fresh_root(m: ForegroundMask, items: Seq<RleRun>, p: Seq<usize>, r: RleRun)
    requires
        p.len() == items.len(),
        items.len() < usize::MAX,
        roots_connected(m, items, p),
        is_ink_run(m, r),
    ensures
        roots_connected(m, items.push(r), p.push(items.len() as usize)),
        forall|i: int|
            0 <= i < p.len() ==> #[trigger] union_find::uf_root(p.push(items.len() as usize), i)
                == union_find::uf_root(p, i),
        union_find::uf_root(p.push(items.len() as usize), items.len() as int) == items.len(),
{
    let q = p.push(items.len() as usize);
    let its = items.push(r);
    assert forall|i: int| 0 <= i < p.len() implies #[trigger] union_find::uf_root(q, i)
        == union_find::uf_root(p, i) by {
        push_root(p, items.len() as usize, i);
    }
    connected_self(m, run_start(r));
    assert forall|i: int| 0 <= i < q.len() implies connected(
        m,
        run_start(its[i]),
        run_start(its[#[trigger] union_find::uf_root(q, i)]),
    ) by {
        if i < p.len() {
            union_find::lemma_root_bounds(p, i);
            assert(connected(
                m,
                run_start(items[i]),
                run_start(items[union_find::uf_root(p, i)]),
            ));
        }
    }
}

proof fn push_root(p: Seq<usize>, v: usize, i: int)
    requires
        union_find::uf_wf(p),
        0 <= i < p.len(),
    ensures
        union_find::uf_root(p.push(v), i) == union_find::uf_root(p, i),
    decreases i,
{
    if p[i] < i {
        push_root(p, v, p[i] as int);
    }
}

// ---- the run grouper ------------------------------------------------------

/// Joins every run of row `cs..ce` with the runs of the row above, `ps..pe`,
/// that it touches.
fn join_rows(
    m: &ForegroundMask,
    runs: &Vec<RleRun>,
    parent: &mut Vec<usize>,
    ps: usize,
    pe: usize,
    ce: usize,
)
    requires
        mask::is_runs_of(*m, runs@),
        covers_ink(*m, runs@),
        ps <= pe <= ce <= runs@.len(),
        old(parent)@.len() == runs@.len(),
        roots_connected(*m, runs@, old(parent)@),
        touching_joined(runs@, old(parent)@, pe as int),
        forall|i: int| ps <= i < pe ==> (#[trigger] runs@[i]).y == runs@[ps as int].y,
        forall|i: int|
            pe <= i < ce ==> (#[trigger] runs@[i]).y == runs@[pe as int].y,
        pe < ce ==> ps < pe && runs@[pe as int].y == runs@[ps as int].y + 1,
        forall|i: int| 0 <= i < ps ==> (#[trigger] runs@[i]).y < runs@[ps as int].y,
    ensures
        final(parent)@.len() == runs@.len(),
        roots_connected(*m, runs@, final(parent)@),
        touching_joined(runs@, final(parent)@, ce as int),
{
    let mut k: usize = ps;
    let mut c: usize = pe;
    while c < ce
        invariant
            mask::is_runs_of(*m, runs@),
            covers_ink(*m, runs@),
            ps <= pe <= c <= ce <= runs@.len(),
            ps <= k <= pe,
            parent@.len() == runs@.len(),
            roots_connected(*m, runs@, parent@),
            touching_joined(runs@, parent@, c as int),
            forall|i: int| ps <= i < pe ==> (#[trigger] runs@[i]).y == runs@[ps as int].y,
            forall|i: int| pe <= i < ce ==> (#[trigger] runs@[i]).y == runs@[pe as int].y,
            pe < ce ==> ps < pe && runs@[pe as int].y == runs@[ps as int].y + 1,
            forall|i: int| 0 <= i < ps ==> (#[trigger] runs@[i]).y < runs@[ps as int].y,
            forall|i: int|
                ps <= i < k && c < ce ==> (#[trigger] runs@[i]).x_end < runs@[c as int].x_start,
        decreases ce - c,
    {
        let cur = runs[c];
        while k < pe && runs[k].x_end < cur.x_start
            invariant
                ps <= k <= pe <= runs@.len(),
                forall|i: int| ps <= i < k ==> (#[trigger] runs@[i]).x_end < cur.x_start,
            decreases pe - k,
        {
            k = k + 1;
        }
        let mut p: usize = k;
        let ghost par0 = parent@;
        while p < pe && runs[p].x_start <= cur.x_end
            invariant
                mask::is_runs_of(*m, runs@),
                covers_ink(*m, runs@),
                ps <= k <= p <= pe <= c < ce <= runs@.len(),
                cur == runs@[c as int],
                cur.y == runs@[ps as int].y + 1,
                forall|i: int| ps <= i < pe ==> (#[trigger] runs@[i]).y == runs@[ps as int].y,
                k < pe ==> runs@[k as int].x_end >= cur.x_start,
                parent@.len() == runs@.len(),
                roots_connected(*m, runs@, parent@),
                touching_joined(runs@, parent@, c as int),
                forall|i: int|
                    k <= i < p ==> #[trigger] union_find::uf_root(parent@, i)
                        == union_find::uf_root(parent@, c as int),
            decreases pe - p,
        {
            let ghost par1 = parent@;
            proof {
                if k < p {
                    assert(mask::run_before(runs@[k as int], runs@[p as int]));
                    assert(mask::is_maximal_run(*m, runs@[p as int]));
                }
                assert(runs_touch(runs@[c as int], runs@[p as int]));
                assert(is_ink_run(*m, runs@[c as int]));
                assert(is_ink_run(*m, runs@[p as int]));
                touching_runs_connected(*m, runs@[c as int], runs@[p as int]);
            }
            union_find::uf_union(parent, c, p);
            proof {
                join_keeps_roots(*m, runs@, par1, parent@, c as int, p as int);
                assert forall|i: int, j: int|
                    0 <= i < j < c && runs_touch(
                        #[trigger] runs@[i],
                        #[trigger] runs@[j],
                    ) implies union_find::uf_root(parent@, i) == union_find::uf_root(
                    parent@,
                    j,
                ) by {
                    assert(union_find::uf_root(par1, i) == union_find::uf_root(par1, j));
                }
                assert forall|i: int| k <= i < p + 1 implies #[trigger] union_find::uf_root(
                    parent@,
                    i,
                ) == union_find::uf_root(parent@, c as int) by {
                    if i < p {
                        assert(union_find::uf_root(par1, i) == union_find::uf_root(
                            par1,
                            c as int,
                        ));
                    }
                    assert(union_find::uf_root(parent@, p as int) == union_find::uf_root(
                        parent@,
                        c as int,
                    ));
                }
            }
            p = p + 1;
        }
        proof {
            assert forall|i: int, j: int|
                0 <= i < j < c + 1 && runs_touch(
                    #[trigger] runs@[i],
                    #[trigger] runs@[j],
                ) implies union_find::uf_root(parent@, i) == union_find::uf_root(parent@, j) by {
                if j == c {
                    assert(mask::run_before(runs@[i], runs@[j]));
                    if i >= pe {
                        assert(runs@[i].y == runs@[j].y);
                    } else if i >= ps {
                        if i < k {
                            assert(runs@[i].x_end < cur.x_start);
                        }
                        if i >= p {
                            if i > p {
                                assert(mask::run_before(runs@[p as int], runs@[i]));
                                assert(mask::is_maximal_run(*m, runs@[p as int]));
                            }
                        }
                        assert(k <= i < p);
                    } else {
                        assert(runs@[i].y < runs@[ps as int].y);
                    }
                }
            }
            if c + 1 < ce {
                assert(mask::run_before(runs@[c as int], runs@[c + 1]));
                assert(mask::is_maximal_run(*m, runs@[c as int]));
            }
        }
        c = c + 1;
    }
}

impl RleCclGrouper {
    /// The 8-connected components of `mask` with at least `min_area` pixels, in
    /// canonical order, found run by run.
    pub fn group_all(&self, mask: &ForegroundMask) -> (r: Vec<IconGroup>)
        requires
            mask.wf(),
        ensures
            is_grouping(*mask, self.min_area as int, r@),
    {
        let runs: Vec<RleRun> = mask.runs();
        let n: usize = runs.len();
        let mut parent: Vec<usize> = Vec::new();
        let mut i: usize = 0;
        while i < n
            invariant
                i <= n,
                parent@.len() == i,
                forall|k: int| 0 <= k < i ==> parent@[k] == k,
            decreases n - i,
        {
            parent.push(i);
            i = i + 1;
        }
        proof {
            runs_cover_ink(*mask, runs@);
            assert forall|k: int| 0 <= k < parent@.len() implies connected(
                *mask,
                run_start(runs@[k]),
                run_start(runs@[#[trigger] union_find::uf_root(parent@, k)]),
            ) by {
                assert(is_ink_run(*mask, runs@[k]));
                connected_self(*mask, run_start(runs@[k]));
            }
        }
        // The rows are contiguous slices of `runs`; join each with the one above.
        let mut ps: usize = 0;
        let mut cs: usize = 0;
        while cs < n
            invariant
                n == runs@.len(),
                ps <= cs <= n,
                cs > 0 ==> ps < cs,
                mask::is_runs_of(*mask, runs@),
                covers_ink(*mask, runs@),
                parent@.len() == n,
                roots_connected(*mask, runs@, parent@),
                touching_joined(runs@, parent@, cs as int),
                forall|k: int| ps <= k < cs ==> (#[trigger] runs@[k]).y == runs@[ps as int].y,
                forall|k: int| 0 <= k < ps ==> (#[trigger] runs@[k]).y < runs@[ps as int].y,
                forall|k: int|
                    cs <= k < n && cs > 0 ==> (#[trigger] runs@[k]).y > runs@[ps as int].y,
            decreases n - cs,
        {
            let y: u32 = runs[cs].y;
            let mut ce: usize = cs + 1;
            while ce < n && runs[ce].y == y
                invariant
                    n == runs@.len(),
                    cs < ce <= n,
                    y == runs@[cs as int].y,
                    forall|k: int| cs <= k < ce ==> (#[trigger] runs@[k]).y == y,
                decreases n - ce,
            {
                ce = ce + 1;
            }
            if cs > 0 && runs[ps].y + 1 == y {
                join_rows(mask, &runs, &mut parent, ps, cs, ce);
            } else {
                assert forall|a: int, b: int|
                    0 <= a < b < ce && runs_touch(
                        #[trigger] runs@[a],
                        #[trigger] runs@[b],
                    ) implies union_find::uf_root(parent@, a) == union_find::uf_root(
                    parent@,
                    b,
                ) by {
                    assert(mask::run_before(runs@[a], runs@[b]));
                    if b >= cs {
                        assert(runs@[b].y == y);
                        if a < cs {
                            assert(runs@[a].y <= runs@[ps as int].y);
                        }
                    }
                }
            }
            proof {
                assert forall|k: int| ce <= k < n implies (#[trigger] runs@[k]).y
                    > runs@[cs as int].y by {
                    assert(mask::run_before(runs@[cs as int], runs@[ce as int]));
                    if k > ce {
                        assert(mask::run_before(runs@[ce as int], runs@[k]));
                    }
                }
            }
            ps = cs;
            cs = ce;
        }
        proof {
            joined_means_components(*mask, runs@, parent@);
        }
        aggregate(mask, &runs, &mut parent, self.min_area)
    }
}

/// Maximal runs cut the ink into stretches.
proof fn runs_cover_ink(m: ForegroundMask, runs: Seq<RleRun>)
    requires
        m.wf(),
        mask::is_runs_of(m, runs),
    ensures
        covers_ink(m, runs),
{
    assert forall|i: int| 0 <= i < runs.len() implies is_ink_run(m, #[trigger] runs[i]) by {
        assert(mask::is_maximal_run(m, runs[i]));
    }
    assert forall|i: int, j: int| 0 <= i < j < runs.len() implies run_precedes(
        #[trigger] runs[i],
        #[trigger] runs[j],
    ) by {
        assert(mask::run_before(runs[i], runs[j]));
    }
}

// ---- the two groupers agree ----------------------------------------------

/// Two tight boxes around one component are the same box.
proof fn tight_unique(m: ForegroundMask, p: (int, int), a: Bbox, b: Bbox)
    requires
        is_tight(m, p, a),
        is_tight(m, p, b),
    ensures
        a == b,
{
    let a1 = choose|q: (int, int)| #[trigger] connected(m, p, q) && q.0 == a.x;
    let a2 = choose|q: (int, int)| #[trigger] connected(m, p, q) && q.0 == a.right() - 1;
    let a3 = choose|q: (int, int)| #[trigger] connected(m, p, q) && q.1 == a.y;
    let a4 = choose|q: (int, int)| #[trigger] connected(m, p, q) && q.1 == a.bottom() - 1;
    let b1 = choose|q: (int, int)| #[trigger] connected(m, p, q) && q.0 == b.x;
    let b2 = choose|q: (int, int)| #[trigger] connected(m, p, q) && q.0 == b.right() - 1;
    let b3 = choose|q: (int, int)| #[trigger] connected(m, p, q) && q.1 == b.y;
    let b4 = choose|q: (int, int)| #[trigger] connected(m, p, q) && q.1 == b.bottom() - 1;
    assert(b.covers(a1.0, a1.1) && b.covers(a2.0, a2.1) && b.covers(a3.0, a3.1) && b.covers(
        a4.0,
        a4.1,
    ));
    assert(a.covers(b1.0, b1.1) && a.covers(b2.0, b2.1) && a.covers(b3.0, b3.1) && a.covers(
        b4.0,
        b4.1,
    ));
}

/// The origin fixes the whole group.
pub proof fn component_unique(m: ForegroundMask, a: IconGroup, b: IconGroup)
    requires
        is_component(m, a),
        is_component(m, b),
        origin_of(a) == origin_of(b),
    ensures
        a == b,
{
    tight_unique(m, origin_of(a), a.bbox, b.bbox);
}

proof fn listed_again(m: ForegroundMask, min_area: int, a: Seq<IconGroup>, b: Seq<IconGroup>, i: int) -> (j: int)
    requires
        is_grouping(m, min_area, a),
        is_grouping(m, min_area, b),
        0 <= i < a.len(),
    ensures
        0 <= j < b.len(),
        b[j] == a[i],
{
    assert(is_component(m, a[i]));
    assert(lists_origin(b, origin_of(a[i])));
    let j = choose|j: int| 0 <= j < b.len() && origin_of(#[trigger] b[j]) == origin_of(a[i]);
    component_unique(m, a[i], b[j]);
    j
}

proof fn grouping_prefix(m: ForegroundMask, min_area: int, a: Seq<IconGroup>, b: Seq<IconGroup>, n: int)
    requires
        is_grouping(m, min_area, a),
        is_grouping(m, min_area, b),
        0 <= n <= a.len(),
    ensures
        n <= b.len(),
        forall|i: int| 0 <= i < n ==> a[i] == b[i],
    decreases n,
{
    if n > 0 {
        let k = n - 1;
        grouping_prefix(m, min_area, a, b, k);
        let j = listed_again(m, min_area, a, b, k);
        if j < k {
            assert(a[j] == b[j]);
            assert(sorting::key_lt(group_key(a[j]), group_key(a[k])));
        }
        let l = listed_again(m, min_area, b, a, k);
        if l < k {
            assert(a[l] == b[l]);
            assert(sorting::key_lt(group_key(b[l]), group_key(b[k])));
        }
        if j > k && l > k {
            assert(sorting::key_lt(group_key(b[k]), group_key(b[j])));
            assert(sorting::key_lt(group_key(a[k]), group_key(a[l])));
        }
        assert(a[k] == b[k]);
    }
}

/// A mask has one grouping: whichever grouper computes it, with the same
/// smallest area, the result is the same list of groups.
pub proof fn groupers_agree(m: ForegroundMask, min_area: int, a: Seq<IconGroup>, b: Seq<IconGroup>)
    requires
        is_grouping(m, min_area, a),
        is_grouping(m, min_area, b),
    ensures
        a == b,
{
    grouping_prefix(m, min_area, a, b, a.len() as int);
    grouping_prefix(m, min_area, b, a, b.len() as int);
    assert(a =~= b);
}

/// A list has one canonical order.
pub proof fn listing_is_unique(groups: Seq<IconGroup>, a: Seq<IconGroup>, b: Seq<IconGroup>)
    requires
        is_sorted_listing(groups, a),
        is_sorted_listing(groups, b),
    ensures
        a == b,
{
    let s = choose|order: Seq<usize>| #[trigger]
        sorting::is_order(keys_of(groups), order, 0, groups.len() as int) && a == picked(groups, order);
    let t = choose|order: Seq<usize>| #[trigger]
        sorting::is_order(keys_of(groups), order, 0, groups.len() as int) && b == picked(groups, order);
    sorting::order_is_unique(keys_of(groups), s, t, 0, groups.len() as int);
}

/// Groups in canonical scan order: none comes before an earlier one.
pub open spec fn in_scan_order(gs: Seq<IconGroup>) -> bool {
    forall|i: int, j: int|
        0 <= i < j < gs.len() ==> !sorting::key_lt(
            group_key(#[trigger] gs[j]),
            group_key(#[trigger] gs[i]),
        )
}

/// A sorted listing is in scan order.
pub proof fn listing_is_in_scan_order(groups: Seq<IconGroup>, out: Seq<IconGroup>)
    requires
        is_sorted_listing(groups, out),
    ensures
        in_scan_order(out),
{
    let order = choose|order: Seq<usize>| #[trigger]
        sorting::is_order(keys_of(groups), order, 0, groups.len() as int) && out == picked(groups, order);
    assert forall|i: int, j: int| 0 <= i < j < out.len() implies !sorting::key_lt(
        group_key(#[trigger] out[j]),
        group_key(#[trigger] out[i]),
    ) by {
        assert(sorting::pos_lt(keys_of(groups), order[i] as int, order[j] as int));
    }
}

/// A grouping is in scan order.
pub proof fn grouping_is_in_scan_order(m: ForegroundMask, min_area: int, out: Seq<IconGroup>)
    requires
        is_grouping(m, min_area, out),
    ensures
        in_scan_order(out),
{
    assert forall|i: int, j: int| 0 <= i < j < out.len() implies !sorting::key_lt(
        group_key(#[trigger] out[j]),
        group_key(#[trigger] out[i]),
    ) by {
        assert(sorting::key_lt(group_key(out[i]), group_key(out[j])));
    }
}

// ---- what a group is ----------------------------------------------------------------

/// A group is a set of ink pixels that holds its origin and, with a pixel, every
/// ink pixel that touches it, corners included. Its area is the size of that set,
/// its box the least round it, and its origin the first of it row by row. The set
/// is returned.
pub proof fn group_is_a_touching_set(m: ForegroundMask, min_area: int, out: Seq<IconGroup>, i: int) -> (c: spec_fn(
    int,
    int,
) -> bool)
    requires
        m.wf(),
        is_grouping(m, min_area, out),
        0 <= i < out.len(),
    ensures
        c(out[i].origin.0 as int, out[i].origin.1 as int),
        forall|x: int, y: int| #[trigger]
            c(x, y) ==> m.ink(x, y) && out[i].bbox.x <= x < out[i].bbox.x + out[i].bbox.w && out[i].bbox.y <= y
                < out[i].bbox.y + out[i].bbox.h && (out[i].origin.1 < y || (out[i].origin.1 == y
                && out[i].origin.0 <= x)),
        forall|x: int, y: int, a: int, b: int|
            #![trigger c(x, y), m.ink(a, b)]
            c(x, y) && m.ink(a, b) && -1 <= a - x <= 1 && -1 <= b - y <= 1 ==> c(a, b),
        exists|y: int| #[trigger] c(out[i].bbox.x as int, y),
        exists|y: int| #[trigger] c(out[i].bbox.x + out[i].bbox.w - 1, y),
        exists|x: int| #[trigger] c(x, out[i].bbox.y as int),
        exists|x: int| #[trigger] c(x, out[i].bbox.y + out[i].bbox.h - 1),
        out[i].area == counting::count_below(
            |k: int| c(k % (m.width as int), k / (m.width as int)),
            m.width * m.height,
        ),
        out[i].area >= min_area,
{
    let g = out[i];
    let p = origin_of(g);
    let c = |x: int, y: int| connected(m, p, (x, y));
    assert(is_component(m, g));
    connected_self(m, p);
    assert forall|x: int, y: int| #[trigger] c(x, y) implies m.ink(x, y) && g.bbox.x <= x < g.bbox.x + g.bbox.w
        && g.bbox.y <= y < g.bbox.y + g.bbox.h && (g.origin.1 < y || (g.origin.1 == y && g.origin.0 <= x)) by {
        assert(connected(m, p, (x, y)));
        connected_ink(m, p, (x, y));
        assert(!scan_before((x, y), p));
    }
    assert forall|x: int, y: int, a: int, b: int|
        #![trigger c(x, y), m.ink(a, b)]
        c(x, y) && m.ink(a, b) && -1 <= a - x <= 1 && -1 <= b - y <= 1 implies c(a, b) by {
        connected_ink(m, p, (x, y));
        assert(touch8(m)((x, y), (a, b)));
        connect::reaches_step(touch8(m), p, (x, y), (a, b));
    }
    assert forall|x: int| has_column(m, p, x) implies exists|y: int| #[trigger] c(x, y) by {
        let q = choose|q: (int, int)| #[trigger] connected(m, p, q) && q.0 == x;
        assert(c(x, q.1));
    }
    assert forall|y: int| has_row(m, p, y) implies exists|x: int| #[trigger] c(x, y) by {
        let q = choose|q: (int, int)| #[trigger] connected(m, p, q) && q.1 == y;
        assert(c(q.0, y));
    }
    assert(has_column(m, p, g.bbox.x as int) && has_column(m, p, g.bbox.right() - 1));
    assert(has_row(m, p, g.bbox.y as int) && has_row(m, p, g.bbox.bottom() - 1));
    let f = |k: int| c(k % (m.width as int), k / (m.width as int));
    counting::count_ext(f, member(m, p), m.width * m.height);
    c
}

/// A group holds no more than it has to: every set that holds its origin and, with
/// a pixel, every ink pixel that touches it, holds all of the group.
pub proof fn group_is_the_least_touching_set(
    m: ForegroundMask,
    min_area: int,
    out: Seq<IconGroup>,
    i: int,
    s: spec_fn(int, int) -> bool,
)
    requires
        m.wf(),
        is_grouping(m, min_area, out),
        0 <= i < out.len(),
        s(out[i].origin.0 as int, out[i].origin.1 as int),
        forall|x: int, y: int, a: int, b: int|
            #![trigger s(x, y), m.ink(a, b)]
            s(x, y) && m.ink(a, b) && -1 <= a - x <= 1 && -1 <= b - y <= 1 ==> s(a, b),
    ensures
        out[i].area <= counting::count_below(
            |k: int| s(k % (m.width as int), k / (m.width as int)),
            m.width * m.height,
        ),
        exists|y: int| #[trigger] s(out[i].bbox.x as int, y),
        exists|y: int| #[trigger] s(out[i].bbox.x + out[i].bbox.w - 1, y),
        exists|x: int| #[trigger] s(x, out[i].bbox.y as int),
        exists|x: int| #[trigger] s(x, out[i].bbox.y + out[i].bbox.h - 1),
{
    let g = out[i];
    let p = origin_of(g);
    assert(is_component(m, g));
    let keep = |q: (int, int)| s(q.0, q.1);
    assert forall|q: (int, int)| #[trigger] connected(m, p, q) implies s(q.0, q.1) by {
        assert forall|a: (int, int), b: (int, int)| #[trigger] touch8(m)(a, b) && keep(a) implies keep(b) by {
            assert(m.ink(b.0, b.1));
            assert(s(a.0, a.1));
        }
        connect::reaches_keeps(touch8(m), keep, p, q);
    }
    let f = |k: int| s(k % (m.width as int), k / (m.width as int));
    assert forall|k: int| 0 <= k < m.width * m.height && #[trigger] member(m, p)(k) implies f(k) by {
        assert(connected(m, p, pixel_of(m.width as int, k)));
    }
    counting::count_le(member(m, p), f, m.width * m.height);
    assert forall|x: int| has_column(m, p, x) implies exists|y: int| #[trigger] s(x, y) by {
        let q = choose|q: (int, int)| #[trigger] connected(m, p, q) && q.0 == x;
        assert(s(x, q.1));
    }
    assert forall|y: int| has_row(m, p, y) implies exists|x: int| #[trigger] s(x, y) by {
        let q = choose|q: (int, int)| #[trigger] connected(m, p, q) && q.1 == y;
        assert(s(q.0, y));
    }
    assert(has_column(m, p, g.bbox.x as int) && has_column(m, p, g.bbox.right() - 1));
    assert(has_row(m, p, g.bbox.y as int) && has_row(m, p, g.bbox.bottom() - 1));
}

proof fn leader_of(m: ForegroundMask, p: (int, int)) -> (q: (int, int))
    requires
        m.wf(),
        m.ink(p.0, p.1),
    ensures
        is_leader(m, q),
        connected(m, q, p),
    decreases mask::pixel_at(m.width as int, p.0, p.1),
{
    if is_leader(m, p) {
        connected_self(m, p);
        p
    } else {
        let r = choose|r: (int, int)| #[trigger] connected(m, p, r) && scan_before(r, p);
        connected_ink(m, p, r);
        let w = m.width as int;
        mask::lemma_pixel_in(w, m.height as int, r.0, r.1);
        assert(r.1 * w + r.0 < p.1 * w + p.0) by (nonlinear_arith)
            requires
                0 <= r.0 < w,
                0 <= p.0 < w,
                r.1 < p.1 || (r.1 == p.1 && r.0 < p.0),
        ;
        let q = leader_of(m, r);
        connected_sym(m, p, r);
        connected_trans(m, q, r, p);
        q
    }
}

/// Where no group is too small to be listed, the box of some group holds every ink
/// pixel.
pub proof fn every_ink_pixel_is_grouped(m: ForegroundMask, min_area: int, out: Seq<IconGroup>, x: int, y: int)
    requires
        m.wf(),
        is_grouping(m, min_area, out),
        min_area <= 1,
        m.ink(x, y),
    ensures
        exists|i: int|
            0 <= i < out.len() && (#[trigger] out[i]).bbox.x <= x < out[i].bbox.x + out[i].bbox.w && out[i].bbox.y
                <= y < out[i].bbox.y + out[i].bbox.h,
{
    let q = leader_of(m, (x, y));
    let w = m.width as int;
    let h = m.height as int;
    mask::lemma_pixel_in(w, h, x, y);
    let k = mask::pixel_at(w, x, y);
    mask::lemma_pixel_split(w, h, k);
    mask::lemma_pixel_inj(w, k % w, k / w, x, y);
    assert(member(m, q)(k));
    counting::count_positive(member(m, q), w * h, k);
    assert(component_area(m, q) >= min_area);
    assert(lists_origin(out, q));
    let i = choose|i: int| 0 <= i < out.len() && origin_of(#[trigger] out[i]) == q;
    assert(is_component(m, out[i]));
    assert(connected(m, origin_of(out[i]), (x, y)));
    assert(out[i].bbox.covers(x, y));
}

/// Groups are listed by the top of their boxes, then the left, then the origin.
pub proof fn groups_are_listed_from_the_top(m: ForegroundMask, min_area: int, out: Seq<IconGroup>, i: int, j: int)
    requires
        is_grouping(m, min_area, out),
        0 <= i < j < out.len(),
    ensures
        ({
            let a = out[i];
            let b = out[j];
            ||| a.bbox.y < b.bbox.y
            ||| a.bbox.y == b.bbox.y && a.bbox.x < b.bbox.x
            ||| a.bbox.y == b.bbox.y && a.bbox.x == b.bbox.x && a.origin.0 < b.origin.0
            ||| a.bbox.y == b.bbox.y && a.bbox.x == b.bbox.x && a.origin.0 == b.origin.0 && a.origin.1
                < b.origin.1
        }),
{
    assert(sorting::key_lt(group_key(out[i]), group_key(out[j])));
}

} // verus!
