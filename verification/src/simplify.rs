//! Simplifying traced outlines.
//!
//! A straight outline loses the anchors that hardly turn, then those that lie
//! close to the line between the corners around them (Ramer, Douglas and
//! Peucker), then those that span little area (Visvalingam and Whyatt). Corners
//! and ends are pinned: no pass removes them. Where an outline has a curve, only
//! anchors between two straight segments can go, and only if they hardly turn.
//! What is left is snapped to whole pixels where it is close to them.
//!
//! Coordinates are in hundredths of a pixel, as fine as outlines are written.
//! Angles are given by their cosines, in billionths.
use vstd::prelude::*;
use crate::counting;
use crate::split::Milli;
use crate::text;
use crate::wide;

verus! {

/// The largest coordinate, in hundredths of a pixel.
pub const MAX_COORD: i64 = 4_000_000;

/// The largest distance along an axis.
pub const SPAN: i64 = 8_000_000;

/// The cosine of no angle, in billionths.
pub const COS_ONE: i64 = 1_000_000_000;

/// A point.
#[derive(Clone, Copy, Debug, PartialEq, Eq, Structural)]
pub struct Pt {
    pub x: i64,
    pub y: i64,
}

/// A step of a path, in absolute coordinates.
#[derive(Clone, Copy, Debug, PartialEq, Eq, Structural)]
pub enum PathOp {
    /// A new outline starts.
    Move(Pt),
    /// A straight segment.
    Line(Pt),
    /// A quadratic curve: control point and end.
    Quad(Pt, Pt),
    /// A cubic curve: control points and end.
    Cubic(Pt, Pt, Pt),
    /// The outline is closed.
    Close,
}

/// A segment of an outline.
#[derive(Clone, Copy, Debug, PartialEq, Eq, Structural)]
pub enum Seg {
    /// Straight.
    Line { end: Pt },
    /// A cubic curve.
    Cubic { c1: Pt, c2: Pt, end: Pt },
}

/// An outline.
#[derive(Clone, Debug, PartialEq, Eq)]
pub struct SubPath {
    /// Where it starts.
    pub start: Pt,
    /// Its segments.
    pub segs: Vec<Seg>,
    /// Its end is joined to its start.
    pub closed: bool,
}

/// What an outline is.
pub struct Outline {
    pub start: Pt,
    pub segs: Seq<Seg>,
    pub closed: bool,
}

impl View for SubPath {
    type V = Outline;

    open spec fn view(&self) -> Outline {
        Outline { start: self.start, segs: self.segs@, closed: self.closed }
    }
}

/// The limits of the passes. Zero turns a pass off, and so does the cosine of no
/// angle for the first one.
#[derive(Clone, Copy, Debug, PartialEq, Eq, Structural)]
pub struct Simplifier {
    /// The cosine of the least turn that is not merged away.
    pub collinear_cos: i64,
    /// The cosine of the least turn of a corner.
    pub corner_cos: i64,
    /// Distance below which an anchor is dropped, in thousandths of a pixel.
    pub rdp_px: Milli,
    /// Area below which an anchor is dropped, in thousandths of a square pixel.
    pub vis_area_px2: Milli,
    /// Coordinates this close to a whole pixel are snapped, in thousandths.
    pub snap_px: Milli,
}

/// Both angles have a cosine.
pub open spec fn simplifier_ok(p: Simplifier) -> bool {
    -COS_ONE <= p.collinear_cos <= COS_ONE && -COS_ONE <= p.corner_cos <= COS_ONE
}

/// The coordinates of a point are in range.
pub open spec fn pt_ok(p: Pt) -> bool {
    -MAX_COORD <= p.x <= MAX_COORD && -MAX_COORD <= p.y <= MAX_COORD
}

/// The points of a step are in range.
pub open spec fn op_ok(o: PathOp) -> bool {
    match o {
        PathOp::Move(p) => pt_ok(p),
        PathOp::Line(p) => pt_ok(p),
        PathOp::Quad(q, p) => pt_ok(q) && pt_ok(p),
        PathOp::Cubic(a, b, p) => pt_ok(a) && pt_ok(b) && pt_ok(p),
        PathOp::Close => true,
    }
}

/// The points of a segment are in range.
pub open spec fn seg_ok(s: Seg) -> bool {
    match s {
        Seg::Line { end } => pt_ok(end),
        Seg::Cubic { c1, c2, end } => pt_ok(c1) && pt_ok(c2) && pt_ok(end),
    }
}

/// The points of an outline are in range.
pub open spec fn outline_ok(o: Outline) -> bool {
    pt_ok(o.start) && forall|i: int| 0 <= i < o.segs.len() ==> seg_ok(#[trigger] o.segs[i])
}

// ---- reading ------------------------------------------------------------------------

/// A third, rounded to the nearest.
pub open spec fn third(v: int) -> int {
    (v + 1) / 3
}

/// The control point of the cubic that a quadratic curve is, beside one end.
pub open spec fn elevated(end: Pt, q: Pt) -> Pt {
    Pt { x: third(end.x + 2 * q.x) as i64, y: third(end.y + 2 * q.y) as i64 }
}

/// What has been read of a path.
pub struct Reading {
    /// Outlines that are complete.
    pub done: Seq<Outline>,
    /// The outline that is being read.
    pub cur: Option<Outline>,
    /// Where the last segment ended.
    pub pos: Pt,
}

/// An outline with one more segment.
pub open spec fn with_seg(o: Option<Outline>, s: Seg) -> Option<Outline> {
    match o {
        Some(o) => Some(Outline { segs: o.segs.push(s), ..o }),
        None => None,
    }
}

/// The outlines with the current one.
pub open spec fn flushed(r: Reading) -> Seq<Outline> {
    match r.cur {
        Some(o) => r.done.push(o),
        None => r.done,
    }
}

/// What has been read after one more step.
pub open spec fn read_step(r: Reading, op: PathOp) -> Reading {
    match op {
        PathOp::Move(p) => Reading {
            done: flushed(r),
            cur: Some(Outline { start: p, segs: Seq::empty(), closed: false }),
            pos: p,
        },
        PathOp::Line(p) => Reading { cur: with_seg(r.cur, Seg::Line { end: p }), pos: p, ..r },
        PathOp::Quad(q, p) => Reading {
            cur: with_seg(
                r.cur,
                Seg::Cubic { c1: elevated(r.pos, q), c2: elevated(p, q), end: p },
            ),
            pos: p,
            ..r
        },
        PathOp::Cubic(c1, c2, p) => Reading {
            cur: with_seg(r.cur, Seg::Cubic { c1, c2, end: p }),
            pos: p,
            ..r
        },
        PathOp::Close => Reading {
            cur: match r.cur {
                Some(o) => Some(Outline { closed: true, ..o }),
                None => None,
            },
            ..r
        },
    }
}

/// What has been read after the first `n` steps.
pub open spec fn read(ops: Seq<PathOp>, n: int) -> Reading
    decreases n,
{
    if n <= 0 {
        Reading { done: Seq::empty(), cur: None, pos: Pt { x: 0, y: 0 } }
    } else {
        read_step(read(ops, n - 1), ops[n - 1])
    }
}

/// The outlines of a path.
pub open spec fn parsed(ops: Seq<PathOp>) -> Seq<Outline> {
    flushed(read(ops, ops.len() as int))
}

/// The views of some outlines.
pub open spec fn views(subs: Seq<SubPath>) -> Seq<Outline> {
    Seq::new(subs.len(), |i: int| subs[i]@)
}

fn third_of(v: i64) -> (r: i64)
    requires
        -3 * MAX_COORD <= v <= 3 * MAX_COORD,
    ensures
        r == third(v as int),
        -MAX_COORD <= r <= MAX_COORD,
{
    if v + 1 >= 0 {
        (v + 1) / 3
    } else {
        -((1 - v) / 3)
    }
}

fn elevate(end: Pt, q: Pt) -> (r: Pt)
    requires
        pt_ok(end),
        pt_ok(q),
    ensures
        r == elevated(end, q),
        pt_ok(r),
{
    Pt { x: third_of(end.x + 2 * q.x), y: third_of(end.y + 2 * q.y) }
}

fn push_seg(cur: &mut Option<SubPath>, s: Seg)
    requires
        seg_ok(s),
        *old(cur) is Some ==> outline_ok((*old(cur))->0@),
    ensures
        *final(cur) is Some == *old(cur) is Some,
        *old(cur) is Some ==> Some((*final(cur))->0@) == with_seg(Some((*old(cur))->0@), s)
            && outline_ok((*final(cur))->0@),
{
    let taken = cur.take();
    if let Some(o) = taken {
        let mut o = o;
        let ghost before = o.segs@;
        o.segs.push(s);
        proof {
            assert forall|i: int| 0 <= i < o.segs@.len() implies seg_ok(#[trigger] o.segs@[i]) by {
                if i < before.len() {
                    assert(seg_ok(before[i]));
                }
            }
        }
        *cur = Some(o);
    }
}

/// Splits a path into its outlines. A quadratic curve becomes the cubic that it
/// is, and steps before the first outline are passed over.
pub fn parse_subpaths(ops: &Vec<PathOp>) -> (r: Vec<SubPath>)
    requires
        forall|i: int| 0 <= i < ops@.len() ==> op_ok(#[trigger] ops@[i]),
    ensures
        views(r@) == parsed(ops@),
        forall|i: int| 0 <= i < r@.len() ==> outline_ok((#[trigger] r@[i])@),
{
    let mut subs: Vec<SubPath> = Vec::new();
    let mut cur: Option<SubPath> = None;
    let mut pos: Pt = Pt { x: 0, y: 0 };
    let mut i: usize = 0;
    assert(views(subs@) =~= Seq::<Outline>::empty());
    while i < ops.len()
        invariant
            i <= ops@.len(),
            forall|i: int| 0 <= i < ops@.len() ==> op_ok(#[trigger] ops@[i]),
            pt_ok(pos),
            views(subs@) == read(ops@, i as int).done,
            (cur is Some) == (read(ops@, i as int).cur is Some),
            cur is Some ==> cur->0@ == read(ops@, i as int).cur->0 && outline_ok(cur->0@),
            pos == read(ops@, i as int).pos,
            forall|i: int| 0 <= i < subs@.len() ==> outline_ok((#[trigger] subs@[i])@),
        decreases ops@.len() - i,
    {
        let ghost before = read(ops@, i as int);
        assert(op_ok(ops@[i as int]));
        match ops[i] {
            PathOp::Move(p) => {
                let taken = cur.take();
                if let Some(o) = taken {
                    let ghost subs0 = subs@;
                    let ghost view = o@;
                    subs.push(o);
                    assert(views(subs@) =~= views(subs0).push(view));
                }
                cur = Some(SubPath { start: p, segs: Vec::new(), closed: false });
                pos = p;
            },
            PathOp::Line(p) => {
                push_seg(&mut cur, Seg::Line { end: p });
                pos = p;
            },
            PathOp::Quad(q, p) => {
                push_seg(&mut cur, Seg::Cubic { c1: elevate(pos, q), c2: elevate(p, q), end: p });
                pos = p;
            },
            PathOp::Cubic(c1, c2, p) => {
                push_seg(&mut cur, Seg::Cubic { c1, c2, end: p });
                pos = p;
            },
            PathOp::Close => {
                let taken = cur.take();
                if let Some(o) = taken {
                    let mut o = o;
                    o.closed = true;
                    cur = Some(o);
                }
            },
        }
        i = i + 1;
        assert(read(ops@, i as int) == read_step(before, ops@[i - 1]));
    }
    if let Some(o) = cur {
        let ghost subs0 = subs@;
        let ghost view = o@;
        subs.push(o);
        assert(views(subs@) =~= views(subs0).push(view));
    }
    subs
}

// ---- turns --------------------------------------------------------------------------

/// The squared distance of two points.
pub open spec fn len2(a: Pt, b: Pt) -> int {
    (b.x - a.x) * (b.x - a.x) + (b.y - a.y) * (b.y - a.y)
}

/// The scalar product of the ways from `a` to `b` and from `b` to `c`.
pub open spec fn dot(a: Pt, b: Pt, c: Pt) -> int {
    (b.x - a.x) * (c.x - b.x) + (b.y - a.y) * (c.y - b.y)
}

/// Twice the signed area of a triangle.
pub open spec fn cross(a: Pt, b: Pt, c: Pt) -> int {
    (b.x - a.x) * (c.y - a.y) - (b.y - a.y) * (c.x - a.x)
}

/// The way turns at `b` by at least the angle whose cosine is `k`. Where two of
/// the points are the same it does not turn.
pub open spec fn turns(a: Pt, b: Pt, c: Pt, k: int) -> bool {
    let d = dot(a, b, c);
    let l = len2(a, b) * len2(b, c);
    if l == 0 {
        k >= COS_ONE
    } else if d >= 0 && k >= 0 {
        (d * d) * (COS_ONE * COS_ONE) <= (k * k) * l
    } else if d < 0 && k < 0 {
        (d * d) * (COS_ONE * COS_ONE) >= (k * k) * l
    } else {
        k >= 0
    }
}

proof fn product_bound(a: int, b: int, m: int)
    requires
        -m <= a <= m,
        -m <= b <= m,
    ensures
        -(m * m) <= a * b <= m * m,
{
    assert(-(m * m) <= a * b <= m * m) by (nonlinear_arith)
        requires
            -m <= a <= m,
            -m <= b <= m,
    ;
}

fn two_products(a: i64, b: i64, c: i64, d: i64) -> (r: i128)
    requires
        -SPAN <= a <= SPAN,
        -SPAN <= b <= SPAN,
        -SPAN <= c <= SPAN,
        -SPAN <= d <= SPAN,
    ensures
        r == a * b + c * d,
        -2 * (SPAN * SPAN) <= r <= 2 * (SPAN * SPAN),
{
    proof {
        product_bound(a as int, b as int, SPAN as int);
        product_bound(c as int, d as int, SPAN as int);
    }
    a as i128 * b as i128 + c as i128 * d as i128
}

fn len2_of(a: Pt, b: Pt) -> (r: i128)
    requires
        pt_ok(a),
        pt_ok(b),
    ensures
        r == len2(a, b),
        0 <= r <= 2 * (SPAN * SPAN),
{
    proof {
        assert((b.x - a.x) * (b.x - a.x) >= 0 && (b.y - a.y) * (b.y - a.y) >= 0) by (nonlinear_arith);
    }
    two_products(b.x - a.x, b.x - a.x, b.y - a.y, b.y - a.y)
}

fn cross_of(a: Pt, b: Pt, c: Pt) -> (r: i128)
    requires
        pt_ok(a),
        pt_ok(b),
        pt_ok(c),
    ensures
        r == cross(a, b, c),
        -2 * (SPAN * SPAN) <= r <= 2 * (SPAN * SPAN),
{
    proof {
        assert((b.x - a.x) * (c.y - a.y) + (a.y - b.y) * (c.x - a.x) == cross(a, b, c))
            by (nonlinear_arith);
    }
    two_products(b.x - a.x, c.y - a.y, a.y - b.y, c.x - a.x)
}

/// Whether the way turns at `b` by at least the angle whose cosine is `k`.
fn turns_at(a: Pt, b: Pt, c: Pt, k: i64) -> (r: bool)
    requires
        pt_ok(a),
        pt_ok(b),
        pt_ok(c),
        -COS_ONE <= k <= COS_ONE,
    ensures
        r == turns(a, b, c, k as int),
{
    let d: i128 = two_products(b.x - a.x, c.x - b.x, b.y - a.y, c.y - b.y);
    let la: i128 = len2_of(a, b);
    let lb: i128 = len2_of(b, c);
    proof {
        let m = 2 * (SPAN * SPAN);
        product_bound(la as int, lb as int, m as int);
        product_bound(d as int, d as int, m as int);
        assert(m * m == 16_384_000_000_000_000_000_000_000_000) by (nonlinear_arith)
            requires
                m == 128_000_000_000_000,
        ;
        product_bound(k as int, k as int, COS_ONE as int);
        assert(d * d >= 0 && k * k >= 0) by (nonlinear_arith);
        assert(la * lb >= 0) by (nonlinear_arith)
            requires
                la >= 0,
                lb >= 0,
        ;
    }
    let l: i128 = la * lb;
    let dd: u128 = (d * d) as u128;
    let kk: u128 = (k as i128 * k as i128) as u128;
    let one: u128 = 1_000_000_000_000_000_000;
    assert(one == COS_ONE * COS_ONE);
    if l == 0 {
        k >= COS_ONE
    } else if d >= 0 && k >= 0 {
        !wide::product_less(kk, l as u128, dd, one)
    } else if d < 0 && k < 0 {
        !wide::product_less(dd, one, kk, l as u128)
    } else {
        k >= 0
    }
}

/// Every way turns by at least no angle.
proof fn all_turn(a: Pt, b: Pt, c: Pt)
    ensures
        turns(a, b, c, COS_ONE as int),
{
    let x = b.x - a.x;
    let y = b.y - a.y;
    let u = c.x - b.x;
    let v = c.y - b.y;
    let d = x * u + y * v;
    let l = (x * x + y * y) * (u * u + v * v);
    let p = x * u;
    let q = y * v;
    let r = x * v;
    let t = y * u;
    assert(l == (x * x) * (u * u) + (x * x) * (v * v) + (y * y) * (u * u) + (y * y) * (v * v))
        by (nonlinear_arith)
        requires
            l == (x * x + y * y) * (u * u + v * v),
    ;
    assert((x * x) * (u * u) == p * p) by (nonlinear_arith)
        requires
            p == x * u,
    ;
    assert((x * x) * (v * v) == r * r) by (nonlinear_arith)
        requires
            r == x * v,
    ;
    assert((y * y) * (u * u) == t * t) by (nonlinear_arith)
        requires
            t == y * u,
    ;
    assert((y * y) * (v * v) == q * q) by (nonlinear_arith)
        requires
            q == y * v,
    ;
    assert(p * q == r * t) by (nonlinear_arith)
        requires
            p == x * u,
            q == y * v,
            r == x * v,
            t == y * u,
    ;
    assert((p + q) * (p + q) <= p * p + r * r + t * t + q * q) by (nonlinear_arith)
        requires
            p * q == r * t,
    ;
    let one = COS_ONE * COS_ONE;
    assert((d * d) * one <= one * l) by (nonlinear_arith)
        requires
            d * d <= l,
            one >= 0,
    ;
}

// ---- anchors ------------------------------------------------------------------------

/// A point between two straight segments, or an end.
#[derive(Clone, Copy, Debug, PartialEq, Eq, Structural)]
pub struct Anchor {
    pub at: Pt,
    /// It is never removed.
    pub pinned: bool,
}

/// Where a segment ends.
pub open spec fn end_of(s: Seg) -> Pt {
    match s {
        Seg::Line { end } => end,
        Seg::Cubic { c1, c2, end } => end,
    }
}

/// Point number `i` of an outline.
pub open spec fn point(o: Outline, i: int) -> Pt {
    if i <= 0 {
        o.start
    } else {
        end_of(o.segs[i - 1])
    }
}

/// Point number `i` is an end or a corner.
pub open spec fn is_pinned(o: Outline, k: int, i: int) -> bool {
    i <= 0 || i >= o.segs.len() || turns(point(o, i - 1), point(o, i), point(o, i + 1), k)
}

/// The anchors of an outline.
pub open spec fn anchors_of(o: Outline, k: int) -> Seq<Anchor> {
    Seq::new(
        o.segs.len() + 1,
        |i: int| Anchor { at: point(o, i), pinned: is_pinned(o, k, i) },
    )
}

/// All anchors are in range.
pub open spec fn anchors_ok(s: Seq<Anchor>) -> bool {
    forall|i: int| 0 <= i < s.len() ==> pt_ok((#[trigger] s[i]).at)
}

fn seg_end(s: Seg) -> (r: Pt)
    ensures
        r == end_of(s),
{
    match s {
        Seg::Line { end } => end,
        Seg::Cubic { c1, c2, end } => end,
    }
}

fn point_of(s: &SubPath, i: usize) -> (r: Pt)
    requires
        i <= s.segs@.len(),
        outline_ok(s@),
    ensures
        r == point(s@, i as int),
        pt_ok(r),
{
    if i == 0 {
        s.start
    } else {
        assert(seg_ok(s@.segs[i - 1]));
        seg_end(s.segs[i - 1])
    }
}

/// The anchors of an outline: its ends and corners are pinned.
fn pin_mask(s: &SubPath, corner_cos: i64) -> (r: Vec<Anchor>)
    requires
        outline_ok(s@),
        -COS_ONE <= corner_cos <= COS_ONE,
    ensures
        r@ == anchors_of(s@, corner_cos as int),
        anchors_ok(r@),
{
    let n: usize = s.segs.len();
    let mut out: Vec<Anchor> = Vec::new();
    let mut i: usize = 0;
    loop
        invariant_except_break
            out@ == anchors_of(s@, corner_cos as int).subrange(0, i as int),
        invariant
            n == s.segs@.len(),
            i <= n,
            outline_ok(s@),
            -COS_ONE <= corner_cos <= COS_ONE,
            anchors_ok(out@),
        ensures
            out@ == anchors_of(s@, corner_cos as int),
            anchors_ok(out@),
        decreases n - i,
    {
        let at = point_of(s, i);
        let pinned: bool = i == 0 || i == n || turns_at(
            point_of(s, i - 1),
            at,
            point_of(s, i + 1),
            corner_cos,
        );
        let ghost before = out@;
        out.push(Anchor { at, pinned });
        assert(out@ =~= anchors_of(s@, corner_cos as int).subrange(0, i + 1));
        if i == n {
            assert(out@ =~= anchors_of(s@, corner_cos as int));
            break;
        }
        i = i + 1;
    }
    out
}

// ---- the first pass -----------------------------------------------------------------

/// The first `n` anchors without those that hardly turn between the last one
/// that stayed and the next.
pub open spec fn merged(s: Seq<Anchor>, k: int, n: int) -> Seq<Anchor>
    decreases n,
{
    if n <= 0 {
        Seq::empty()
    } else {
        let m = merged(s, k, n - 1);
        if 1 < n < s.len() && !s[n - 1].pinned && !turns(m.last().at, s[n - 1].at, s[n].at, k) {
            m
        } else {
            m.push(s[n - 1])
        }
    }
}

proof fn merged_starts(s: Seq<Anchor>, k: int, n: int)
    requires
        1 <= n <= s.len(),
    ensures
        merged(s, k, n).len() >= 1,
        merged(s, k, n)[0] == s[0],
        merged(s, k, n).len() <= n,
    decreases n,
{
    if n > 1 {
        merged_starts(s, k, n - 1);
    } else {
        assert(merged(s, k, 0).len() == 0);
    }
}

fn filter_collinear(s: &Vec<Anchor>, k: i64) -> (r: Vec<Anchor>)
    requires
        anchors_ok(s@),
        -COS_ONE <= k <= COS_ONE,
    ensures
        r@ == merged(s@, k as int, s@.len() as int),
        anchors_ok(r@),
{
    let mut out: Vec<Anchor> = Vec::new();
    let mut i: usize = 0;
    while i < s.len()
        invariant
            i <= s@.len(),
            anchors_ok(s@),
            anchors_ok(out@),
            -COS_ONE <= k <= COS_ONE,
            out@ == merged(s@, k as int, i as int),
        decreases s@.len() - i,
    {
        proof {
            if i > 0 {
                merged_starts(s@, k as int, i as int);
            }
            assert(merged(s@, k as int, i + 1) == if 1 < i + 1 < s@.len() && !s@[i as int].pinned && !turns(
                merged(s@, k as int, i as int).last().at,
                s@[i as int].at,
                s@[i + 1].at,
                k as int,
            ) {
                merged(s@, k as int, i as int)
            } else {
                merged(s@, k as int, i as int).push(s@[i as int])
            });
        }
        let a = s[i];
        let gone: bool = i > 0 && i + 1 < s.len() && !a.pinned && !turns_at(
            out[out.len() - 1].at,
            a.at,
            s[i + 1].at,
            k,
        );
        if !gone {
            out.push(a);
        }
        i = i + 1;
    }
    out
}

// ---- the second pass ----------------------------------------------------------------

/// What distances from the way between `a` and `b` are measured in.
pub open spec fn reach_unit(a: Pt, b: Pt) -> int {
    if len2(a, b) == 0 {
        1
    } else {
        len2(a, b)
    }
}

/// The squared distance of `p` from the segment between `a` and `b`, times
/// [`reach_unit`].
pub open spec fn reach(p: Pt, a: Pt, b: Pt) -> int {
    let l = len2(a, b);
    let t = (p.x - a.x) * (b.x - a.x) + (p.y - a.y) * (b.y - a.y);
    if l == 0 {
        len2(a, p)
    } else if t <= 0 {
        len2(a, p) * l
    } else if t >= l {
        len2(b, p) * l
    } else {
        cross(a, b, p) * cross(a, b, p)
    }
}

/// The farthest anchor from the way between `lo` and `hi`, among those behind
/// `lo` up to `m`; the first of several.
pub open spec fn farthest(s: Seq<Anchor>, lo: int, hi: int, m: int) -> int
    decreases m - lo,
{
    if m <= lo + 1 {
        lo + 1
    } else {
        let f = farthest(s, lo, hi, m - 1);
        if reach(s[m].at, s[lo].at, s[hi].at) > reach(s[f].at, s[lo].at, s[hi].at) {
            m
        } else {
            f
        }
    }
}

/// An anchor is farther from the way between `a` and `b` than the limit.
pub open spec fn is_far(p: Pt, a: Pt, b: Pt, limit: int) -> bool {
    100 * reach(p, a, b) > (limit * limit) * reach_unit(a, b)
}

/// Anchor `i` stays between `lo` and `hi`: it is the farthest, and far enough,
/// or it stays in one of the halves that the farthest makes.
pub open spec fn stays_between(s: Seq<Anchor>, limit: int, lo: int, hi: int, i: int) -> bool
    decreases hi - lo,
{
    if hi <= lo + 1 {
        false
    } else {
        let f = farthest(s, lo, hi, hi - 1);
        if !(lo < f < hi) || !is_far(s[f].at, s[lo].at, s[hi].at, limit) {
            false
        } else {
            i == f || stays_between(s, limit, lo, f, i) || stays_between(s, limit, f, hi, i)
        }
    }
}

/// The last pinned anchor before `i`; the first anchor where there is none.
pub open spec fn pin_before(s: Seq<Anchor>, i: int) -> int
    decreases i,
{
    if i <= 1 {
        0
    } else if s[i - 1].pinned {
        i - 1
    } else {
        pin_before(s, i - 1)
    }
}

/// The first pinned anchor behind `i`; the last anchor where there is none.
pub open spec fn pin_behind(s: Seq<Anchor>, i: int) -> int
    decreases s.len() - i,
{
    if i + 1 >= s.len() - 1 {
        s.len() - 1
    } else if s[i + 1].pinned {
        i + 1
    } else {
        pin_behind(s, i + 1)
    }
}

/// Anchor `i` stays: the pass is off, it is pinned, or it stays between the
/// pinned anchors around it.
pub open spec fn stays(s: Seq<Anchor>, limit: int, i: int) -> bool {
    limit == 0 || s[i].pinned || stays_between(s, limit, pin_before(s, i), pin_behind(s, i), i)
}

/// The first `n` anchors without those that do not stay.
pub open spec fn straightened(s: Seq<Anchor>, limit: int, n: int) -> Seq<Anchor>
    decreases n,
{
    if n <= 0 {
        Seq::empty()
    } else if stays(s, limit, n - 1) {
        straightened(s, limit, n - 1).push(s[n - 1])
    } else {
        straightened(s, limit, n - 1)
    }
}

/// The farthest anchor lies between, and no other is farther.
pub proof fn farthest_is_farthest(s: Seq<Anchor>, lo: int, hi: int, m: int)
    requires
        lo < m < hi,
    ensures
        lo < farthest(s, lo, hi, m) <= m,
        forall|i: int|
            lo < i <= m ==> reach(#[trigger] s[i].at, s[lo].at, s[hi].at) <= reach(
                s[farthest(s, lo, hi, m)].at,
                s[lo].at,
                s[hi].at,
            ),
    decreases m - lo,
{
    if m > lo + 1 {
        farthest_is_farthest(s, lo, hi, m - 1);
    }
}

proof fn stays_inside(s: Seq<Anchor>, limit: int, lo: int, hi: int, i: int)
    requires
        stays_between(s, limit, lo, hi, i),
    ensures
        lo < i < hi,
    decreases hi - lo,
{
    let f = farthest(s, lo, hi, hi - 1);
    if i != f {
        if stays_between(s, limit, lo, f, i) {
            stays_inside(s, limit, lo, f, i);
        } else {
            stays_inside(s, limit, f, hi, i);
        }
    }
}

proof fn pins_around(s: Seq<Anchor>, a: int, b: int, i: int)
    requires
        0 <= a < i < b < s.len(),
        a == 0 || s[a].pinned,
        b == s.len() - 1 || s[b].pinned,
        forall|j: int| a < j < b ==> !(#[trigger] s[j]).pinned,
    ensures
        pin_before(s, i) == a,
        pin_behind(s, i) == b,
    decreases b - a,
{
    pin_before_is(s, a, i);
    pin_behind_is(s, b, i);
}

proof fn pin_before_is(s: Seq<Anchor>, a: int, i: int)
    requires
        0 <= a < i < s.len(),
        a == 0 || s[a].pinned,
        forall|j: int| a < j < i ==> !(#[trigger] s[j]).pinned,
    ensures
        pin_before(s, i) == a,
    decreases i,
{
    if i > 1 && i - 1 > a {
        assert(!s[i - 1].pinned);
        pin_before_is(s, a, i - 1);
    }
}

proof fn pin_behind_is(s: Seq<Anchor>, b: int, i: int)
    requires
        0 <= i < b < s.len(),
        b == s.len() - 1 || s[b].pinned,
        forall|j: int| i < j < b ==> !(#[trigger] s[j]).pinned,
    ensures
        pin_behind(s, i) == b,
    decreases b - i,
{
    if i + 1 < b {
        assert(!s[i + 1].pinned);
        pin_behind_is(s, b, i + 1);
    }
}

fn reach_of(p: Pt, a: Pt, b: Pt) -> (r: i128)
    requires
        pt_ok(p),
        pt_ok(a),
        pt_ok(b),
    ensures
        r == reach(p, a, b),
        0 <= r <= 16_384_000_000_000_000_000_000_000_000,
{
    let l: i128 = len2_of(a, b);
    let t: i128 = two_products(p.x - a.x, b.x - a.x, p.y - a.y, b.y - a.y);
    let pa: i128 = len2_of(a, p);
    let pb: i128 = len2_of(b, p);
    let c: i128 = cross_of(a, b, p);
    proof {
        let m = 2 * (SPAN * SPAN);
        assert(m * m == 16_384_000_000_000_000_000_000_000_000) by (nonlinear_arith)
            requires
                m == 128_000_000_000_000,
        ;
        product_bound(pa as int, l as int, m as int);
        product_bound(pb as int, l as int, m as int);
        product_bound(c as int, c as int, m as int);
        assert(c * c >= 0) by (nonlinear_arith);
        assert(pa * l >= 0 && pb * l >= 0) by (nonlinear_arith)
            requires
                pa >= 0,
                pb >= 0,
                l >= 0,
        ;
    }
    if l == 0 {
        pa
    } else if t <= 0 {
        pa * l
    } else if t >= l {
        pb * l
    } else {
        c * c
    }
}

fn far(p: Pt, a: Pt, b: Pt, limit: Milli) -> (r: bool)
    requires
        pt_ok(p),
        pt_ok(a),
        pt_ok(b),
    ensures
        r == is_far(p, a, b, limit as int),
{
    let d: i128 = reach_of(p, a, b);
    let l: i128 = len2_of(a, b);
    let unit: i128 = if l == 0 {
        1
    } else {
        l
    };
    let e: i128 = limit as i128;
    proof {
        assert(0 <= e * e <= 18_446_744_073_709_551_616) by (nonlinear_arith)
            requires
                0 <= e <= 4_294_967_296,
        ;
        assert(0 <= (e * e) * unit <= 18_446_744_073_709_551_616 * 128_000_000_000_000) by (nonlinear_arith)
            requires
                0 <= e * e <= 18_446_744_073_709_551_616,
                0 <= unit <= 128_000_000_000_000,
        ;
    }
    100 * d > (e * e) * unit
}

fn rdp_rec(s: &Vec<Anchor>, limit: Milli, lo: usize, hi: usize, keep: &mut Vec<bool>)
    requires
        anchors_ok(s@),
        lo < hi < s@.len(),
        old(keep)@.len() == s@.len(),
    ensures
        final(keep)@.len() == s@.len(),
        forall|i: int|
            0 <= i < s@.len() ==> #[trigger] final(keep)@[i] == (old(keep)@[i] || stays_between(
                s@,
                limit as int,
                lo as int,
                hi as int,
                i,
            )),
    decreases hi - lo,
{
    if hi - lo <= 1 {
        return;
    }
    let a = s[lo].at;
    let b = s[hi].at;
    let mut best: usize = lo + 1;
    let mut best_d: i128 = reach_of(s[lo + 1].at, a, b);
    let mut m: usize = lo + 2;
    while m < hi
        invariant
            anchors_ok(s@),
            lo + 2 <= m <= hi < s@.len(),
            a == s@[lo as int].at,
            b == s@[hi as int].at,
            best == farthest(s@, lo as int, hi as int, m - 1),
            lo < best < m,
            best_d == reach(s@[best as int].at, a, b),
        decreases hi - m,
    {
        let d: i128 = reach_of(s[m].at, a, b);
        if d > best_d {
            best = m;
            best_d = d;
        }
        m = m + 1;
    }
    if far(s[best].at, a, b, limit) {
        keep.set(best, true);
        rdp_rec(s, limit, lo, best, keep);
        rdp_rec(s, limit, best, hi, keep);
    }
}

/// Drops the anchors that lie close to the way between the pinned ones.
fn rdp_pass(s: &Vec<Anchor>, limit: Milli) -> (r: Vec<Anchor>)
    requires
        anchors_ok(s@),
    ensures
        r@ == straightened(s@, limit as int, s@.len() as int),
        anchors_ok(r@),
{
    let n: usize = s.len();
    let mut keep: Vec<bool> = Vec::new();
    let mut j: usize = 0;
    while j < n
        invariant
            n == s@.len(),
            j <= n,
            keep@.len() == j,
            forall|i: int| 0 <= i < j ==> #[trigger] keep@[i] == (limit == 0 || s@[i].pinned),
        decreases n - j,
    {
        keep.push(limit == 0 || s[j].pinned);
        j = j + 1;
    }
    if limit > 0 && n >= 2 {
        mark_far(s, limit, &mut keep);
    } else if limit > 0 && n == 1 {
        proof {
            assert(!stays_between(s@, limit as int, 0, 0, 0));
        }
    }
    let mut out: Vec<Anchor> = Vec::new();
    let mut i: usize = 0;
    while i < n
        invariant
            n == s@.len() == keep@.len(),
            i <= n,
            anchors_ok(s@),
            anchors_ok(out@),
            forall|i: int| 0 <= i < n ==> #[trigger] keep@[i] == stays(s@, limit as int, i),
            out@ == straightened(s@, limit as int, i as int),
        decreases n - i,
    {
        if keep[i] {
            out.push(s[i]);
        }
        i = i + 1;
    }
    out
}

fn mark_far(s: &Vec<Anchor>, limit: Milli, keep: &mut Vec<bool>)
    requires
        anchors_ok(s@),
        s@.len() >= 2,
        limit > 0,
        old(keep)@.len() == s@.len(),
        forall|i: int| 0 <= i < s@.len() ==> #[trigger] old(keep)@[i] == s@[i].pinned,
    ensures
        final(keep)@.len() == s@.len(),
        forall|i: int|
            0 <= i < s@.len() ==> #[trigger] final(keep)@[i] == stays(s@, limit as int, i),
{
    let n: usize = s.len();
    let mut a: usize = 0;
    let mut i: usize = 1;
    proof {
        if stays_between(s@, limit as int, pin_before(s@, 0), pin_behind(s@, 0), 0) {
            stays_inside(s@, limit as int, pin_before(s@, 0), pin_behind(s@, 0), 0);
        }
        assert(keep@[0] == stays(s@, limit as int, 0));
    }
    while i < n
        invariant
            n == s@.len() == keep@.len(),
            limit > 0,
            anchors_ok(s@),
            0 <= a < i <= n,
            a == 0 || s@[a as int].pinned || a == n - 1,
            i < n ==> a < n - 1,
            i == n ==> a == n - 1,
            forall|j: int| a < j < i ==> !(#[trigger] s@[j]).pinned,
            forall|j: int| 0 <= j <= a ==> #[trigger] keep@[j] == stays(s@, limit as int, j),
            forall|j: int| a < j < n ==> #[trigger] keep@[j] == s@[j].pinned,
        decreases n - i,
    {
        if i == n - 1 || s[i].pinned {
            let ghost before = keep@;
            rdp_rec(s, limit, a, i, keep);
            proof {
                assert forall|j: int| 0 <= j < n implies #[trigger] keep@[j] == (if j <= i {
                    stays(s@, limit as int, j)
                } else {
                    s@[j].pinned
                }) by {
                    let inside = stays_between(s@, limit as int, a as int, i as int, j);
                    assert(keep@[j] == (before[j] || inside));
                    if inside {
                        stays_inside(s@, limit as int, a as int, i as int, j);
                    }
                    if a < j < i {
                        pins_around(s@, a as int, i as int, j);
                        assert(!s@[j].pinned);
                    } else if j == i {
                        assert(before[j] == s@[j].pinned);
                        if !s@[j].pinned {
                            assert(j == n - 1);
                            let x = pin_before(s@, j);
                            if stays_between(s@, limit as int, x, pin_behind(s@, j), j) {
                                stays_inside(s@, limit as int, x, pin_behind(s@, j), j);
                                assert(false);
                            }
                        }
                    } else if j < a {
                        assert(before[j] == stays(s@, limit as int, j));
                    } else if j == a {
                        assert(before[j] == stays(s@, limit as int, j));
                    }
                }
            }
            a = i;
        }
        i = i + 1;
    }
}

// ---- the third pass -----------------------------------------------------------------

/// Twice the area of the triangle that an anchor makes with its neighbours.
pub open spec fn spanned(s: Seq<Anchor>, i: int) -> int {
    let c = cross(s[i - 1].at, s[i].at, s[i + 1].at);
    if c < 0 {
        -c
    } else {
        c
    }
}

/// The anchor behind the first and before number `n` that spans the least, of
/// those that are not pinned; the first of several.
pub open spec fn least_spanned(s: Seq<Anchor>, n: int) -> Option<int>
    decreases n,
{
    if n <= 1 {
        None
    } else {
        match least_spanned(s, n - 1) {
            None => if s[n - 1].pinned {
                None
            } else {
                Some(n - 1)
            },
            Some(m) => if !s[n - 1].pinned && spanned(s, n - 1) < spanned(s, m) {
                Some(n - 1)
            } else {
                Some(m)
            },
        }
    }
}

/// The anchors that are left when, again and again, the one that spans the least
/// is removed, as long as that is less than the limit.
pub open spec fn thinned(s: Seq<Anchor>, limit: int) -> Seq<Anchor>
    decreases s.len(),
{
    match least_spanned(s, s.len() - 1) {
        Some(m) => if 0 < m < s.len() && spanned(s, m) < 20 * limit {
            thinned(s.remove(m), limit)
        } else {
            s
        },
        None => s,
    }
}

/// The anchor that spans the least is none of the ends and not pinned, and no
/// other that is not pinned spans less.
pub proof fn least_spans_least(s: Seq<Anchor>, n: int)
    requires
        n < s.len(),
    ensures
        match least_spanned(s, n) {
            Some(m) => 0 < m < n && !s[m].pinned && forall|i: int|
                0 < i < n && !(#[trigger] s[i]).pinned ==> spanned(s, m) <= spanned(s, i),
            None => forall|i: int| 0 < i < n ==> (#[trigger] s[i]).pinned,
        },
    decreases n,
{
    if n > 1 {
        least_spans_least(s, n - 1);
    }
}

fn span_of(s: &Vec<Anchor>, i: usize) -> (r: i128)
    requires
        anchors_ok(s@),
        0 < i,
        i + 1 < s@.len(),
    ensures
        r == spanned(s@, i as int),
{
    let n: usize = s.len();
    assert(i + 1 < n);
    let c: i128 = cross_of(s[i - 1].at, s[i].at, s[i + 1].at);
    if c < 0 {
        -c
    } else {
        c
    }
}

fn find_least(s: &Vec<Anchor>) -> (r: Option<usize>)
    requires
        anchors_ok(s@),
    ensures
        match r {
            Some(m) => least_spanned(s@, s@.len() - 1) == Some(m as int),
            None => least_spanned(s@, s@.len() - 1) is None,
        },
{
    let n: usize = s.len();
    let mut best: Option<usize> = None;
    let mut i: usize = 1;
    if n < 3 {
        return None;
    }
    while i < n - 1
        invariant
            n == s@.len() >= 3,
            1 <= i <= n - 1,
            anchors_ok(s@),
            match best {
                Some(m) => least_spanned(s@, i as int) == Some(m as int),
                None => least_spanned(s@, i as int) is None,
            },
        decreases n - i,
    {
        proof {
            least_spans_least(s@, i as int);
        }
        if !s[i].pinned {
            match best {
                None => {
                    best = Some(i);
                },
                Some(m) => {
                    if span_of(s, i) < span_of(s, m) {
                        best = Some(i);
                    }
                },
            }
        }
        i = i + 1;
    }
    best
}

/// Drops the anchors that span little, the least first.
fn visvalingam_pass(s: Vec<Anchor>, limit: Milli) -> (r: Vec<Anchor>)
    requires
        anchors_ok(s@),
    ensures
        r@ == thinned(s@, limit as int),
        anchors_ok(r@),
{
    let ghost start = s@;
    let mut s = s;
    loop
        invariant_except_break
            thinned(s@, limit as int) == thinned(start, limit as int),
        invariant
            anchors_ok(s@),
        ensures
            s@ == thinned(start, limit as int),
        decreases s@.len(),
    {
        let found = find_least(&s);
        proof {
            least_spans_least(s@, s@.len() - 1);
        }
        match found {
            None => {
                break;
            },
            Some(m) => {
                if span_of(&s, m) < 20 * (limit as i128) {
                    let ghost before = s@;
                    s.remove(m);
                    assert(s@ == before.remove(m as int));
                    assert forall|i: int| 0 <= i < s@.len() implies pt_ok((#[trigger] s@[i]).at) by {
                        assert(s@[i] == if i < m {
                            before[i]
                        } else {
                            before[i + 1]
                        });
                    }
                } else {
                    break;
                }
            },
        }
    }
    s
}

// ---- snapping -----------------------------------------------------------------------

/// The nearest whole pixel; halves go away from zero.
pub open spec fn whole(v: int) -> int {
    if v >= 0 {
        (v + 50) / 100 * 100
    } else {
        -((50 - v) / 100 * 100)
    }
}

/// A coordinate, snapped where it is within the limit of a whole pixel.
pub open spec fn snapped_coord(v: int, limit: int) -> int {
    let d = if v < whole(v) {
        whole(v) - v
    } else {
        v - whole(v)
    };
    if 10 * d <= limit {
        whole(v)
    } else {
        v
    }
}

/// A point, each coordinate snapped.
pub open spec fn snapped_pt(p: Pt, limit: int) -> Pt {
    Pt { x: snapped_coord(p.x as int, limit) as i64, y: snapped_coord(p.y as int, limit) as i64 }
}

/// A segment, each point snapped.
pub open spec fn snapped_seg(s: Seg, limit: int) -> Seg {
    match s {
        Seg::Line { end } => Seg::Line { end: snapped_pt(end, limit) },
        Seg::Cubic { c1, c2, end } => Seg::Cubic {
            c1: snapped_pt(c1, limit),
            c2: snapped_pt(c2, limit),
            end: snapped_pt(end, limit),
        },
    }
}

fn snap_coord(v: i64, limit: Milli) -> (r: i64)
    requires
        -MAX_COORD <= v <= MAX_COORD,
    ensures
        r == snapped_coord(v as int, limit as int),
        -MAX_COORD <= r <= MAX_COORD,
{
    let w: i64 = if v >= 0 {
        (v + 50) / 100 * 100
    } else {
        -((50 - v) / 100 * 100)
    };
    let d: i64 = if v < w {
        w - v
    } else {
        v - w
    };
    if 10 * d <= limit as i64 {
        w
    } else {
        v
    }
}

fn snap_pt(p: Pt, limit: Milli) -> (r: Pt)
    requires
        pt_ok(p),
    ensures
        r == snapped_pt(p, limit as int),
        pt_ok(r),
{
    Pt { x: snap_coord(p.x, limit), y: snap_coord(p.y, limit) }
}

fn snap_seg(s: Seg, limit: Milli) -> (r: Seg)
    requires
        seg_ok(s),
    ensures
        r == snapped_seg(s, limit as int),
        seg_ok(r),
{
    match s {
        Seg::Line { end } => Seg::Line { end: snap_pt(end, limit) },
        Seg::Cubic { c1, c2, end } => Seg::Cubic {
            c1: snap_pt(c1, limit),
            c2: snap_pt(c2, limit),
            end: snap_pt(end, limit),
        },
    }
}

// ---- straight outlines --------------------------------------------------------------

/// The anchors of a straight outline that are left.
pub open spec fn left_anchors(o: Outline, p: Simplifier) -> Seq<Anchor> {
    let a = anchors_of(o, p.corner_cos as int);
    let b = merged(a, p.collinear_cos as int, a.len() as int);
    let c = straightened(b, p.rdp_px as int, b.len() as int);
    thinned(c, p.vis_area_px2 as int)
}

/// The straight outline through some anchors, snapped.
pub open spec fn through(s: Seq<Anchor>, closed: bool, limit: int) -> Outline {
    Outline {
        start: snapped_pt(s[0].at, limit),
        segs: Seq::new(
            (s.len() - 1) as nat,
            |i: int| Seg::Line { end: snapped_pt(s[i + 1].at, limit) },
        ),
        closed,
    }
}

fn rebuild(s: &Vec<Anchor>, closed: bool, limit: Milli) -> (r: SubPath)
    requires
        anchors_ok(s@),
        s@.len() >= 1,
    ensures
        r@ == through(s@, closed, limit as int),
        outline_ok(r@),
{
    let start = snap_pt(s[0].at, limit);
    let mut segs: Vec<Seg> = Vec::new();
    let mut i: usize = 1;
    while i < s.len()
        invariant
            1 <= i <= s@.len(),
            anchors_ok(s@),
            segs@.len() == i - 1,
            forall|j: int|
                0 <= j < i - 1 ==> #[trigger] segs@[j] == (Seg::Line {
                    end: snapped_pt(s@[j + 1].at, limit as int),
                }) && seg_ok(segs@[j]),
        decreases s@.len() - i,
    {
        segs.push(Seg::Line { end: snap_pt(s[i].at, limit) });
        i = i + 1;
    }
    assert(segs@ =~= through(s@, closed, limit as int).segs);
    SubPath { start, segs, closed }
}

// ---- curved outlines ----------------------------------------------------------------

/// Some segment is a curve.
pub open spec fn has_curve(o: Outline) -> bool {
    exists|i: int| 0 <= i < o.segs.len() && #[trigger] o.segs[i] is Cubic
}

/// A curve starts or ends at a point.
pub open spec fn beside_curve(o: Outline, i: int) -> bool {
    (0 < i <= o.segs.len() && o.segs[i - 1] is Cubic) || (0 <= i < o.segs.len() && o.segs[i] is Cubic)
}

/// A point goes: it lies between two straight segments and hardly turns.
pub open spec fn is_dropped(o: Outline, p: Simplifier, i: int) -> bool {
    &&& 0 < i < o.segs.len()
    &&& !beside_curve(o, i)
    &&& !turns(point(o, i - 1), point(o, i), point(o, i + 1), p.collinear_cos as int)
    &&& !turns(point(o, i - 1), point(o, i), point(o, i + 1), p.corner_cos as int)
}

/// The last point before `i` that stays.
pub open spec fn kept_before(o: Outline, p: Simplifier, i: int) -> int
    decreases i,
{
    if i <= 1 {
        0
    } else if is_dropped(o, p, i - 1) {
        kept_before(o, p, i - 1)
    } else {
        i - 1
    }
}

/// A segment with another end.
pub open spec fn ending_at(s: Seg, end: Pt) -> Seg {
    match s {
        Seg::Line { .. } => Seg::Line { end },
        Seg::Cubic { c1, c2, .. } => Seg::Cubic { c1, c2, end },
    }
}

/// The segments up to point `n`: each leads from a point that stays to the next
/// one.
pub open spec fn bridged(o: Outline, p: Simplifier, n: int) -> Seq<Seg>
    decreases n,
{
    if n <= 0 {
        Seq::empty()
    } else if is_dropped(o, p, n) {
        bridged(o, p, n - 1)
    } else {
        bridged(o, p, n - 1).push(
            snapped_seg(
                ending_at(o.segs[kept_before(o, p, n)], point(o, n)),
                p.snap_px as int,
            ),
        )
    }
}

/// What simplifying an outline gives.
pub open spec fn simplified(o: Outline, p: Simplifier) -> Outline {
    if has_curve(o) {
        Outline {
            start: snapped_pt(o.start, p.snap_px as int),
            segs: bridged(o, p, o.segs.len() as int),
            closed: o.closed,
        }
    } else {
        through(left_anchors(o, p), o.closed, p.snap_px as int)
    }
}

fn find_curve(s: &SubPath) -> (r: bool)
    ensures
        r == has_curve(s@),
{
    let mut i: usize = 0;
    while i < s.segs.len()
        invariant
            i <= s.segs@.len(),
            forall|j: int| 0 <= j < i ==> !(#[trigger] s@.segs[j] is Cubic),
        decreases s.segs@.len() - i,
    {
        if let Seg::Cubic { .. } = s.segs[i] {
            assert(s@.segs[i as int] is Cubic);
            return true;
        }
        i = i + 1;
    }
    false
}

fn curve_at(s: &SubPath, i: usize) -> (r: bool)
    requires
        0 < i < s.segs@.len(),
    ensures
        r == beside_curve(s@, i as int),
{
    match (s.segs[i - 1], s.segs[i]) {
        (Seg::Line { .. }, Seg::Line { .. }) => false,
        _ => true,
    }
}

fn dropped(s: &SubPath, p: &Simplifier, i: usize) -> (r: bool)
    requires
        outline_ok(s@),
        simplifier_ok(*p),
        i <= s.segs@.len(),
    ensures
        r == is_dropped(s@, *p, i as int),
{
    if i == 0 || i >= s.segs.len() || curve_at(s, i) {
        return false;
    }
    let a = point_of(s, i - 1);
    let b = point_of(s, i);
    let c = point_of(s, i + 1);
    !turns_at(a, b, c, p.collinear_cos) && !turns_at(a, b, c, p.corner_cos)
}

fn simplify_curved(s: &SubPath, p: &Simplifier) -> (r: SubPath)
    requires
        outline_ok(s@),
        simplifier_ok(*p),
    ensures
        r@ == (Outline {
            start: snapped_pt(s@.start, p.snap_px as int),
            segs: bridged(s@, *p, s@.segs.len() as int),
            closed: s@.closed,
        }),
        outline_ok(r@),
{
    let n: usize = s.segs.len();
    let mut segs: Vec<Seg> = Vec::new();
    let mut kept: usize = 0;
    let mut i: usize = 0;
    while i < n
        invariant
            n == s.segs@.len(),
            i <= n,
            outline_ok(s@),
            simplifier_ok(*p),
            kept <= i,
            kept < n || i == n,
            kept == kept_before(s@, *p, i + 1),
            segs@ == bridged(s@, *p, i as int),
            forall|j: int| 0 <= j < segs@.len() ==> seg_ok(#[trigger] segs@[j]),
        decreases n - i,
    {
        i = i + 1;
        if !dropped(s, p, i) {
            let end = point_of(s, i);
            assert(seg_ok(s@.segs[kept as int]));
            let seg = match s.segs[kept] {
                Seg::Line { .. } => Seg::Line { end },
                Seg::Cubic { c1, c2, .. } => Seg::Cubic { c1, c2, end },
            };
            segs.push(snap_seg(seg, p.snap_px));
            kept = i;
        }
    }
    SubPath { start: snap_pt(s.start, p.snap_px), segs, closed: s.closed }
}

/// The first anchor stays.
proof fn first_stays(o: Outline, p: Simplifier)
    ensures
        left_anchors(o, p).len() >= 1,
        left_anchors(o, p)[0] == anchors_of(o, p.corner_cos as int)[0],
{
    let a = anchors_of(o, p.corner_cos as int);
    let b = merged(a, p.collinear_cos as int, a.len() as int);
    merged_starts(a, p.collinear_cos as int, a.len() as int);
    assert(a[0].pinned);
    straightened_starts(b, p.rdp_px as int, b.len() as int);
    thinned_ends(straightened(b, p.rdp_px as int, b.len() as int), p.vis_area_px2 as int);
}

proof fn straightened_starts(s: Seq<Anchor>, limit: int, n: int)
    requires
        1 <= n <= s.len(),
        s[0].pinned,
    ensures
        straightened(s, limit, n).len() >= 1,
        straightened(s, limit, n)[0] == s[0],
    decreases n,
{
    if n > 1 {
        straightened_starts(s, limit, n - 1);
    } else {
        assert(straightened(s, limit, 0).len() == 0);
    }
}

proof fn thinned_ends(s: Seq<Anchor>, limit: int)
    requires
        s.len() >= 1,
    ensures
        thinned(s, limit).len() >= 1,
        thinned(s, limit)[0] == s[0],
        thinned(s, limit).last() == s.last(),
        thinned(s, limit).len() <= s.len(),
    decreases s.len(),
{
    least_spans_least(s, s.len() - 1);
    if let Some(m) = least_spanned(s, s.len() - 1) {
        if 0 < m < s.len() && spanned(s, m) < 20 * limit {
            thinned_ends(s.remove(m), limit);
        }
    }
}

/// Simplifies one outline.
pub fn simplify_subpath(s: &SubPath, p: &Simplifier) -> (r: SubPath)
    requires
        outline_ok(s@),
        simplifier_ok(*p),
    ensures
        r@ == simplified(s@, *p),
        outline_ok(r@),
{
    if find_curve(s) {
        return simplify_curved(s, p);
    }
    let a = pin_mask(s, p.corner_cos);
    let b = filter_collinear(&a, p.collinear_cos);
    let c = rdp_pass(&b, p.rdp_px);
    let d = visvalingam_pass(c, p.vis_area_px2);
    proof {
        first_stays(s@, *p);
    }
    rebuild(&d, s.closed, p.snap_px)
}

// ---- writing ------------------------------------------------------------------------

/// A coordinate with two decimals.
pub open spec fn coord_text(v: int) -> Seq<char> {
    let a = if v < 0 {
        -v
    } else {
        v
    };
    (if v < 0 {
        "-"@
    } else {
        ""@
    }) + text::decimal((a / 100) as nat) + "."@ + seq![
        text::digit_char(a / 10 % 10),
        text::digit_char(a % 10),
    ]
}

/// A point.
pub open spec fn pt_text(p: Pt) -> Seq<char> {
    coord_text(p.x as int) + ","@ + coord_text(p.y as int)
}

/// A segment.
pub open spec fn seg_text(s: Seg) -> Seq<char> {
    match s {
        Seg::Line { end } => " L"@ + pt_text(end),
        Seg::Cubic { c1, c2, end } => " C"@ + pt_text(c1) + " "@ + pt_text(c2) + " "@ + pt_text(end),
    }
}

/// The first `n` segments.
pub open spec fn segs_text(s: Seq<Seg>, n: int) -> Seq<char>
    decreases n,
{
    if n <= 0 {
        Seq::empty()
    } else {
        segs_text(s, n - 1) + seg_text(s[n - 1])
    }
}

/// An outline.
pub open spec fn outline_text(o: Outline) -> Seq<char> {
    "M"@ + pt_text(o.start) + segs_text(o.segs, o.segs.len() as int) + if o.closed {
        " Z"@
    } else {
        ""@
    }
}

/// The first `n` outlines, apart by a space; those without a segment are left
/// out.
pub open spec fn path_text(s: Seq<Outline>, n: int) -> Seq<char>
    decreases n,
{
    if n <= 0 {
        Seq::empty()
    } else {
        let before = path_text(s, n - 1);
        if s[n - 1].segs.len() == 0 {
            before
        } else if before.len() == 0 {
            outline_text(s[n - 1])
        } else {
            before + " "@ + outline_text(s[n - 1])
        }
    }
}

fn push_coord(out: &mut String, v: i64)
    requires
        -MAX_COORD <= v <= MAX_COORD,
    ensures
        final(out)@ == old(out)@ + coord_text(v as int),
{
    let a: u64 = if v < 0 {
        (-v) as u64
    } else {
        v as u64
    };
    proof {
        reveal_strlit("");
    }
    if v < 0 {
        out.append("-");
    }
    text::push_decimal(out, a / 100);
    out.append(".");
    text::push_digit(out, (a / 10 % 10) as u8);
    text::push_digit(out, (a % 10) as u8);
    assert(out@ =~= old(out)@ + coord_text(v as int));
}

fn push_pt(out: &mut String, p: Pt)
    requires
        pt_ok(p),
    ensures
        final(out)@ == old(out)@ + pt_text(p),
{
    push_coord(out, p.x);
    out.append(",");
    push_coord(out, p.y);
    assert(out@ =~= old(out)@ + pt_text(p));
}

fn push_seg_text(out: &mut String, s: Seg)
    requires
        seg_ok(s),
    ensures
        final(out)@ == old(out)@ + seg_text(s),
{
    match s {
        Seg::Line { end } => {
            out.append(" L");
            push_pt(out, end);
        },
        Seg::Cubic { c1, c2, end } => {
            out.append(" C");
            push_pt(out, c1);
            out.append(" ");
            push_pt(out, c2);
            out.append(" ");
            push_pt(out, end);
        },
    }
    assert(out@ =~= old(out)@ + seg_text(s));
}

fn push_outline(out: &mut String, s: &SubPath)
    requires
        outline_ok(s@),
    ensures
        final(out)@ == old(out)@ + outline_text(s@),
{
    proof {
        reveal_strlit("");
    }
    out.append("M");
    push_pt(out, s.start);
    let ghost head = "M"@ + pt_text(s.start);
    assert(out@ =~= old(out)@ + head);
    let mut i: usize = 0;
    assert(segs_text(s@.segs, 0) =~= Seq::<char>::empty());
    assert(out@ =~= old(out)@ + head + segs_text(s@.segs, 0));
    while i < s.segs.len()
        invariant
            i <= s.segs@.len(),
            outline_ok(s@),
            out@ == old(out)@ + head + segs_text(s@.segs, i as int),
        decreases s.segs@.len() - i,
    {
        assert(seg_ok(s@.segs[i as int]));
        push_seg_text(out, s.segs[i]);
        i = i + 1;
        assert(out@ =~= old(out)@ + head + segs_text(s@.segs, i as int));
    }
    if s.closed {
        out.append(" Z");
    }
    assert(out@ =~= old(out)@ + outline_text(s@));
}

/// Appends an outline to a path; one without a segment is left out.
pub fn emit(s: &SubPath, out: &mut String)
    requires
        outline_ok(s@),
    ensures
        final(out)@ == (if s@.segs.len() == 0 {
            old(out)@
        } else if old(out)@.len() == 0 {
            outline_text(s@)
        } else {
            old(out)@ + " "@ + outline_text(s@)
        }),
{
    if s.segs.len() == 0 {
        return;
    }
    let empty: bool = out.as_str().unicode_len() == 0;
    if !empty {
        out.append(" ");
    }
    push_outline(out, s);
    assert(empty ==> out@ =~= outline_text(s@));
}

/// What simplifying each outline of a path gives.
pub open spec fn all_simplified(s: Seq<Outline>, p: Simplifier) -> Seq<Outline> {
    Seq::new(s.len(), |i: int| simplified(s[i], p))
}

/// Simplifies a path and writes it down.
pub fn simplify_path(ops: &Vec<PathOp>, p: &Simplifier) -> (r: String)
    requires
        forall|i: int| 0 <= i < ops@.len() ==> op_ok(#[trigger] ops@[i]),
        simplifier_ok(*p),
    ensures
        r@ == path_text(all_simplified(parsed(ops@), *p), parsed(ops@).len() as int),
{
    let subs = parse_subpaths(ops);
    let ghost all = all_simplified(parsed(ops@), *p);
    let mut out = String::new();
    let mut i: usize = 0;
    assert(out@ =~= path_text(all, 0));
    while i < subs.len()
        invariant
            i <= subs@.len(),
            views(subs@) == parsed(ops@),
            forall|i: int| 0 <= i < subs@.len() ==> outline_ok((#[trigger] subs@[i])@),
            simplifier_ok(*p),
            all == all_simplified(parsed(ops@), *p),
            out@ == path_text(all, i as int),
        decreases subs@.len() - i,
    {
        let s = simplify_subpath(&subs[i], p);
        proof {
            assert(views(subs@)[i as int] == subs@[i as int]@);
            assert(all[i as int] == s@);
        }
        emit(&s, &mut out);
        i = i + 1;
    }
    assert(views(subs@).len() == subs@.len());
    out
}

// ---- what simplifying keeps ---------------------------------------------------------

proof fn merged_keeps(s: Seq<Anchor>, k: int, n: int, i: int)
    requires
        0 <= i < n <= s.len(),
        s[i].pinned,
    ensures
        merged(s, k, n).contains(s[i]),
    decreases n,
{
    let m = merged(s, k, n - 1);
    if i < n - 1 {
        merged_keeps(s, k, n - 1, i);
        let j = choose|j: int| 0 <= j < m.len() && m[j] == s[i];
        assert(merged(s, k, n)[j] == s[i]);
    } else {
        assert(merged(s, k, n)[m.len() as int] == s[i]);
    }
}

proof fn straightened_keeps(s: Seq<Anchor>, limit: int, n: int, i: int)
    requires
        0 <= i < n <= s.len(),
        s[i].pinned,
    ensures
        straightened(s, limit, n).contains(s[i]),
    decreases n,
{
    let m = straightened(s, limit, n - 1);
    if i < n - 1 {
        straightened_keeps(s, limit, n - 1, i);
        let j = choose|j: int| 0 <= j < m.len() && m[j] == s[i];
        assert(straightened(s, limit, n)[j] == s[i]);
    } else {
        assert(straightened(s, limit, n)[m.len() as int] == s[i]);
    }
}

proof fn thinned_keeps(s: Seq<Anchor>, limit: int, i: int)
    requires
        0 <= i < s.len(),
        s[i].pinned,
    ensures
        thinned(s, limit).contains(s[i]),
    decreases s.len(),
{
    least_spans_least(s, s.len() - 1);
    match least_spanned(s, s.len() - 1) {
        Some(m) => {
            if 0 < m < s.len() && spanned(s, m) < 20 * limit {
                let j = if i < m {
                    i
                } else {
                    i - 1
                };
                assert(s.remove(m)[j] == s[i]);
                thinned_keeps(s.remove(m), limit, j);
            }
        },
        None => {},
    }
}

/// An end or a corner of a straight outline stays, snapped, whatever the limits.
pub proof fn corners_survive(o: Outline, p: Simplifier, i: int)
    requires
        !has_curve(o),
        0 <= i <= o.segs.len(),
        is_pinned(o, p.corner_cos as int, i),
    ensures
        exists|j: int|
            0 <= j <= simplified(o, p).segs.len() && #[trigger] point(simplified(o, p), j) == snapped_pt(
                point(o, i),
                p.snap_px as int,
            ),
{
    let a = anchors_of(o, p.corner_cos as int);
    let b = merged(a, p.collinear_cos as int, a.len() as int);
    let c = straightened(b, p.rdp_px as int, b.len() as int);
    let d = thinned(c, p.vis_area_px2 as int);
    merged_keeps(a, p.collinear_cos as int, a.len() as int, i);
    let x = choose|x: int| 0 <= x < b.len() && b[x] == a[i];
    straightened_keeps(b, p.rdp_px as int, b.len() as int, x);
    let y = choose|y: int| 0 <= y < c.len() && c[y] == a[i];
    thinned_keeps(c, p.vis_area_px2 as int, y);
    let z = choose|z: int| 0 <= z < d.len() && d[z] == a[i];
    assert(point(simplified(o, p), z) == snapped_pt(point(o, i), p.snap_px as int));
}

proof fn bridged_prefix(o: Outline, p: Simplifier, m: int, n: int)
    requires
        0 <= m <= n,
    ensures
        bridged(o, p, m).len() <= bridged(o, p, n).len(),
        forall|j: int| 0 <= j < bridged(o, p, m).len() ==> #[trigger] bridged(o, p, n)[j] == bridged(o, p, m)[j],
    decreases n,
{
    if m < n {
        bridged_prefix(o, p, m, n - 1);
    }
}

/// A curve stays a curve, its three points snapped, whatever the limits.
pub proof fn curves_survive(o: Outline, p: Simplifier, i: int)
    requires
        0 <= i < o.segs.len(),
        o.segs[i] is Cubic,
    ensures
        simplified(o, p).segs.contains(snapped_seg(o.segs[i], p.snap_px as int)),
{
    let n = o.segs.len() as int;
    assert(beside_curve(o, i) && beside_curve(o, i + 1));
    assert(kept_before(o, p, i + 1) == i);
    let b = bridged(o, p, i + 1);
    assert(ending_at(o.segs[i], point(o, i + 1)) == o.segs[i]);
    assert(b.last() == snapped_seg(o.segs[i], p.snap_px as int));
    bridged_prefix(o, p, i + 1, n);
    assert(bridged(o, p, n)[b.len() - 1] == b.last());
}

proof fn merged_shrinks(s: Seq<Anchor>, k: int, n: int)
    requires
        0 <= n <= s.len(),
    ensures
        merged(s, k, n).len() <= n,
    decreases n,
{
    if n > 0 {
        merged_shrinks(s, k, n - 1);
    }
}

proof fn straightened_shrinks(s: Seq<Anchor>, limit: int, n: int)
    requires
        0 <= n <= s.len(),
    ensures
        straightened(s, limit, n).len() <= n,
    decreases n,
{
    if n > 0 {
        straightened_shrinks(s, limit, n - 1);
    }
}

proof fn bridged_shrinks(o: Outline, p: Simplifier, n: int)
    requires
        0 <= n,
    ensures
        bridged(o, p, n).len() <= n,
    decreases n,
{
    if n > 0 {
        bridged_shrinks(o, p, n - 1);
    }
}

/// An outline never gets more segments.
pub proof fn never_longer(o: Outline, p: Simplifier)
    ensures
        simplified(o, p).segs.len() <= o.segs.len(),
{
    let a = anchors_of(o, p.corner_cos as int);
    let b = merged(a, p.collinear_cos as int, a.len() as int);
    let c = straightened(b, p.rdp_px as int, b.len() as int);
    merged_shrinks(a, p.collinear_cos as int, a.len() as int);
    straightened_shrinks(b, p.rdp_px as int, b.len() as int);
    first_stays(o, p);
    merged_starts(a, p.collinear_cos as int, a.len() as int);
    straightened_starts(b, p.rdp_px as int, b.len() as int);
    thinned_ends(c, p.vis_area_px2 as int);
    bridged_shrinks(o, p, o.segs.len() as int);
}

proof fn merged_last(s: Seq<Anchor>, k: int)
    requires
        s.len() >= 1,
    ensures
        merged(s, k, s.len() as int).len() >= 1,
        merged(s, k, s.len() as int).last() == s.last(),
{
}

/// An outline starts and ends where it did, but for snapping.
pub proof fn ends_stay(o: Outline, p: Simplifier)
    ensures
        simplified(o, p).start == snapped_pt(o.start, p.snap_px as int),
        point(simplified(o, p), simplified(o, p).segs.len() as int) == snapped_pt(
            point(o, o.segs.len() as int),
            p.snap_px as int,
        ),
        simplified(o, p).closed == o.closed,
{
    let n = o.segs.len() as int;
    let a = anchors_of(o, p.corner_cos as int);
    let b = merged(a, p.collinear_cos as int, a.len() as int);
    let c = straightened(b, p.rdp_px as int, b.len() as int);
    let d = thinned(c, p.vis_area_px2 as int);
    if has_curve(o) {
        assert(!is_dropped(o, p, n));
        let last = bridged(o, p, n).last();
        assert(end_of(last) == snapped_pt(point(o, n), p.snap_px as int));
    } else {
        first_stays(o, p);
        merged_last(a, p.collinear_cos as int);
        assert(a.last().pinned);
        assert(c.len() >= 1 && c.last() == b.last());
        thinned_ends(c, p.vis_area_px2 as int);
        let r = simplified(o, p);
        if d.len() > 1 {
            assert(r.segs[r.segs.len() - 1] == (Seg::Line {
                end: snapped_pt(d[d.len() - 1].at, p.snap_px as int),
            }));
        }
    }
}

/// Every pass is turned off.
pub open spec fn is_off(p: Simplifier) -> bool {
    p.collinear_cos == COS_ONE && p.rdp_px == 0 && p.vis_area_px2 == 0 && p.snap_px == 0
}

proof fn off_anchors(s: Seq<Anchor>, n: int)
    requires
        0 <= n <= s.len(),
    ensures
        merged(s, COS_ONE as int, n) == s.subrange(0, n),
        straightened(s, 0, n) == s.subrange(0, n),
    decreases n,
{
    if n > 0 {
        off_anchors(s, n - 1);
        let m = merged(s, COS_ONE as int, n - 1);
        if 1 < n < s.len() {
            all_turn(m.last().at, s[n - 1].at, s[n].at);
        }
        assert(s.subrange(0, n - 1).push(s[n - 1]) =~= s.subrange(0, n));
    } else {
        assert(s.subrange(0, 0) =~= Seq::<Anchor>::empty());
    }
}

proof fn off_bridges(o: Outline, p: Simplifier, n: int)
    requires
        is_off(p),
        0 <= n <= o.segs.len(),
    ensures
        bridged(o, p, n) == o.segs.subrange(0, n),
    decreases n,
{
    if n > 0 {
        off_bridges(o, p, n - 1);
        assert forall|i: int| !is_dropped(o, p, i) by {
            all_turn(point(o, i - 1), point(o, i), point(o, i + 1));
        }
        assert(kept_before(o, p, n) == n - 1);
        assert(ending_at(o.segs[n - 1], point(o, n)) == o.segs[n - 1]);
        assert(o.segs.subrange(0, n - 1).push(o.segs[n - 1]) =~= o.segs.subrange(0, n));
    } else {
        assert(o.segs.subrange(0, 0) =~= Seq::<Seg>::empty());
    }
}

/// With every pass turned off an outline stays as it is.
pub proof fn off_changes_nothing(o: Outline, p: Simplifier)
    requires
        is_off(p),
    ensures
        simplified(o, p) == o,
{
    let n = o.segs.len() as int;
    if has_curve(o) {
        off_bridges(o, p, n);
        assert(o.segs.subrange(0, n) =~= o.segs);
    } else {
        let a = anchors_of(o, p.corner_cos as int);
        off_anchors(a, a.len() as int);
        assert(a.subrange(0, a.len() as int) =~= a);
        assert(thinned(a, 0) == a) by {
            least_spans_least(a, a.len() - 1);
        }
        let r = simplified(o, p);
        assert forall|i: int| 0 <= i < n implies #[trigger] r.segs[i] == o.segs[i] by {
            assert(!(o.segs[i] is Cubic));
            assert(a[i + 1].at == point(o, i + 1));
        }
        assert(r.segs =~= o.segs);
    }
}

// ---- what the geometry means --------------------------------------------------------

proof fn squares_order(a: int, b: int)
    ensures
        0 <= a && 0 <= b ==> (a * a <= b * b) == (a <= b),
{
    if 0 <= a && 0 <= b {
        if a <= b {
            assert(a * a <= b * b) by (nonlinear_arith)
                requires
                    0 <= a <= b,
            ;
        } else {
            assert(a * a > b * b) by (nonlinear_arith)
                requires
                    0 <= b < a,
            ;
        }
    }
}

/// A path turns at `b` exactly where the cosine between its two sides is at most
/// `k` billionths; `s` is the product of the sides' lengths.
pub proof fn turns_compare_the_cosine(a: Pt, b: Pt, c: Pt, k: int, s: int)
    requires
        s > 0,
        s * s == ((b.x - a.x) * (b.x - a.x) + (b.y - a.y) * (b.y - a.y)) * ((c.x - b.x) * (c.x - b.x) + (c.y - b.y) * (
        c.y - b.y)),
    ensures
        turns(a, b, c, k) == (1_000_000_000 * ((b.x - a.x) * (c.x - b.x) + (b.y - a.y) * (c.y - b.y)) <= k * s),
{
    let d = dot(a, b, c);
    let l = len2(a, b) * len2(b, c);
    let o = 1_000_000_000int;
    assert(s * s > 0) by (nonlinear_arith)
        requires
            s > 0,
    ;
    let u = o * d;
    let v = k * s;
    assert((d * d) * (o * o) == u * u) by (nonlinear_arith)
        requires
            u == o * d,
    ;
    assert((k * k) * l == v * v) by (nonlinear_arith)
        requires
            v == k * s,
            s * s == l,
    ;
    assert((k >= 0 ==> v >= 0) && (k < 0 ==> v < 0)) by (nonlinear_arith)
        requires
            v == k * s,
            s > 0,
    ;
    squares_order(u, v);
    squares_order(-v, -u);
    assert((-u) * (-u) == u * u && (-v) * (-v) == v * v) by (nonlinear_arith);
}

/// A right angle turns where the cosine may be zero or more.
pub proof fn right_angles_turn(a: Pt, b: Pt, c: Pt, k: int)
    requires
        a != b,
        b != c,
        (b.x - a.x) * (c.x - b.x) + (b.y - a.y) * (c.y - b.y) == 0,
    ensures
        turns(a, b, c, k) == (k >= 0),
{
    let l = len2(a, b) * len2(b, c);
    apart(a, b);
    apart(b, c);
    assert(l > 0) by (nonlinear_arith)
        requires
            l == len2(a, b) * len2(b, c),
            len2(a, b) > 0,
            len2(b, c) > 0,
    ;
    assert((k * k) * l >= 0) by (nonlinear_arith)
        requires
            l > 0,
    ;
    assert((0int * 0int) * (1_000_000_000int * 1_000_000_000int) == 0);
}

proof fn apart(a: Pt, b: Pt)
    requires
        a != b,
    ensures
        len2(a, b) > 0,
{
    let x = b.x - a.x;
    let y = b.y - a.y;
    assert(x * x + y * y > 0) by (nonlinear_arith)
        requires
            x != 0 || y != 0,
    ;
}

/// Turning does not depend on the direction in which the path is followed.
pub proof fn turns_look_the_same_from_both_ends(a: Pt, b: Pt, c: Pt, k: int)
    ensures
        turns(a, b, c, k) == turns(c, b, a, k),
{
    assert(dot(a, b, c) == dot(c, b, a)) by (nonlinear_arith);
    assert(len2(a, b) * len2(b, c) == len2(c, b) * len2(b, a)) by (nonlinear_arith);
}

proof fn square_of_difference(p: int, q: int)
    ensures
        (p - q) * (p - q) == p * p - 2 * (p * q) + q * q,
{
    assert((p - q) * (p - q) == p * p - 2 * (p * q) + q * q) by (nonlinear_arith);
}

proof fn along_an_axis(n: int, t: int, u: int, v: int)
    ensures
        (n * u - t * v) * (n * u - t * v) == (n * n) * (u * u) - 2 * ((n * t) * (u * v)) + (t * t) * (v * v),
{
    square_of_difference(n * u, t * v);
    assert((n * u) * (n * u) == (n * n) * (u * u)) by (nonlinear_arith);
    assert((n * u) * (t * v) == (n * t) * (u * v)) by (nonlinear_arith);
    assert((t * v) * (t * v) == (t * t) * (v * v)) by (nonlinear_arith);
}

proof fn along_the_segment(n: int, t: int, ux: int, uy: int, vx: int, vy: int)
    ensures
        (n * ux - t * vx) * (n * ux - t * vx) + (n * uy - t * vy) * (n * uy - t * vy) == (n * n) * (ux * ux + uy * uy)
            - 2 * ((n * t) * (ux * vx + uy * vy)) + (t * t) * (vx * vx + vy * vy),
{
    along_an_axis(n, t, ux, vx);
    along_an_axis(n, t, uy, vy);
    vstd::arithmetic::mul::lemma_mul_is_distributive_add(n * n, ux * ux, uy * uy);
    vstd::arithmetic::mul::lemma_mul_is_distributive_add(n * t, ux * vx, uy * vy);
    vstd::arithmetic::mul::lemma_mul_is_distributive_add(t * t, vx * vx, vy * vy);
}

proof fn cross_and_dot(ux: int, uy: int, vx: int, vy: int)
    ensures
        (vx * uy - vy * ux) * (vx * uy - vy * ux) == (vx * vx + vy * vy) * (ux * ux + uy * uy) - (ux * vx + uy * vy) * (
        ux * vx + uy * vy),
{
    let a = vx * uy;
    let b = vy * ux;
    let c = ux * vx;
    let e = uy * vy;
    square_of_difference(a, b);
    assert((c + e) * (c + e) == c * c + 2 * (c * e) + e * e) by (nonlinear_arith);
    assert(a * b == c * e) by (nonlinear_arith)
        requires
            a == vx * uy,
            b == vy * ux,
            c == ux * vx,
            e == uy * vy,
    ;
    assert((vx * vx) * (ux * ux) == c * c) by (nonlinear_arith)
        requires
            c == ux * vx,
    ;
    assert((vx * vx) * (uy * uy) == a * a) by (nonlinear_arith)
        requires
            a == vx * uy,
    ;
    assert((vy * vy) * (ux * ux) == b * b) by (nonlinear_arith)
        requires
            b == vy * ux,
    ;
    assert((vy * vy) * (uy * uy) == e * e) by (nonlinear_arith)
        requires
            e == uy * vy,
    ;
    vstd::arithmetic::mul::lemma_mul_is_distributive_add_other_way(ux * ux + uy * uy, vx * vx, vy * vy);
    vstd::arithmetic::mul::lemma_mul_is_distributive_add(vx * vx, ux * ux, uy * uy);
    vstd::arithmetic::mul::lemma_mul_is_distributive_add(vy * vy, ux * ux, uy * uy);
}

proof fn beyond_the_end(n: int, t: int, d: int, l: int, u2: int)
    requires
        0 <= t <= n,
        0 < l <= d,
    ensures
        (n * n) * (u2 - 2 * d + l) <= (n * n) * u2 - 2 * ((n * t) * d) + (t * t) * l,
{
    let a = n * n - n * t;
    assert(a >= 0) by (nonlinear_arith)
        requires
            a == n * n - n * t,
            0 <= t <= n,
    ;
    square_of_difference(n, t);
    assert((n - t) * (n - t) >= 0) by (nonlinear_arith);
    assert(a * d >= a * l) by (nonlinear_arith)
        requires
            a >= 0,
            d >= l,
    ;
    let g = n * n - t * t;
    assert((2 * a) * l >= g * l) by (nonlinear_arith)
        requires
            2 * a >= g,
            l > 0,
    ;
    assert((2 * a) * l == 2 * (a * l)) by (nonlinear_arith);
    vstd::arithmetic::mul::lemma_mul_is_distributive_sub_other_way(d, n * n, n * t);
    vstd::arithmetic::mul::lemma_mul_is_distributive_sub_other_way(l, n * n, t * t);
    assert((n * n) * (u2 - 2 * d + l) == (n * n) * u2 - 2 * ((n * n) * d) + (n * n) * l) by (nonlinear_arith);
}

proof fn beside_the_segment(n: int, t: int, d: int, l: int, u2: int)
    ensures
        (n * n) * (l * u2 - d * d) <= l * ((n * n) * u2 - 2 * ((n * t) * d) + (t * t) * l),
{
    let z = n * d - t * l;
    square_of_difference(n * d, t * l);
    assert(z * z >= 0) by (nonlinear_arith);
    assert((n * d) * (n * d) == (n * n) * (d * d)) by (nonlinear_arith);
    assert((n * d) * (t * l) == l * ((n * t) * d)) by (nonlinear_arith);
    assert((t * l) * (t * l) == l * ((t * t) * l)) by (nonlinear_arith);
    assert((n * n) * (l * u2) == l * ((n * n) * u2)) by (nonlinear_arith);
    vstd::arithmetic::mul::lemma_mul_is_distributive_sub(n * n, l * u2, d * d);
    let x = (n * n) * u2;
    let y = (n * t) * d;
    let w = (t * t) * l;
    assert(l * (x - 2 * y + w) == l * x - 2 * (l * y) + l * w) by (nonlinear_arith);
}

/// The distance of `p` from the segment `a b` is the least: no point of the
/// segment, `t` parts of `n` along it, is nearer.
pub proof fn reach_is_the_least_distance(p: Pt, a: Pt, b: Pt, t: int, n: int)
    requires
        0 <= t <= n,
        0 < n,
        a != b,
    ensures
        ({
            let l = (b.x - a.x) * (b.x - a.x) + (b.y - a.y) * (b.y - a.y);
            let dx = n * (p.x - a.x) - t * (b.x - a.x);
            let dy = n * (p.y - a.y) - t * (b.y - a.y);
            (n * n) * reach(p, a, b) <= l * (dx * dx + dy * dy)
        }),
{
    let ux = p.x - a.x;
    let uy = p.y - a.y;
    let vx = b.x - a.x;
    let vy = b.y - a.y;
    let l = len2(a, b);
    let d = ux * vx + uy * vy;
    let u2 = ux * ux + uy * uy;
    let dx = n * ux - t * vx;
    let dy = n * uy - t * vy;
    apart(a, b);
    let q = dx * dx + dy * dy;
    along_the_segment(n, t, ux, uy, vx, vy);
    assert(q == (n * n) * u2 - 2 * ((n * t) * d) + (t * t) * l);
    let r = reach(p, a, b);
    if d <= 0 {
        assert(r == u2 * l);
        assert((n * t) * d <= 0 && (t * t) * l >= 0) by (nonlinear_arith)
            requires
                n > 0,
                t >= 0,
                d <= 0,
                l > 0,
        ;
        let w = (n * n) * u2;
        assert((n * n) * (u2 * l) == l * w) by (nonlinear_arith)
            requires
                w == (n * n) * u2,
        ;
        assert(l * w <= l * q) by (nonlinear_arith)
            requires
                w <= q,
                l > 0,
        ;
    } else if d >= l {
        let e = u2 - 2 * d + l;
        assert((ux - vx) * (ux - vx) + (uy - vy) * (uy - vy) == (ux * ux + uy * uy) - 2 * (ux * vx + uy * vy) + (vx
            * vx + vy * vy)) by (nonlinear_arith);
        assert(p.x - b.x == ux - vx && p.y - b.y == uy - vy);
        assert(len2(b, p) == e);
        let w = (n * n) * e;
        beyond_the_end(n, t, d, l, u2);
        assert((n * n) * (e * l) == l * w) by (nonlinear_arith)
            requires
                w == (n * n) * e,
        ;
        assert(l * w <= l * q) by (nonlinear_arith)
            requires
                w <= q,
                l > 0,
        ;
    } else {
        let x = cross(a, b, p);
        cross_and_dot(ux, uy, vx, vy);
        assert(x == vx * uy - vy * ux);
        assert(x * x == l * u2 - d * d);
        beside_the_segment(n, t, d, l, u2);
    }
}

/// The area spanned by three anchors, doubled, by the shoelace formula.
pub proof fn spanned_is_the_shoelace_area(s: Seq<Anchor>, i: int)
    requires
        0 < i < s.len() - 1,
    ensures
        ({
            let a = s[i - 1].at;
            let b = s[i].at;
            let c = s[i + 1].at;
            let area = a.x * (b.y - c.y) + b.x * (c.y - a.y) + c.x * (a.y - b.y);
            &&& spanned(s, i) >= 0
            &&& spanned(s, i) == area || spanned(s, i) == -area
        }),
{
    let a = s[i - 1].at;
    let b = s[i].at;
    let c = s[i + 1].at;
    assert((b.x - a.x) * (c.y - a.y) - (b.y - a.y) * (c.x - a.x) == a.x * (b.y - c.y) + b.x * (c.y - a.y) + c.x * (
    a.y - b.y)) by (nonlinear_arith);
}

/// A snapped coordinate is the nearest whole pixel where that is near enough, and
/// else the coordinate itself. A pixel is a hundred units.
pub proof fn snapping_takes_the_nearest_pixel(v: int, limit: int, r: int, w: int)
    requires
        r == snapped_coord(v, limit),
        w % 100 == 0,
        0 <= limit,
    ensures
        r == v || (r % 100 == 0 && -50 <= r - v <= 50 && 10 * (r - v) <= limit && 10 * (v - r) <= limit),
        -50 < w - v < 50 && 10 * (w - v) <= limit && 10 * (v - w) <= limit ==> r == w,
        -50 < w - v < 50 && (10 * (w - v) > limit || 10 * (v - w) > limit) ==> r == v,
{
}

/// The control points of a raised curve lie two thirds of the way from each end to
/// the quadratic's control point, to the nearest unit.
pub proof fn raised_curves_keep_their_shape(end: Pt, q: Pt)
    requires
        pt_ok(end),
        pt_ok(q),
    ensures
        -1 <= 3 * elevated(end, q).x - (end.x + 2 * q.x) <= 1,
        -1 <= 3 * elevated(end, q).y - (end.y + 2 * q.y) <= 1,
{
}

proof fn moves_are_counted(ops: Seq<PathOp>, n: int)
    requires
        0 <= n <= ops.len(),
    ensures
        flushed(read(ops, n)).len() == counting::count_below(|i: int| ops[i] is Move, n),
        (read(ops, n).cur is None) == (counting::count_below(|i: int| ops[i] is Move, n) == 0),
    decreases n,
{
    if n > 0 {
        moves_are_counted(ops, n - 1);
        counting::count_bounds(|i: int| ops[i] is Move, n - 1);
    }
}

/// Every move starts an outline, and nothing else does.
pub proof fn moves_start_outlines(ops: Seq<PathOp>)
    ensures
        parsed(ops).len() == counting::count_below(|i: int| ops[i] is Move, ops.len() as int),
{
    moves_are_counted(ops, ops.len() as int);
}

/// Thinning leaves no anchor, corners and ends aside, that spans less than the
/// limit with its neighbours. Twice the area is counted, in units of a hundredth.
pub proof fn thinning_leaves_no_flat_anchor(s: Seq<Anchor>, limit: int, i: int)
    requires
        0 < i < thinned(s, limit).len() - 1,
        !thinned(s, limit)[i].pinned,
    ensures
        ({
            let r = thinned(s, limit);
            let a = r[i - 1].at;
            let b = r[i].at;
            let c = r[i + 1].at;
            let twice = a.x * (b.y - c.y) + b.x * (c.y - a.y) + c.x * (a.y - b.y);
            twice >= 20 * limit || -twice >= 20 * limit
        }),
    decreases s.len(),
{
    least_spans_least(s, s.len() - 1);
    match least_spanned(s, s.len() - 1) {
        Some(m) => {
            if spanned(s, m) < 20 * limit {
                thinning_leaves_no_flat_anchor(s.remove(m), limit, i);
            } else {
                assert(spanned(s, m) <= spanned(s, i));
                spanned_is_the_shoelace_area(s, i);
            }
        },
        None => {
            assert(s[i].pinned);
        },
    }
}

/// A coordinate is written as a whole number of pixels, a point and two digits that
/// together read as its hundredths, behind a sign where it is negative.
pub proof fn coordinates_are_written_in_hundredths(v: int) -> (r: (Seq<char>, Seq<char>))
    ensures
        coord_text(v) == (if v < 0 {
            "-"@
        } else {
            ""@
        }) + r.0 + "."@ + r.1,
        r.1.len() == 2,
        v >= 0 ==> text::number_of(r.0 + r.1, v) == Ok::<int, text::NumberFault>(v),
        v < 0 ==> text::number_of(r.0 + r.1, -v) == Ok::<int, text::NumberFault>(-v),
{
    let a = if v < 0 {
        -v
    } else {
        v
    };
    let left = text::decimal((a / 100) as nat);
    let x = text::digit_char(a / 10 % 10);
    let y = text::digit_char(a % 10);
    let right = seq![x, y];
    text::decimal_is_digits((a / 100) as nat);
    text::decimal_round_trip((a / 100) as nat, a);
    assert(left[0] != '+');
    text::digits_count_by_place(left, x, a);
    text::digits_count_by_place(left.push(x), y, a);
    assert(left.push(x).push(y) =~= left + right);
    (left, right)
}

proof fn between_lies_near(s: Seq<Anchor>, limit: int, lo: int, hi: int, l: int, i: int, r: int)
    requires
        lo <= l < i < r <= hi,
        l == lo || stays_between(s, limit, lo, hi, l),
        r == hi || stays_between(s, limit, lo, hi, r),
        forall|j: int| l < j < r ==> !#[trigger] stays_between(s, limit, lo, hi, j),
    ensures
        !is_far(s[i].at, s[l].at, s[r].at, limit),
    decreases hi - lo,
{
    let f = farthest(s, lo, hi, hi - 1);
    farthest_is_farthest(s, lo, hi, hi - 1);
    if !is_far(s[f].at, s[lo].at, s[hi].at, limit) {
        assert(reach(s[i].at, s[lo].at, s[hi].at) <= reach(s[f].at, s[lo].at, s[hi].at));
    } else {
        assert(stays_between(s, limit, lo, hi, f));
        if r <= f {
            if l != lo && !stays_between(s, limit, lo, f, l) {
                stays_inside(s, limit, f, hi, l);
            }
            if r != f && !stays_between(s, limit, lo, f, r) {
                stays_inside(s, limit, f, hi, r);
            }
            assert forall|j: int| l < j < r implies !#[trigger] stays_between(s, limit, lo, f, j) by {
                assert(!stays_between(s, limit, lo, hi, j));
            }
            between_lies_near(s, limit, lo, f, l, i, r);
        } else {
            if l != f && !stays_between(s, limit, f, hi, l) {
                stays_inside(s, limit, lo, f, l);
            }
            if r != hi && !stays_between(s, limit, f, hi, r) {
                stays_inside(s, limit, lo, f, r);
            }
            assert forall|j: int| l < j < r implies !#[trigger] stays_between(s, limit, f, hi, j) by {
                assert(!stays_between(s, limit, lo, hi, j));
            }
            between_lies_near(s, limit, f, hi, l, i, r);
        }
    }
}

/// An anchor that straightening leaves out lies within the limit of the line between
/// the anchors that stay on either side of it. The limit is in thousandths of a
/// pixel, coordinates in hundredths.
pub proof fn left_out_anchors_lie_near_the_line(
    s: Seq<Anchor>,
    limit: int,
    a: int,
    b: int,
    l: int,
    i: int,
    r: int,
)
    requires
        0 <= a <= l < i < r <= b < s.len(),
        a == 0 || s[a].pinned,
        b == s.len() - 1 || s[b].pinned,
        forall|j: int| a < j < b ==> !(#[trigger] s[j]).pinned,
        limit > 0,
        l == a || stays(s, limit, l),
        r == b || stays(s, limit, r),
        forall|j: int| l < j < r ==> !#[trigger] stays(s, limit, j),
        s[l].at != s[r].at,
    ensures
        ({
            let u = s[l].at;
            let v = s[r].at;
            100 * reach(s[i].at, u, v) <= (limit * limit) * ((v.x - u.x) * (v.x - u.x) + (v.y - u.y) * (v.y - u.y))
        }),
{
    assert forall|j: int| a < j < b implies #[trigger] stays(s, limit, j) == stays_between(s, limit, a, b, j) by {
        pins_around(s, a, b, j);
        assert(!s[j].pinned);
    }
    if l != a {
        assert(stays(s, limit, l) == stays_between(s, limit, a, b, l));
    }
    if r != b {
        assert(stays(s, limit, r) == stays_between(s, limit, a, b, r));
    }
    assert forall|j: int| l < j < r implies !#[trigger] stays_between(s, limit, a, b, j) by {
        assert(!stays(s, limit, j));
    }
    between_lies_near(s, limit, a, b, l, i, r);
    apart(s[l].at, s[r].at);
}

} // verus!
