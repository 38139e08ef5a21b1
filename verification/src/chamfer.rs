//! The two-pass chamfer distance transform, in thousandths of a pixel.
use vstd::prelude::*;
use crate::mask;

verus! {

/// Thousandths of a pixel per pixel.
pub const DT_SCALE: i32 = 1000;

/// The cost of a side step.
pub const ORTH: i32 = 1000;

/// The cost of a corner step.
pub const DIAG: i32 = 1414;

/// A distance no cell of a sheet has.
pub const FAR: i32 = 0x1fff_ffff;

/// The absolute value of `v`.
pub open spec fn abs(v: int) -> int {
    if v < 0 {
        -v
    } else {
        v
    }
}

/// The cheapest way to move by `(dx, dy)` with side and corner steps.
pub open spec fn chamfer_norm(dx: int, dy: int) -> int {
    if abs(dx) >= abs(dy) {
        1000 * abs(dx) + 414 * abs(dy)
    } else {
        1000 * abs(dy) + 414 * abs(dx)
    }
}

/// Cell `(x, y)` is not part of the component; nothing off the grid is.
pub open spec fn is_outside(comp: Seq<bool>, cw: int, ch: int, x: int, y: int) -> bool {
    !(0 <= x < cw && 0 <= y < ch && comp[mask::pixel_at(cw, x, y)])
}

/// `d` is the least chamfer distance from cell `(x, y)` to a cell outside the
/// component.
pub open spec fn is_distance(comp: Seq<bool>, cw: int, ch: int, x: int, y: int, d: int) -> bool {
    &&& exists|a: int, b: int| #[trigger]
        is_outside(comp, cw, ch, a, b) && chamfer_norm(x - a, y - b) == d
    &&& forall|a: int, b: int| #[trigger]
        is_outside(comp, cw, ch, a, b) ==> d <= chamfer_norm(x - a, y - b)
}

/// `dt` holds the distance of every cell.
pub open spec fn is_transform(comp: Seq<bool>, cw: int, ch: int, dt: Seq<i32>) -> bool {
    &&& dt.len() == comp.len()
    &&& forall|x: int, y: int|
        0 <= x < cw && 0 <= y < ch ==> is_distance(
            comp,
            cw,
            ch,
            x,
            y,
            (#[trigger] dt[mask::pixel_at(cw, x, y)]) as int,
        )
}

// The working grid has one outside cell on every side: its cell `(x, y)` is
// cell `(x - 1, y - 1)` of the component. Where `frame` is false the cells
// around the component are no targets either: nothing but its own cells is.

spec fn clear(comp: Seq<bool>, cw: int, ch: int, frame: bool, x: int, y: int) -> bool {
    if 1 <= x <= cw && 1 <= y <= ch {
        !comp[mask::pixel_at(cw, x - 1, y - 1)]
    } else {
        frame
    }
}

spec fn val(dt: Seq<i32>, cw: int, x: int, y: int) -> int {
    dt[mask::pixel_at(cw + 2, x, y)] as int
}

spec fn on_grid(cw: int, ch: int, x: int, y: int) -> bool {
    0 <= x < cw + 2 && 0 <= y < ch + 2
}

/// A cell whose value the passes settle.
spec fn counted(cw: int, ch: int, frame: bool, x: int, y: int) -> bool {
    on_grid(cw, ch, x, y) && (frame || (1 <= x <= cw && 1 <= y <= ch))
}

/// A value is far, or some outside cell is that near.
spec fn grounded(comp: Seq<bool>, cw: int, ch: int, frame: bool, v: int, x: int, y: int) -> bool {
    v >= FAR || exists|a: int, b: int| #[trigger]
        clear(comp, cw, ch, frame, a, b) && chamfer_norm(x - a, y - b) <= v
}

/// What holds of every value between two relaxations.
spec fn sound(comp: Seq<bool>, cw: int, ch: int, frame: bool, dt: Seq<i32>) -> bool {
    &&& dt.len() == (cw + 2) * (ch + 2)
    &&& forall|x: int, y: int|
        on_grid(cw, ch, x, y) ==> 0 <= #[trigger] val(dt, cw, x, y) <= FAR && (val(dt, cw, x, y) == 0
            <==> clear(comp, cw, ch, frame, x, y)) && grounded(comp, cw, ch, frame, val(dt, cw, x, y), x, y)
}

/// The directions that the forward pass covers on its own.
spec fn ahead(dx: int, dy: int) -> bool {
    dy >= 0 && dx >= -dy
}

/// The value is right for every outside cell in a forward direction.
spec fn forward_done(comp: Seq<bool>, cw: int, ch: int, frame: bool, dt: Seq<i32>, x: int, y: int) -> bool {
    forall|a: int, b: int| #[trigger]
        clear(comp, cw, ch, frame, a, b) && ahead(x - a, y - b) ==> val(dt, cw, x, y) <= chamfer_norm(
            x - a,
            y - b,
        )
}

/// The value is right for every outside cell.
spec fn all_done(comp: Seq<bool>, cw: int, ch: int, frame: bool, dt: Seq<i32>, x: int, y: int) -> bool {
    forall|a: int, b: int| #[trigger]
        clear(comp, cw, ch, frame, a, b) ==> val(dt, cw, x, y) <= chamfer_norm(x - a, y - b)
}

/// One step changes the distance by at most its cost.
proof fn step_norm(dx: int, dy: int, sx: int, sy: int)
    requires
        -1 <= sx <= 1,
        -1 <= sy <= 1,
    ensures
        chamfer_norm(dx + sx, dy + sy) <= chamfer_norm(dx, dy) + chamfer_norm(sx, sy),
{
}

proof fn step_grounds(comp: Seq<bool>, cw: int, ch: int, frame: bool, v: int, w: int, x: int, y: int, sx: int, sy: int)
    requires
        -1 <= sx <= 1,
        -1 <= sy <= 1,
        w == chamfer_norm(sx, sy),
        grounded(comp, cw, ch, frame, v, x - sx, y - sy),
    ensures
        grounded(comp, cw, ch, frame, v + w, x, y),
{
    if v < FAR {
        let (a, b) = choose|a: int, b: int| #[trigger]
            clear(comp, cw, ch, frame, a, b) && chamfer_norm(x - sx - a, y - sy - b) <= v;
        step_norm(x - sx - a, y - sy - b, sx, sy);
        assert(clear(comp, cw, ch, frame, a, b) && chamfer_norm(x - a, y - b) <= v + w);
    }
}

fn least(a: i32, b: i32, w: i32) -> (r: i32)
    requires
        0 <= b <= FAR,
        0 <= w <= 1414,
    ensures
        r == a || r == b + w,
        r <= a,
        r <= b + w,
{
    if b + w < a {
        b + w
    } else {
        a
    }
}

/// The better of the value itself and four neighbours with a step's cost each.
fn relax(
    dt: &Vec<i32>,
    pw: usize,
    i: usize,
    forward: bool,
    Ghost(comp): Ghost<Seq<bool>>,
    Ghost(cw): Ghost<int>,
    Ghost(ch): Ghost<int>,
    Ghost(frame): Ghost<bool>,
    Ghost(x): Ghost<int>,
    Ghost(y): Ghost<int>,
) -> (r: i32)
    requires
        0 <= cw,
        0 <= ch,
        pw == cw + 2,
        sound(comp, cw, ch, frame, dt@),
        1 <= x <= cw,
        1 <= y <= ch,
        i == mask::pixel_at(cw + 2, x, y),
        !clear(comp, cw, ch, frame, x, y),
    ensures
        0 < r <= FAR,
        r <= val(dt@, cw, x, y),
        grounded(comp, cw, ch, frame, r as int, x, y),
        forward ==> r <= val(dt@, cw, x, y - 1) + 1000 && r <= val(dt@, cw, x - 1, y - 1) + 1414
            && r <= val(dt@, cw, x + 1, y - 1) + 1414 && r <= val(dt@, cw, x - 1, y) + 1000,
        !forward ==> r <= val(dt@, cw, x, y + 1) + 1000 && r <= val(dt@, cw, x - 1, y + 1) + 1414
            && r <= val(dt@, cw, x + 1, y + 1) + 1414 && r <= val(dt@, cw, x + 1, y) + 1000,
{
    let ghost n: usize = dt.len();
    proof {
        assert(n == (cw + 2) * (ch + 2));
        let w = cw + 2;
        let h = ch + 2;
        mask::lemma_row(w, h, y);
        mask::lemma_row(w, h, y - 1);
        mask::lemma_row(w, h, y + 1);
        mask::lemma_pixel_in(w, h, x, y);
        mask::lemma_pixel_in(w, h, x - 1, y);
        mask::lemma_pixel_in(w, h, x + 1, y);
        mask::lemma_pixel_in(w, h, x - 1, y - 1);
        mask::lemma_pixel_in(w, h, x, y - 1);
        mask::lemma_pixel_in(w, h, x + 1, y - 1);
        mask::lemma_pixel_in(w, h, x - 1, y + 1);
        mask::lemma_pixel_in(w, h, x, y + 1);
        mask::lemma_pixel_in(w, h, x + 1, y + 1);
        assert(val(dt@, cw, x, y) == dt@[i as int]);
        assert(val(dt@, cw, x - 1, y) == dt@[i - 1]);
        assert(val(dt@, cw, x + 1, y) == dt@[i + 1]);
        assert(val(dt@, cw, x, y - 1) == dt@[i - pw]);
        assert(val(dt@, cw, x - 1, y - 1) == dt@[i - pw - 1]);
        assert(val(dt@, cw, x + 1, y - 1) == dt@[i - pw + 1]);
        assert(val(dt@, cw, x, y + 1) == dt@[i + pw]);
        assert(val(dt@, cw, x - 1, y + 1) == dt@[i + pw - 1]);
        assert(val(dt@, cw, x + 1, y + 1) == dt@[i + pw + 1]);
        if forward {
            step_grounds(comp, cw, ch, frame, val(dt@, cw, x, y - 1), 1000, x, y, 0, 1);
            step_grounds(comp, cw, ch, frame, val(dt@, cw, x - 1, y - 1), 1414, x, y, 1, 1);
            step_grounds(comp, cw, ch, frame, val(dt@, cw, x + 1, y - 1), 1414, x, y, -1, 1);
            step_grounds(comp, cw, ch, frame, val(dt@, cw, x - 1, y), 1000, x, y, 1, 0);
        } else {
            step_grounds(comp, cw, ch, frame, val(dt@, cw, x, y + 1), 1000, x, y, 0, -1);
            step_grounds(comp, cw, ch, frame, val(dt@, cw, x - 1, y + 1), 1414, x, y, 1, -1);
            step_grounds(comp, cw, ch, frame, val(dt@, cw, x + 1, y + 1), 1414, x, y, -1, -1);
            step_grounds(comp, cw, ch, frame, val(dt@, cw, x + 1, y), 1000, x, y, -1, 0);
        }
    }
    if forward {
        let a: i32 = least(dt[i], dt[i - pw], ORTH);
        let b: i32 = least(a, dt[i - pw - 1], DIAG);
        let c: i32 = least(b, dt[i - pw + 1], DIAG);
        least(c, dt[i - 1], ORTH)
    } else {
        let a: i32 = least(dt[i], dt[i + pw], ORTH);
        let b: i32 = least(a, dt[i + pw - 1], DIAG);
        let c: i32 = least(b, dt[i + pw + 1], DIAG);
        least(c, dt[i + 1], ORTH)
    }
}

/// Replacing one grounded value keeps the grid sound and other values alone.
proof fn set_value(comp: Seq<bool>, cw: int, ch: int, frame: bool, dt: Seq<i32>, x: int, y: int, v: i32)
    requires
        0 <= cw,
        0 <= ch,
        sound(comp, cw, ch, frame, dt),
        on_grid(cw, ch, x, y),
        0 < v <= FAR,
        !clear(comp, cw, ch, frame, x, y),
        grounded(comp, cw, ch, frame, v as int, x, y),
    ensures
        sound(comp, cw, ch, frame, dt.update(mask::pixel_at(cw + 2, x, y), v)),
        val(dt.update(mask::pixel_at(cw + 2, x, y), v), cw, x, y) == v,
        forall|p: int, q: int|
            on_grid(cw, ch, p, q) && (p != x || q != y) ==> #[trigger] val(
                dt.update(mask::pixel_at(cw + 2, x, y), v),
                cw,
                p,
                q,
            ) == val(dt, cw, p, q),
{
    let i = mask::pixel_at(cw + 2, x, y);
    let e = dt.update(i, v);
    mask::lemma_pixel_in(cw + 2, ch + 2, x, y);
    assert forall|p: int, q: int| on_grid(cw, ch, p, q) && (p != x || q != y) implies #[trigger] val(
        e,
        cw,
        p,
        q,
    ) == val(dt, cw, p, q) by {
        mask::lemma_pixel_in(cw + 2, ch + 2, p, q);
        if mask::pixel_at(cw + 2, p, q) == i {
            mask::lemma_pixel_inj(cw + 2, p, q, x, y);
        }
    }
    assert forall|p: int, q: int| on_grid(cw, ch, p, q) implies 0 <= #[trigger] val(e, cw, p, q)
        <= FAR && (val(e, cw, p, q) == 0 <==> clear(comp, cw, ch, frame, p, q)) && grounded(
        comp,
        cw,
        ch,
        frame,
        val(e, cw, p, q),
        p,
        q,
    ) by {
        assert(0 <= val(dt, cw, p, q) <= FAR);
    }
}

/// The starting grid: zero outside, far inside.
fn seeded(cw: usize, ch: usize, comp: &Vec<bool>, frame: bool) -> (r: Vec<i32>)
    requires
        comp@.len() == cw * ch,
        cw * ch <= mask::MAX_PIXELS,
        (cw + 2) * (ch + 2) <= usize::MAX,
        cw + 2 <= usize::MAX,
        ch + 2 <= usize::MAX,
    ensures
        sound(comp@, cw as int, ch as int, frame, r@),
        forall|x: int, y: int|
            on_grid(cw as int, ch as int, x, y) ==> #[trigger] val(r@, cw as int, x, y) == 0 || val(
                r@,
                cw as int,
                x,
                y,
            ) == FAR,
{
    let pw: usize = cw + 2;
    let ph: usize = ch + 2;
    let n: usize = comp.len();
    let mut dt: Vec<i32> = Vec::new();
    let ghost c = comp@;
    let mut y: usize = 0;
    proof {
        mask::lemma_row(pw as int, ph as int, 0);
    }
    while y < ph
        invariant
            y <= ph,
            pw == cw + 2,
            ph == ch + 2,
            c == comp@,
            n == c.len(),
            c.len() == cw * ch,
            pw * ph <= usize::MAX,
            dt@.len() == y * pw,
            y * pw <= pw * ph,
            y == ph ==> y * pw == pw * ph,
            forall|a: int, b: int|
                0 <= a < pw && 0 <= b < y ==> #[trigger] val(dt@, cw as int, a, b) == (if clear(
                    c,
                    cw as int,
                    ch as int,
                    frame,
                    a,
                    b,
                ) {
                    0
                } else {
                    FAR as int
                }),
        decreases ph - y,
    {
        let mut x: usize = 0;
        while x < pw
            invariant
                y < ph,
                x <= pw,
                pw == cw + 2,
                ph == ch + 2,
                c == comp@,
                n == c.len(),
                c.len() == cw * ch,
                pw * ph <= usize::MAX,
                dt@.len() == y * pw + x,
                forall|a: int, b: int|
                    0 <= a < pw && 0 <= b && (b < y || (b == y && a < x)) ==> #[trigger] val(
                        dt@,
                        cw as int,
                        a,
                        b,
                    ) == (if clear(c, cw as int, ch as int, frame, a, b) {
                        0
                    } else {
                        FAR as int
                    }),
            decreases pw - x,
        {
            let inside: bool = if x >= 1 && x <= cw && y >= 1 && y <= ch {
                proof {
                    mask::lemma_pixel_in(cw as int, ch as int, x - 1, y - 1);
                }
                comp[(y - 1) * cw + (x - 1)]
            } else {
                !frame
            };
            let ghost dt0 = dt@;
            dt.push(
                if inside {
                    FAR
                } else {
                    0
                },
            );
            proof {
                assert forall|a: int, b: int|
                    0 <= a < pw && 0 <= b && (b < y || (b == y && a < x + 1)) implies
                    #[trigger] val(dt@, cw as int, a, b) == (if clear(
                    c,
                    cw as int,
                    ch as int,
                    frame,
                    a,
                    b,
                ) {
                    0
                } else {
                    FAR as int
                }) by {
                    mask::lemma_pixel_order(pw as int, a, b, x as int, y as int);
                    mask::lemma_row(pw as int, ph as int, b);
                    if b < y || a < x {
                        assert(val(dt0, cw as int, a, b) == (if clear(
                            c,
                            cw as int,
                            ch as int,
                            frame,
                            a,
                            b,
                        ) {
                            0
                        } else {
                            FAR as int
                        }));
                    }
                }
            }
            x = x + 1;
        }
        proof {
            mask::lemma_row(pw as int, ph as int, y as int);
            mask::lemma_row(pw as int, ph as int, y + 1);
        }
        y = y + 1;
    }
    proof {
        assert forall|a: int, b: int| on_grid(cw as int, ch as int, a, b) implies 0 <= #[trigger] val(
            dt@,
            cw as int,
            a,
            b,
        ) <= FAR && (val(dt@, cw as int, a, b) == 0 <==> clear(c, cw as int, ch as int, frame, a, b))
            && grounded(c, cw as int, ch as int, frame, val(dt@, cw as int, a, b), a, b) by {
            if clear(c, cw as int, ch as int, frame, a, b) {
                assert(chamfer_norm(a - a, b - b) == 0);
            }
        }
    }
    dt
}

/// The forward pass: every value becomes right for the forward directions.
fn forward_pass(
    dt: &mut Vec<i32>,
    cw: usize,
    ch: usize,
    Ghost(comp): Ghost<Seq<bool>>,
    Ghost(frame): Ghost<bool>,
)
    requires
        sound(comp, cw as int, ch as int, frame, old(dt)@),
        (cw + 2) * (ch + 2) <= usize::MAX,
        cw + 2 <= usize::MAX,
        ch + 2 <= usize::MAX,
        forall|x: int, y: int|
            on_grid(cw as int, ch as int, x, y) ==> #[trigger] val(old(dt)@, cw as int, x, y) == 0
                || val(old(dt)@, cw as int, x, y) == FAR,
    ensures
        sound(comp, cw as int, ch as int, frame, final(dt)@),
        forall|x: int, y: int|
            counted(cw as int, ch as int, frame, x, y) ==> #[trigger] forward_done(
                comp,
                cw as int,
                ch as int,
                frame,
                final(dt)@,
                x,
                y,
            ),
{
    let pw: usize = cw + 2;
    let ghost w = cw as int;
    let ghost h = ch as int;
    let mut y: usize = 0;
    while y < ch + 2
        invariant
            y <= ch + 2,
            w == cw,
            h == ch,
            pw == cw + 2,
            ch + 2 <= usize::MAX,
            pw * (ch + 2) <= usize::MAX,
            sound(comp, w, h, frame, dt@),
            forall|p: int, q: int|
                counted(w, h, frame, p, q) && q < y ==> #[trigger] forward_done(comp, w, h, frame, dt@, p, q),
        decreases ch + 2 - y,
    {
        let mut x: usize = 0;
        while x < pw
            invariant
                y < ch + 2,
                x <= pw,
                w == cw,
                h == ch,
                pw == cw + 2,
                pw * (ch + 2) <= usize::MAX,
                sound(comp, w, h, frame, dt@),
                forall|p: int, q: int|
                    counted(w, h, frame, p, q) && (q < y || (q == y && p < x)) ==> #[trigger] forward_done(
                        comp,
                        w,
                        h,
                        frame,
                        dt@,
                        p,
                        q,
                    ),
            decreases pw - x,
        {
            proof {
                mask::lemma_pixel_in(w + 2, h + 2, x as int, y as int);
                assert(val(dt@, w, x as int, y as int) == dt@[y * pw + x]);
            }
            let i: usize = y * pw + x;
            if dt[i] == 0 {
                assert(forward_done(comp, w, h, frame, dt@, x as int, y as int));
            } else if x >= 1 && x <= cw && y >= 1 && y <= ch {
                let ghost dt0 = dt@;
                let ghost px = x as int;
                let ghost py = y as int;
                assert(val(dt@, w, px, py) != 0);
                let r: i32 = relax(
                    dt,
                    pw,
                    i,
                    true,
                    Ghost(comp),
                    Ghost(w),
                    Ghost(h),
                    Ghost(frame),
                    Ghost(px),
                    Ghost(py),
                );
                dt.set(i, r);
                proof {
                    set_value(comp, w, h, frame, dt0, px, py, r);
                    assert forall|a: int, b: int| #[trigger]
                        clear(comp, w, h, frame, a, b) && ahead(px - a, py - b) implies r <= chamfer_norm(
                        px - a,
                        py - b,
                    ) by {
                        let dx = px - a;
                        let dy = py - b;
                        let (sx, sy): (int, int) = if dy == 0 {
                            (1, 0)
                        } else if dx > 0 {
                            (1, 1)
                        } else if dx == 0 {
                            (0, 1)
                        } else {
                            (-1, 1)
                        };
                        assert(counted(w, h, frame, px - sx, py - sy));
                        assert(forward_done(comp, w, h, frame, dt0, px - sx, py - sy));
                        assert(chamfer_norm(dx, dy) == chamfer_norm(dx - sx, dy - sy)
                            + chamfer_norm(sx, sy));
                        assert((px - sx) - a == dx - sx && (py - sy) - b == dy - sy);
                    }
                    assert(forward_done(comp, w, h, frame, dt@, px, py));
                    assert forall|p: int, q: int|
                        counted(w, h, frame, p, q) && (q < y || (q == y && p < x + 1)) implies
                        #[trigger] forward_done(comp, w, h, frame, dt@, p, q) by {
                        if q < y || p < x {
                            assert(forward_done(comp, w, h, frame, dt0, p, q));
                            assert(val(dt@, w, p, q) == val(dt0, w, p, q));
                        }
                    }
                }
            }
            x = x + 1;
        }
        y = y + 1;
    }
}

/// The backward pass: every value becomes right.
fn backward_pass(
    dt: &mut Vec<i32>,
    cw: usize,
    ch: usize,
    Ghost(comp): Ghost<Seq<bool>>,
    Ghost(frame): Ghost<bool>,
)
    requires
        sound(comp, cw as int, ch as int, frame, old(dt)@),
        (cw + 2) * (ch + 2) <= usize::MAX,
        cw + 2 <= usize::MAX,
        ch + 2 <= usize::MAX,
        forall|x: int, y: int|
            counted(cw as int, ch as int, frame, x, y) ==> #[trigger] forward_done(
                comp,
                cw as int,
                ch as int,
                frame,
                old(dt)@,
                x,
                y,
            ),
    ensures
        sound(comp, cw as int, ch as int, frame, final(dt)@),
        forall|x: int, y: int|
            counted(cw as int, ch as int, frame, x, y) ==> #[trigger] all_done(
                comp,
                cw as int,
                ch as int,
                frame,
                final(dt)@,
                x,
                y,
            ),
{
    let pw: usize = cw + 2;
    let ghost w = cw as int;
    let ghost h = ch as int;
    let mut y: usize = ch + 2;
    while y > 0
        invariant
            y <= ch + 2,
            w == cw,
            h == ch,
            pw == cw + 2,
            pw * (ch + 2) <= usize::MAX,
            sound(comp, w, h, frame, dt@),
            forall|p: int, q: int|
                counted(w, h, frame, p, q) ==> #[trigger] forward_done(comp, w, h, frame, dt@, p, q),
            forall|p: int, q: int|
                counted(w, h, frame, p, q) && q >= y ==> #[trigger] all_done(comp, w, h, frame, dt@, p, q),
        decreases y,
    {
        y = y - 1;
        let mut x: usize = pw;
        while x > 0
            invariant
                y < ch + 2,
                x <= pw,
                w == cw,
                h == ch,
                pw == cw + 2,
                pw * (ch + 2) <= usize::MAX,
                sound(comp, w, h, frame, dt@),
                forall|p: int, q: int|
                    counted(w, h, frame, p, q) ==> #[trigger] forward_done(comp, w, h, frame, dt@, p, q),
                forall|p: int, q: int|
                    counted(w, h, frame, p, q) && (q > y || (q == y && p >= x)) ==> #[trigger] all_done(
                        comp,
                        w,
                        h,
                        frame,
                        dt@,
                        p,
                        q,
                    ),
            decreases x,
        {
            x = x - 1;
            proof {
                mask::lemma_pixel_in(w + 2, h + 2, x as int, y as int);
                assert(val(dt@, w, x as int, y as int) == dt@[y * pw + x]);
            }
            let i: usize = y * pw + x;
            if dt[i] == 0 {
                assert(all_done(comp, w, h, frame, dt@, x as int, y as int));
            } else if x >= 1 && x <= cw && y >= 1 && y <= ch {
                let ghost dt0 = dt@;
                let ghost px = x as int;
                let ghost py = y as int;
                assert(val(dt@, w, px, py) != 0);
                let r: i32 = relax(
                    dt,
                    pw,
                    i,
                    false,
                    Ghost(comp),
                    Ghost(w),
                    Ghost(h),
                    Ghost(frame),
                    Ghost(px),
                    Ghost(py),
                );
                dt.set(i, r);
                proof {
                    set_value(comp, w, h, frame, dt0, px, py, r);
                    assert forall|a: int, b: int| #[trigger]
                        clear(comp, w, h, frame, a, b) implies r <= chamfer_norm(px - a, py - b) by {
                        let dx = px - a;
                        let dy = py - b;
                        if ahead(dx, dy) {
                            assert(forward_done(comp, w, h, frame, dt0, px, py));
                        } else {
                            let (sx, sy): (int, int) = if dy >= 0 {
                                (-1, 0)
                            } else if dx > 0 {
                                (1, -1)
                            } else if dx == 0 {
                                (0, -1)
                            } else {
                                (-1, -1)
                            };
                            assert(counted(w, h, frame, px - sx, py - sy));
                            assert(all_done(comp, w, h, frame, dt0, px - sx, py - sy));
                            assert(chamfer_norm(dx, dy) == chamfer_norm(dx - sx, dy - sy)
                                + chamfer_norm(sx, sy));
                            assert((px - sx) - a == dx - sx && (py - sy) - b == dy - sy);
                        }
                    }
                    assert(all_done(comp, w, h, frame, dt@, px, py));
                    assert forall|p: int, q: int|
                        counted(w, h, frame, p, q) && (q > y || (q == y && p >= x)) implies
                        #[trigger] all_done(comp, w, h, frame, dt@, p, q) by {
                        if q > y || p > x {
                            assert(all_done(comp, w, h, frame, dt0, p, q));
                            assert(val(dt@, w, p, q) == val(dt0, w, p, q));
                        }
                    }
                    assert forall|p: int, q: int| counted(w, h, frame, p, q) implies
                        #[trigger] forward_done(comp, w, h, frame, dt@, p, q) by {
                        assert(forward_done(comp, w, h, frame, dt0, p, q));
                        if p == px && q == py {
                            assert(all_done(comp, w, h, frame, dt@, px, py));
                        } else {
                            assert(val(dt@, w, p, q) == val(dt0, w, p, q));
                        }
                    }
                }
            }
        }
    }
}

/// No cell of a sheet is far from the border of its grid.
proof fn border_is_near(cw: int, ch: int, x: int, y: int)
    requires
        0 <= x < cw,
        0 <= y < ch,
        cw * ch <= mask::MAX_PIXELS,
    ensures
        1000 * (x + 1) < FAR || 1000 * (y + 1) < FAR,
{
    if 1000 * (x + 1) >= FAR && 1000 * (y + 1) >= FAR {
        assert(cw >= 100000 && ch >= 100000);
        assert(cw * ch >= 100000 * 100000) by (nonlinear_arith)
            requires
                cw >= 100000,
                ch >= 100000,
        ;
    }
}

/// The value is the least distance to a target, or far where there is none.
spec fn settled(comp: Seq<bool>, cw: int, ch: int, frame: bool, v: int, x: int, y: int) -> bool {
    &&& 0 <= v <= FAR
    &&& grounded(comp, cw, ch, frame, v, x + 1, y + 1)
    &&& forall|a: int, b: int| #[trigger]
        clear(comp, cw, ch, frame, a, b) ==> v <= chamfer_norm(x + 1 - a, y + 1 - b)
}

/// Both passes over the component's cells.
fn relaxed(cw: usize, ch: usize, comp: &Vec<bool>, frame: bool) -> (r: Vec<i32>)
    requires
        comp@.len() == cw * ch,
        cw * ch <= mask::MAX_PIXELS,
        (cw + 2) * (ch + 2) <= usize::MAX,
        cw + 2 <= usize::MAX,
        ch + 2 <= usize::MAX,
    ensures
        r@.len() == comp@.len(),
        forall|x: int, y: int|
            0 <= x < cw && 0 <= y < ch ==> settled(
                comp@,
                cw as int,
                ch as int,
                frame,
                (#[trigger] r@[mask::pixel_at(cw as int, x, y)]) as int,
                x,
                y,
            ),
{
    let ghost w = cw as int;
    let ghost h = ch as int;
    let pw: usize = cw + 2;
    let mut dt = seeded(cw, ch, comp, frame);
    forward_pass(&mut dt, cw, ch, Ghost(comp@), Ghost(frame));
    backward_pass(&mut dt, cw, ch, Ghost(comp@), Ghost(frame));
    let mut out: Vec<i32> = Vec::new();
    let mut y: usize = 0;
    proof {
        mask::lemma_row(w, h, 0);
    }
    while y < ch
        invariant
            y <= ch,
            w == cw,
            h == ch,
            pw == cw + 2,
            pw * (ch + 2) <= usize::MAX,
            sound(comp@, w, h, frame, dt@),
            out@.len() == y * w,
            y == ch ==> y * w == w * h,
            forall|a: int, b: int|
                0 <= a < w && 0 <= b < y ==> #[trigger] out@[mask::pixel_at(w, a, b)] == val(
                    dt@,
                    w,
                    a + 1,
                    b + 1,
                ),
        decreases ch - y,
    {
        let mut x: usize = 0;
        while x < cw
            invariant
                y < ch,
                x <= cw,
                w == cw,
                h == ch,
                pw == cw + 2,
                pw * (ch + 2) <= usize::MAX,
                sound(comp@, w, h, frame, dt@),
                out@.len() == y * w + x,
                forall|a: int, b: int|
                    0 <= a < w && 0 <= b && (b < y || (b == y && a < x))
                        ==> #[trigger] out@[mask::pixel_at(w, a, b)] == val(dt@, w, a + 1, b + 1),
            decreases cw - x,
        {
            proof {
                mask::lemma_pixel_in(w + 2, h + 2, x + 1, y + 1);
            }
            let ghost out0 = out@;
            out.push(dt[(y + 1) * pw + (x + 1)]);
            proof {
                assert forall|a: int, b: int|
                    0 <= a < w && 0 <= b && (b < y || (b == y && a < x + 1)) implies
                    #[trigger] out@[mask::pixel_at(w, a, b)] == val(dt@, w, a + 1, b + 1) by {
                    mask::lemma_pixel_order(w, a, b, x as int, y as int);
                    mask::lemma_row(w, h, b);
                    if b < y || a < x {
                        assert(out0[mask::pixel_at(w, a, b)] == val(dt@, w, a + 1, b + 1));
                    }
                }
            }
            x = x + 1;
        }
        proof {
            mask::lemma_row(w, h, y as int);
            mask::lemma_row(w, h, y + 1);
        }
        y = y + 1;
    }
    proof {
        assert forall|x: int, y: int| 0 <= x < w && 0 <= y < h implies settled(
            comp@,
            w,
            h,
            frame,
            (#[trigger] out@[mask::pixel_at(w, x, y)]) as int,
            x,
            y,
        ) by {
            let v = val(dt@, w, x + 1, y + 1);
            assert(counted(w, h, frame, x + 1, y + 1));
            assert(all_done(comp@, w, h, frame, dt@, x + 1, y + 1));
            assert(grounded(comp@, w, h, frame, v, x + 1, y + 1));
        }
    }
    out
}

/// The distance of every cell to the nearest cell outside the component,
/// everything off the grid included.
pub fn distance_transform(cw: usize, ch: usize, comp: &Vec<bool>) -> (r: Vec<i32>)
    requires
        comp@.len() == cw * ch,
        cw * ch <= mask::MAX_PIXELS,
        (cw + 2) * (ch + 2) <= usize::MAX,
        cw + 2 <= usize::MAX,
        ch + 2 <= usize::MAX,
    ensures
        is_transform(comp@, cw as int, ch as int, r@),
        forall|k: int| 0 <= k < r@.len() ==> 0 <= #[trigger] r@[k] <= FAR,
{
    let ghost w = cw as int;
    let ghost h = ch as int;
    let out = relaxed(cw, ch, comp, true);
    proof {
        assert forall|x: int, y: int| 0 <= x < w && 0 <= y < h implies is_distance(
            comp@,
            w,
            h,
            x,
            y,
            (#[trigger] out@[mask::pixel_at(w, x, y)]) as int,
        ) by {
            let v = out@[mask::pixel_at(w, x, y)] as int;
            assert(settled(comp@, w, h, true, v, x, y));
            border_is_near(w, h, x, y);
            assert(clear(comp@, w, h, true, 0, y + 1));
            assert(clear(comp@, w, h, true, x + 1, 0));
            assert(v <= chamfer_norm(x + 1, 0));
            assert(v <= chamfer_norm(0, y + 1));
            let (a, b) = choose|a: int, b: int| #[trigger]
                clear(comp@, w, h, true, a, b) && chamfer_norm(x + 1 - a, y + 1 - b) <= v;
            assert(is_outside(comp@, w, h, a - 1, b - 1) && chamfer_norm(x - (a - 1), y - (b - 1))
                == v);
            assert forall|p: int, q: int| #[trigger] is_outside(comp@, w, h, p, q) implies v
                <= chamfer_norm(x - p, y - q) by {
                assert(clear(comp@, w, h, true, p + 1, q + 1));
            }
        }
        assert forall|k: int| 0 <= k < out@.len() implies 0 <= #[trigger] out@[k] <= FAR by {
            if w == 0 {
                mask::lemma_row(0, h, h);
            }
            mask::lemma_pixel_split(w, h, k);
            assert(settled(
                comp@,
                w,
                h,
                true,
                out@[mask::pixel_at(w, k % w, k / w)] as int,
                k % w,
                k / w,
            ));
        }
    }
    out
}

/// Cell `(x, y)` of the grid is a target.
pub open spec fn is_target(free: Seq<bool>, cw: int, ch: int, x: int, y: int) -> bool {
    0 <= x < cw && 0 <= y < ch && !free[mask::pixel_at(cw, x, y)]
}

/// `d` is the least chamfer distance from cell `(x, y)` to a target.
pub open spec fn is_near(free: Seq<bool>, cw: int, ch: int, x: int, y: int, d: int) -> bool {
    &&& exists|a: int, b: int| #[trigger]
        is_target(free, cw, ch, a, b) && chamfer_norm(x - a, y - b) == d
    &&& forall|a: int, b: int| #[trigger]
        is_target(free, cw, ch, a, b) ==> d <= chamfer_norm(x - a, y - b)
}

/// The distance of every cell to the nearest cell that is not free. Off the
/// grid there is nothing to be near to.
pub fn nearest_targets(cw: usize, ch: usize, free: &Vec<bool>) -> (r: Vec<i32>)
    requires
        free@.len() == cw * ch,
        cw <= 0xffff,
        ch <= 0xffff,
        cw * ch <= mask::MAX_PIXELS,
        (cw + 2) * (ch + 2) <= usize::MAX,
        exists|a: int, b: int| #[trigger] is_target(free@, cw as int, ch as int, a, b),
    ensures
        r@.len() == free@.len(),
        forall|x: int, y: int|
            0 <= x < cw && 0 <= y < ch ==> is_near(
                free@,
                cw as int,
                ch as int,
                x,
                y,
                (#[trigger] r@[mask::pixel_at(cw as int, x, y)]) as int,
            ) && 0 <= r@[mask::pixel_at(cw as int, x, y)] < FAR,
{
    let ghost w = cw as int;
    let ghost h = ch as int;
    let out = relaxed(cw, ch, free, false);
    proof {
        let (ta, tb) = choose|a: int, b: int| #[trigger] is_target(free@, w, h, a, b);
        assert forall|x: int, y: int| 0 <= x < w && 0 <= y < h implies is_near(
            free@,
            w,
            h,
            x,
            y,
            (#[trigger] out@[mask::pixel_at(w, x, y)]) as int,
        ) && 0 <= out@[mask::pixel_at(w, x, y)] < FAR by {
            let v = out@[mask::pixel_at(w, x, y)] as int;
            assert(settled(free@, w, h, false, v, x, y));
            assert(clear(free@, w, h, false, ta + 1, tb + 1));
            assert(v <= chamfer_norm(x + 1 - (ta + 1), y + 1 - (tb + 1)));
            assert(chamfer_norm(x + 1 - (ta + 1), y + 1 - (tb + 1)) < FAR);
            let (a, b) = choose|a: int, b: int| #[trigger]
                clear(free@, w, h, false, a, b) && chamfer_norm(x + 1 - a, y + 1 - b) <= v;
            assert(is_target(free@, w, h, a - 1, b - 1) && chamfer_norm(x - (a - 1), y - (b - 1))
                == v);
            assert forall|p: int, q: int| #[trigger] is_target(free@, w, h, p, q) implies v
                <= chamfer_norm(x - p, y - q) by {
                assert(clear(free@, w, h, false, p + 1, q + 1));
            }
        }
    }
    out
}

/// A component has one distance transform.
pub proof fn transform_is_unique(comp: Seq<bool>, cw: int, ch: int, a: Seq<i32>, b: Seq<i32>)
    requires
        0 <= cw,
        comp.len() == cw * ch,
        is_transform(comp, cw, ch, a),
        is_transform(comp, cw, ch, b),
    ensures
        a == b,
{
    assert forall|k: int| 0 <= k < comp.len() implies a[k] == b[k] by {
        assert(cw > 0) by (nonlinear_arith)
            requires
                cw >= 0,
                cw * ch > 0,
        ;
        mask::lemma_pixel_split(cw, ch, k);
        let x = k % cw;
        let y = k / cw;
        let p = a[mask::pixel_at(cw, x, y)] as int;
        let q = b[mask::pixel_at(cw, x, y)] as int;
        assert(is_distance(comp, cw, ch, x, y, p));
        assert(is_distance(comp, cw, ch, x, y, q));
        let (i, j) = choose|i: int, j: int| #[trigger]
            is_outside(comp, cw, ch, i, j) && chamfer_norm(x - i, y - j) == p;
        let (u, v) = choose|u: int, v: int| #[trigger]
            is_outside(comp, cw, ch, u, v) && chamfer_norm(x - u, y - v) == q;
        assert(q <= chamfer_norm(x - i, y - j));
        assert(p <= chamfer_norm(x - u, y - v));
    }
    assert(a =~= b);
}

/// `(dx, dy)` is at most `d` by side steps of 1000 and corner steps of 1414.
pub open spec fn is_step_within(dx: int, dy: int, d: int) -> bool {
    &&& 1000 * dx + 414 * dy <= d
    &&& 1000 * dx - 414 * dy <= d
    &&& 414 * dy - 1000 * dx <= d
    &&& -1000 * dx - 414 * dy <= d
    &&& 414 * dx + 1000 * dy <= d
    &&& 414 * dx - 1000 * dy <= d
    &&& 1000 * dy - 414 * dx <= d
    &&& -414 * dx - 1000 * dy <= d
}

proof fn steps_are_the_norm(dx: int, dy: int, d: int)
    ensures
        (chamfer_norm(dx, dy) <= d) == is_step_within(dx, dy, d),
{
}

/// A pixel's distance is at most `d` exactly where a pixel outside the component,
/// which may lie off the sheet, is that near.
pub proof fn distance_reaches_the_outside(comp: Seq<bool>, cw: int, ch: int, dt: Seq<i32>, x: int, y: int, d: int)
    requires
        is_transform(comp, cw, ch, dt),
        0 <= x < cw,
        0 <= y < ch,
    ensures
        (dt[y * cw + x] <= d) == (exists|a: int, b: int|
            #![trigger is_step_within(x - a, y - b, d)]
            !(0 <= a < cw && 0 <= b < ch && comp[b * cw + a]) && is_step_within(x - a, y - b, d)),
        (dt[y * cw + x] == 0) == !comp[y * cw + x],
{
    let v = dt[mask::pixel_at(cw, x, y)] as int;
    assert(is_distance(comp, cw, ch, x, y, v));
    let (a, b) = choose|a: int, b: int| #[trigger]
        is_outside(comp, cw, ch, a, b) && chamfer_norm(x - a, y - b) == v;
    steps_are_the_norm(x - a, y - b, d);
    if exists|a: int, b: int|
        #![trigger is_step_within(x - a, y - b, d)]
        !(0 <= a < cw && 0 <= b < ch && comp[b * cw + a]) && is_step_within(x - a, y - b, d) {
        let (p, q) = choose|a: int, b: int|
            #![trigger is_step_within(x - a, y - b, d)]
            !(0 <= a < cw && 0 <= b < ch && comp[b * cw + a]) && is_step_within(x - a, y - b, d);
        steps_are_the_norm(x - p, y - q, d);
        assert(is_outside(comp, cw, ch, p, q));
    }
    if !comp[y * cw + x] {
        assert(is_outside(comp, cw, ch, x, y));
    }
}

/// To the nearest target, in the same way.
pub proof fn nearness_reaches_a_target(free: Seq<bool>, cw: int, ch: int, x: int, y: int, v: int, d: int)
    requires
        is_near(free, cw, ch, x, y, v),
    ensures
        (v <= d) == (exists|a: int, b: int|
            #![trigger is_step_within(x - a, y - b, d)]
            0 <= a < cw && 0 <= b < ch && !free[b * cw + a] && is_step_within(x - a, y - b, d)),
{
    let (a, b) = choose|a: int, b: int| #[trigger]
        is_target(free, cw, ch, a, b) && chamfer_norm(x - a, y - b) == v;
    steps_are_the_norm(x - a, y - b, d);
    if exists|a: int, b: int|
        #![trigger is_step_within(x - a, y - b, d)]
        0 <= a < cw && 0 <= b < ch && !free[b * cw + a] && is_step_within(x - a, y - b, d) {
        let (p, q) = choose|a: int, b: int|
            #![trigger is_step_within(x - a, y - b, d)]
            0 <= a < cw && 0 <= b < ch && !free[b * cw + a] && is_step_within(x - a, y - b, d);
        steps_are_the_norm(x - p, y - q, d);
        assert(is_target(free, cw, ch, p, q));
    }
}

} // verus!
