//! Perceptual hashes of a luma plane, and the candidate pairs their bands
//! propose.
use vstd::prelude::*;
use crate::counting;
use crate::mask;
use crate::sorting;
use crate::sorting::SortKey;

verus! {

/// Bands per hash: four keys of sixteen bits.
pub const LSH_BANDS: u32 = 4;

/// Side of the plane that hashes are taken from, in pixels.
pub const HASH_PLANE: u32 = 64;

/// Columns of the difference-hash grid.
pub const DHASH_W: u32 = 9;

/// Rows of the difference-hash grid.
pub const DHASH_H: u32 = 8;

/// Columns of the average-hash grid.
pub const AHASH_W: u32 = 8;

/// Rows of the average-hash grid.
pub const AHASH_H: u32 = 8;

// ---- scaling down -------------------------------------------------------------------

/// The first source line of target line `t` when `n` lines become `tn`.
pub open spec fn cell_start(t: int, n: int, tn: int) -> int {
    (t * n) / tn
}

/// One past the last source line of target line `t`: at least one line, and
/// none past the plane.
pub open spec fn cell_end(t: int, n: int, tn: int) -> int {
    let next = cell_start(t + 1, n, tn);
    let least = cell_start(t, n, tn) + 1;
    let end = if next < least {
        least
    } else {
        next
    };
    if end > n {
        n
    } else {
        end
    }
}

/// The sum of row `y` over the columns `x0..x1`.
pub open spec fn row_sum(plane: Seq<u8>, w: int, y: int, x0: int, x1: int) -> int
    decreases x1 - x0,
{
    if x1 <= x0 {
        0
    } else {
        row_sum(plane, w, y, x0, x1 - 1) + plane[mask::pixel_at(w, x1 - 1, y)]
    }
}

/// The sum over the box of columns `x0..x1` and rows `y0..y1`.
pub open spec fn box_sum(plane: Seq<u8>, w: int, x0: int, x1: int, y0: int, y1: int) -> int
    decreases y1 - y0,
{
    if y1 <= y0 {
        0
    } else {
        box_sum(plane, w, x0, x1, y0, y1 - 1) + row_sum(plane, w, y1 - 1, x0, x1)
    }
}

/// The mean over a target cell, rounded to nearest.
pub open spec fn cell_mean(plane: Seq<u8>, w: int, h: int, tw: int, th: int, tx: int, ty: int) -> int {
    let x0 = cell_start(tx, w, tw);
    let x1 = cell_end(tx, w, tw);
    let y0 = cell_start(ty, h, th);
    let y1 = cell_end(ty, h, th);
    let count = (x1 - x0) * (y1 - y0);
    (box_sum(plane, w, x0, x1, y0, y1) + count / 2) / count
}

/// The plane scaled down to `tw` by `th` cells, row by row.
pub open spec fn scaled(plane: Seq<u8>, w: int, h: int, tw: int, th: int) -> Seq<u8> {
    Seq::new((tw * th) as nat, |i: int| cell_mean(plane, w, h, tw, th, i % tw, i / tw) as u8)
}

/// The plane has the stated size and neither it nor the target is empty.
pub open spec fn can_scale(plane: Seq<u8>, w: int, h: int, tw: int, th: int) -> bool {
    w > 0 && h > 0 && tw > 0 && th > 0 && plane.len() == w * h
}

proof fn cell_bounds(t: int, n: int, tn: int)
    requires
        0 <= t < tn,
        0 < n,
    ensures
        0 <= cell_start(t, n, tn) < cell_end(t, n, tn) <= n,
        cell_start(t + 1, n, tn) <= n,
{
    assert(t * n < tn * n) by (nonlinear_arith)
        requires
            t < tn,
            0 < n,
    ;
    assert(0 <= t * n) by (nonlinear_arith)
        requires
            0 <= t,
            0 < n,
    ;
    assert((t * n) / tn < n && 0 <= (t * n) / tn) by (nonlinear_arith)
        requires
            0 <= t * n < tn * n,
            0 < tn,
    ;
    assert((t + 1) * n <= tn * n) by (nonlinear_arith)
        requires
            t + 1 <= tn,
            0 < n,
    ;
    assert(0 <= (t + 1) * n) by (nonlinear_arith)
        requires
            0 <= t,
            0 < n,
    ;
    assert(((t + 1) * n) / tn <= n) by (nonlinear_arith)
        requires
            0 <= (t + 1) * n <= tn * n,
            0 < tn,
    ;
}

proof fn row_bound(plane: Seq<u8>, w: int, y: int, x0: int, x1: int)
    requires
        x0 <= x1,
    ensures
        0 <= row_sum(plane, w, y, x0, x1) <= 255 * (x1 - x0),
    decreases x1 - x0,
{
    if x0 < x1 {
        row_bound(plane, w, y, x0, x1 - 1);
    }
}

proof fn box_bound(plane: Seq<u8>, w: int, x0: int, x1: int, y0: int, y1: int)
    requires
        x0 <= x1,
        y0 <= y1,
    ensures
        0 <= box_sum(plane, w, x0, x1, y0, y1) <= 255 * ((x1 - x0) * (y1 - y0)),
    decreases y1 - y0,
{
    if y0 < y1 {
        box_bound(plane, w, x0, x1, y0, y1 - 1);
        row_bound(plane, w, y1 - 1, x0, x1);
        assert((x1 - x0) * (y1 - y0) == (x1 - x0) * (y1 - 1 - y0) + (x1 - x0)) by (nonlinear_arith);
    } else {
        assert((x1 - x0) * (y1 - y0) == 0) by (nonlinear_arith)
            requires
                y1 == y0,
        ;
    }
}

proof fn area_bound(dx: int, dy: int, w: int, h: int)
    requires
        0 <= dx <= w,
        0 <= dy <= h,
        0 <= w,
        0 <= h,
    ensures
        0 <= dx * dy <= w * h,
{
    assert(0 <= dx * dy <= w * h) by (nonlinear_arith)
        requires
            0 <= dx <= w,
            0 <= dy <= h,
            0 <= w,
            0 <= h,
    ;
}

/// The mean over one target cell.
fn mean_at(plane: &[u8], w: u32, h: u32, x0: u32, x1: u32, y0: u32, y1: u32) -> (r: u8)
    requires
        plane@.len() == w * h,
        x0 < x1 <= w,
        y0 < y1 <= h,
    ensures
        r == (box_sum(plane@, w as int, x0 as int, x1 as int, y0 as int, y1 as int) + ((x1 - x0) * (
        y1 - y0)) / 2) / ((x1 - x0) * (y1 - y0)),
{
    let n: usize = plane.len();
    let ghost s = plane@;
    let mut sum: u128 = 0;
    let mut y: u32 = y0;
    proof {
        assert((x1 - x0) * (y0 - y0) == 0) by (nonlinear_arith);
    }
    while y < y1
        invariant
            s == plane@,
            n == s.len(),
            s.len() == w * h,
            x0 < x1 <= w,
            y0 <= y <= y1 <= h,
            y0 < y1,
            sum == box_sum(s, w as int, x0 as int, x1 as int, y0 as int, y as int),
        decreases y1 - y,
    {
        proof {
            box_bound(s, w as int, x0 as int, x1 as int, y0 as int, y as int);
            area_bound(x1 - x0, y - y0, u32::MAX as int, u32::MAX as int);
        }
        let mut row: u128 = 0;
        let mut x: u32 = x0;
        while x < x1
            invariant
                s == plane@,
                n == s.len(),
                s.len() == w * h,
                x0 <= x <= x1 <= w,
                y < h,
                row == row_sum(s, w as int, y as int, x0 as int, x as int),
            decreases x1 - x,
        {
            proof {
                mask::lemma_pixel_in(w as int, h as int, x as int, y as int);
                row_bound(s, w as int, y as int, x0 as int, x as int);
            }
            row = row + plane[y as usize * w as usize + x as usize] as u128;
            x = x + 1;
        }
        proof {
            row_bound(s, w as int, y as int, x0 as int, x1 as int);
        }
        sum = sum + row;
        y = y + 1;
    }
    proof {
        area_bound(x1 - x0, y1 - y0, u32::MAX as int, u32::MAX as int);
    }
    let count: u128 = (x1 - x0) as u128 * (y1 - y0) as u128;
    proof {
        box_bound(s, w as int, x0 as int, x1 as int, y0 as int, y1 as int);
        area_bound(x1 - x0, y1 - y0, u32::MAX as int, u32::MAX as int);
        let c = (x1 - x0) * (y1 - y0);
        assert(c >= 1) by (nonlinear_arith)
            requires
                c == (x1 - x0) * (y1 - y0),
                x0 < x1,
                y0 < y1,
        ;
        let t = box_sum(s, w as int, x0 as int, x1 as int, y0 as int, y1 as int) + c / 2;
        assert(t < 256 * c);
        assert(0 <= t / c <= 255) by (nonlinear_arith)
            requires
                0 <= t < 256 * c,
                c >= 1,
        ;
    }
    ((sum + count / 2) / count) as u8
}

/// Box-filters a plane down to `tw` by `th`: every cell is the mean of the
/// source pixels it covers, rounded to nearest. `None` when a side is zero or
/// the plane is not `w` by `h`.
pub fn downscale_luma(plane: &[u8], w: u32, h: u32, tw: u32, th: u32) -> (r: Option<Vec<u8>>)
    ensures
        match r {
            Some(v) => can_scale(plane@, w as int, h as int, tw as int, th as int) && v@ == scaled(
                plane@,
                w as int,
                h as int,
                tw as int,
                th as int,
            ),
            None => !can_scale(plane@, w as int, h as int, tw as int, th as int),
        },
{
    if w == 0 || h == 0 || tw == 0 || th == 0 {
        return None;
    }
    proof {
        area_bound(w as int, h as int, u32::MAX as int, u32::MAX as int);
    }
    if plane.len() as u64 != w as u64 * h as u64 {
        return None;
    }
    let ghost s = plane@;
    let ghost goal = scaled(s, w as int, h as int, tw as int, th as int);
    let mut out: Vec<u8> = Vec::new();
    let mut ty: u32 = 0;
    proof {
        mask::lemma_row(tw as int, th as int, 0);
    }
    while ty < th
        invariant
            ty <= th,
            w > 0,
            h > 0,
            tw > 0,
            th > 0,
            s == plane@,
            s.len() == w * h,
            goal == scaled(s, w as int, h as int, tw as int, th as int),
            goal.len() == tw * th,
            out@.len() == ty * tw,
            ty == th ==> ty * tw == tw * th,
            ty * tw <= tw * th,
            forall|i: int| 0 <= i < out@.len() ==> #[trigger] out@[i] == goal[i],
        decreases th - ty,
    {
        proof {
            cell_bounds(ty as int, h as int, th as int);
            area_bound(ty as int, h as int, u32::MAX as int, u32::MAX as int);
            area_bound(ty + 1, h as int, 0x1_0000_0000, u32::MAX as int);
            mask::lemma_row(tw as int, th as int, ty as int);
        }
        let y0: u32 = ((ty as u64 * h as u64) / th as u64) as u32;
        let y_next: u64 = ((ty as u64 + 1) * h as u64) / th as u64;
        let y1: u32 = ends(y0, y_next, h);
        let mut tx: u32 = 0;
        while tx < tw
            invariant
                tx <= tw,
                ty < th,
                w > 0,
                h > 0,
                tw > 0,
                th > 0,
                s == plane@,
                s.len() == w * h,
                goal == scaled(s, w as int, h as int, tw as int, th as int),
                goal.len() == tw * th,
                out@.len() == ty * tw + tx,
                ty * tw + tw <= tw * th,
                y0 == cell_start(ty as int, h as int, th as int),
                y1 == cell_end(ty as int, h as int, th as int),
                y0 < y1 <= h,
                forall|i: int| 0 <= i < out@.len() ==> #[trigger] out@[i] == goal[i],
            decreases tw - tx,
        {
            proof {
                cell_bounds(tx as int, w as int, tw as int);
                area_bound(tx as int, w as int, u32::MAX as int, u32::MAX as int);
                area_bound(tx + 1, w as int, 0x1_0000_0000, u32::MAX as int);
            }
            let x0: u32 = ((tx as u64 * w as u64) / tw as u64) as u32;
            let x_next: u64 = ((tx as u64 + 1) * w as u64) / tw as u64;
            let x1: u32 = ends(x0, x_next, w);
            let m: u8 = mean_at(plane, w, h, x0, x1, y0, y1);
            proof {
                let i = ty * tw + tx;
                assert(i % (tw as int) == tx && i / (tw as int) == ty) by (nonlinear_arith)
                    requires
                        i == ty * tw + tx,
                        0 <= tx < tw,
                        0 <= ty,
                ;
                assert(goal[i] == cell_mean(
                    s,
                    w as int,
                    h as int,
                    tw as int,
                    th as int,
                    tx as int,
                    ty as int,
                ) as u8);
                assert(m as int as u8 == m);
            }
            out.push(m);
            tx = tx + 1;
        }
        proof {
            mask::lemma_row(tw as int, th as int, ty + 1);
            assert((ty + 1) * tw == ty * tw + tw) by (nonlinear_arith);
        }
        ty = ty + 1;
    }
    assert(out@ =~= goal);
    Some(out)
}

/// The end of a cell that starts at `start`.
fn ends(start: u32, next: u64, n: u32) -> (r: u32)
    requires
        start < n,
        next <= n,
    ensures
        r == (if next < start + 1 {
            start + 1
        } else {
            next as int
        }),
{
    if next <= start as u64 {
        start + 1
    } else {
        next as u32
    }
}

// ---- hashes -------------------------------------------------------------------------

/// Bit `i` of a hash.
pub open spec fn bit(h: u64, i: u64) -> bool {
    (h >> i) & 1 == 1
}

proof fn set_bit(h: u64, k: u64)
    requires
        k < 64,
    ensures
        forall|i: u64| i < 64 ==> #[trigger] bit(h | (1u64 << k), i) == (i == k || bit(h, i)),
{
    assert forall|i: u64| i < 64 implies #[trigger] bit(h | (1u64 << k), i) == (i == k || bit(h, i)) by {
        assert((((h | (1u64 << k)) >> i) & 1 == 1) == (i == k || ((h >> i) & 1 == 1)))
            by (bit_vector)
            requires
                k < 64,
                i < 64,
        ;
    }
}

proof fn no_bits()
    ensures
        forall|i: u64| i < 64 ==> !#[trigger] bit(0, i),
{
    assert forall|i: u64| i < 64 implies !#[trigger] bit(0, i) by {
        assert((0u64 >> i) & 1 == 0) by (bit_vector)
            requires
                i < 64,
        ;
    }
}

/// A hash is its bits.
pub proof fn bits_decide(a: u64, b: u64)
    requires
        forall|i: u64| i < 64 ==> #[trigger] bit(a, i) == bit(b, i),
    ensures
        a == b,
{
    lowest(a, b, 0);
    assert(a >> 0 == a && b >> 0 == b) by (bit_vector);
}

/// Equal bits from some place on are equal remainders.
proof fn lowest(a: u64, b: u64, i: u64)
    requires
        i <= 64,
        forall|k: u64| k < 64 ==> #[trigger] bit(a, k) == bit(b, k),
    ensures
        i < 64 ==> a >> i == b >> i,
    decreases 64 - i,
{
    if i < 63 {
        lowest(a, b, (i + 1) as u64);
        assert(bit(a, i) == bit(b, i));
        let j = (i + 1) as u64;
        assert(a >> i == b >> i) by (bit_vector)
            requires
                i < 63,
                j == i + 1,
                a >> j == b >> j,
                ((a >> i) & 1 == 1) == ((b >> i) & 1 == 1),
        ;
    } else if i == 63 {
        assert(bit(a, 63) == bit(b, 63));
        assert(a >> 63 == b >> 63) by (bit_vector)
            requires
                ((a >> 63) & 1 == 1) == ((b >> 63) & 1 == 1),
        ;
    }
}

/// The cell left of the pair at `(x, y)` is brighter than the one right of it.
pub open spec fn falls(small: Seq<u8>, x: int, y: int) -> bool {
    small[y * 9 + x] > small[y * 9 + x + 1]
}

/// `hash` is the difference hash of the scaled plane `small`.
pub open spec fn is_d_hash(small: Seq<u8>, hash: u64) -> bool {
    forall|i: u64| i < 64 ==> #[trigger] bit(hash, i) == falls(small, i as int % 8, i as int / 8)
}

/// The 64-bit difference hash of a plane: one bit per horizontal neighbour pair
/// of the 9 by 8 grid, set where brightness falls from left to right.
pub fn d_hash(plane: &[u8], w: u32, h: u32) -> (r: Option<u64>)
    ensures
        match r {
            Some(v) => can_scale(plane@, w as int, h as int, 9, 8) && is_d_hash(
                scaled(plane@, w as int, h as int, 9, 8),
                v,
            ),
            None => !can_scale(plane@, w as int, h as int, 9, 8),
        },
{
    let small = match downscale_luma(plane, w, h, DHASH_W, DHASH_H) {
        Some(v) => v,
        None => {
            return None;
        },
    };
    let ghost s = small@;
    let mut hash: u64 = 0;
    let mut i: u64 = 0;
    proof {
        no_bits();
    }
    while i < 64
        invariant
            i <= 64,
            s == small@,
            s.len() == 72,
            forall|k: u64| k < i ==> #[trigger] bit(hash, k) == falls(s, k as int % 8, k as int / 8),
            forall|k: u64| i <= k < 64 ==> !#[trigger] bit(hash, k),
        decreases 64 - i,
    {
        let at: usize = ((i / 8) * 9 + i % 8) as usize;
        if small[at] > small[at + 1] {
            proof {
                set_bit(hash, i);
            }
            hash = hash | (1u64 << i);
        }
        i = i + 1;
    }
    Some(hash)
}

/// The sum of the first `n` cells.
pub open spec fn cell_sum(small: Seq<u8>, n: int) -> int
    decreases n,
{
    if n <= 0 {
        0
    } else {
        cell_sum(small, n - 1) + small[n - 1]
    }
}

/// `hash` is the average hash of the scaled plane `small`.
pub open spec fn is_a_hash(small: Seq<u8>, hash: u64) -> bool {
    forall|i: u64| i < 64 ==> #[trigger] bit(hash, i) == (small[i as int] > cell_sum(small, 64) / 64)
}

/// The 64-bit average hash of a plane: one bit per cell of the 8 by 8 grid, set
/// where it is brighter than the mean of all.
pub fn a_hash(plane: &[u8], w: u32, h: u32) -> (r: Option<u64>)
    ensures
        match r {
            Some(v) => can_scale(plane@, w as int, h as int, 8, 8) && is_a_hash(
                scaled(plane@, w as int, h as int, 8, 8),
                v,
            ),
            None => !can_scale(plane@, w as int, h as int, 8, 8),
        },
{
    let small = match downscale_luma(plane, w, h, AHASH_W, AHASH_H) {
        Some(v) => v,
        None => {
            return None;
        },
    };
    let ghost s = small@;
    let mut sum: u32 = 0;
    let mut j: usize = 0;
    while j < 64
        invariant
            j <= 64,
            s == small@,
            s.len() == 64,
            sum == cell_sum(s, j as int),
            sum <= 255 * j,
        decreases 64 - j,
    {
        sum = sum + small[j] as u32;
        j = j + 1;
    }
    let mean: u32 = sum / 64;
    let mut hash: u64 = 0;
    let mut i: u64 = 0;
    proof {
        no_bits();
    }
    while i < 64
        invariant
            i <= 64,
            s == small@,
            s.len() == 64,
            mean == cell_sum(s, 64) / 64,
            forall|k: u64| k < i ==> #[trigger] bit(hash, k) == (s[k as int] > cell_sum(s, 64) / 64),
            forall|k: u64| i <= k < 64 ==> !#[trigger] bit(hash, k),
        decreases 64 - i,
    {
        if small[i as usize] as u32 > mean {
            proof {
                set_bit(hash, i);
            }
            hash = hash | (1u64 << i);
        }
        i = i + 1;
    }
    Some(hash)
}

// ---- bands --------------------------------------------------------------------------

/// `bands` keys of equal width cover a hash.
pub open spec fn bands_fit(bands: u32) -> bool {
    bands > 0 && 64int % bands as int == 0
}

/// The low `width` bits.
pub open spec fn low_bits(width: u64) -> u64 {
    if width >= 64 {
        u64::MAX
    } else {
        ((1u64 << width) - 1) as u64
    }
}

/// The key of band `i`: the bits from `i` widths up to the next band.
pub open spec fn band_key(hash: u64, bands: u32, i: int) -> u64 {
    let width = 64int / bands as int;
    (hash >> ((i * width) as u64)) & low_bits(width as u64)
}

proof fn width_fits(bands: u32, i: int)
    requires
        bands_fit(bands),
        0 <= i < bands,
    ensures
        bands <= 64,
        1 <= 64int / bands as int <= 64,
        0 <= i * (64int / bands as int),
        i * (64int / bands as int) + 64int / bands as int <= 64,
{
    let width = 64int / bands as int;
    assert(bands <= 64) by {
        if bands > 64 {
            vstd::arithmetic::div_mod::lemma_small_mod(64, bands as nat);
        }
    }
    assert(1 <= width <= 64 && width * bands <= 64) by (nonlinear_arith)
        requires
            width == 64int / bands as int,
            1 <= bands <= 64,
    ;
    assert(0 <= i * width && i * width + width <= width * bands) by (nonlinear_arith)
        requires
            0 <= i < bands,
            1 <= width,
    ;
}

/// Bit `j` of a band's key is the hash's bit at that place of the band, and
/// nothing is set above the band.
pub proof fn band_holds_bits(hash: u64, bands: u32, i: int, j: u64)
    requires
        bands_fit(bands),
        0 <= i < bands,
        j < 64,
    ensures
        bit(band_key(hash, bands, i), j) == (j < 64int / bands as int && bit(
            hash,
            (i * (64int / bands as int) + j) as u64,
        )),
{
    width_fits(bands, i);
    let width = (64int / bands as int) as u64;
    let from = (i * (64int / bands as int)) as u64;
    let key = band_key(hash, bands, i);
    if width == 64 {
        assert(from == 0);
        assert((((hash >> 0u64) & u64::MAX) >> j) & 1 == (hash >> j) & 1) by (bit_vector)
            requires
                j < 64,
        ;
    } else {
        let low = low_bits(width);
        assert((1u64 << width) >= 1) by (bit_vector)
            requires
                width < 64,
        ;
        assert(low == (1u64 << width) - 1);
        let at = (from + j) as u64;
        if j < width {
            assert((((hash >> from) & low) >> j) & 1 == (hash >> at) & 1) by (bit_vector)
                requires
                    low == (1u64 << width) - 1,
                    width < 64,
                    j < width,
                    at == from + j,
                    at < 64,
                    from < 64,
            ;
        } else {
            assert((((hash >> from) & low) >> j) & 1 == 0) by (bit_vector)
                requires
                    low == (1u64 << width) - 1,
                    width < 64,
                    width <= j < 64,
                    from < 64,
            ;
        }
    }
}

/// The keys of all bands, each with its number; none where the bands do not
/// divide a hash evenly.
pub open spec fn keys_of(hash: u64, bands: u32) -> Seq<(u32, u64)> {
    if bands_fit(bands) {
        Seq::new(bands as nat, |i: int| (i as u32, band_key(hash, bands, i)))
    } else {
        Seq::empty()
    }
}

/// Splits a hash into `bands` keys.
pub fn band_keys(hash: u64, bands: u32) -> (r: Vec<(u32, u64)>)
    ensures
        r@ == keys_of(hash, bands),
{
    let mut out: Vec<(u32, u64)> = Vec::new();
    if bands == 0 || 64 % bands != 0 {
        assert(out@ =~= keys_of(hash, bands));
        return out;
    }
    let width: u32 = 64 / bands;
    proof {
        width_fits(bands, 0);
    }
    let low: u64 = if width == 64 {
        u64::MAX
    } else {
        proof {
            let w = width as u64;
            assert((1u64 << w) >= 1) by (bit_vector)
                requires
                    w < 64,
            ;
        }
        (1u64 << width as u64) - 1
    };
    let mut i: u32 = 0;
    while i < bands
        invariant
            i <= bands,
            bands_fit(bands),
            width == 64int / bands as int,
            low == low_bits(width as u64),
            out@.len() == i,
            forall|k: int| 0 <= k < i ==> #[trigger] out@[k] == (k as u32, band_key(hash, bands, k)),
        decreases bands - i,
    {
        proof {
            width_fits(bands, i as int);
        }
        let from: u64 = i as u64 * width as u64;
        out.push((i, (hash >> from) & low));
        i = i + 1;
    }
    assert(out@ =~= keys_of(hash, bands));
    out
}

// ---- candidates ---------------------------------------------------------------------

/// What the cascade knows about one icon.
#[derive(Clone, Copy, Debug, PartialEq, Eq)]
pub struct HashItem {
    /// The icon's id.
    pub id: u32,
    /// Difference hash of its plane.
    pub d: u64,
    /// Average hash of its plane.
    pub a: u64,
    /// Digest of its plane.
    pub digest: [u8; 32],
}

/// The difference hash (kind 0) or the average hash (kind 1) of an item.
pub open spec fn hash_of(item: HashItem, kind: int) -> u64 {
    if kind == 0 {
        item.d
    } else {
        item.a
    }
}

/// The two items agree in band `band` of the hash of that kind.
pub open spec fn band_agrees(x: HashItem, y: HashItem, bands: u32, kind: int, band: int) -> bool {
    band_key(hash_of(x, kind), bands, band) == band_key(hash_of(y, kind), bands, band)
}

/// The two items agree in some band of one hash.
pub open spec fn shares_band(x: HashItem, y: HashItem, bands: u32) -> bool {
    bands_fit(bands) && exists|kind: int, band: int|
        0 <= kind < 2 && 0 <= band < bands && #[trigger] band_agrees(x, y, bands, kind, band)
}

/// Pair `p` stands before pair `q`.
pub open spec fn pair_lt(p: (usize, usize), q: (usize, usize)) -> bool {
    p.0 < q.0 || (p.0 == q.0 && p.1 < q.1)
}

/// The pair is one of two positions, ascending, whose items share a band.
pub open spec fn is_candidate(items: Seq<HashItem>, bands: u32, p: (usize, usize)) -> bool {
    p.0 < p.1 && p.1 < items.len() && shares_band(items[p.0 as int], items[p.1 as int], bands)
}

/// `pairs` are all candidates, ascending and each once.
pub open spec fn is_candidate_list(items: Seq<HashItem>, bands: u32, pairs: Seq<(usize, usize)>) -> bool {
    &&& forall|i: int, j: int|
        0 <= i < j < pairs.len() ==> pair_lt(#[trigger] pairs[i], #[trigger] pairs[j])
    &&& forall|i: int| 0 <= i < pairs.len() ==> is_candidate(items, bands, #[trigger] pairs[i])
    &&& forall|p: (usize, usize)| #[trigger]
        is_candidate(items, bands, p) ==> pairs.contains(p)
}

/// The sorted candidate list of a set of items is unique.
pub proof fn candidates_are_unique(
    items: Seq<HashItem>,
    bands: u32,
    p: Seq<(usize, usize)>,
    q: Seq<(usize, usize)>,
)
    requires
        is_candidate_list(items, bands, p),
        is_candidate_list(items, bands, q),
    ensures
        p == q,
{
    same_upto(items, bands, p, q, if p.len() < q.len() {
        p.len()
    } else {
        q.len()
    });
    if p.len() < q.len() {
        let x = q[p.len() as int];
        assert(is_candidate(items, bands, x));
        assert(p.contains(x));
        let k = choose|k: int| 0 <= k < p.len() && p[k] == x;
        assert(q[k] == x && pair_lt(q[k], q[p.len() as int]));
    } else if q.len() < p.len() {
        let x = p[q.len() as int];
        assert(is_candidate(items, bands, x));
        assert(q.contains(x));
        let k = choose|k: int| 0 <= k < q.len() && q[k] == x;
        assert(p[k] == x && pair_lt(p[k], p[q.len() as int]));
    }
    assert(p =~= q);
}

proof fn same_upto(
    items: Seq<HashItem>,
    bands: u32,
    p: Seq<(usize, usize)>,
    q: Seq<(usize, usize)>,
    n: nat,
)
    requires
        is_candidate_list(items, bands, p),
        is_candidate_list(items, bands, q),
        n <= p.len(),
        n <= q.len(),
    ensures
        forall|k: int| 0 <= k < n ==> #[trigger] p[k] == q[k],
    decreases n,
{
    if n > 0 {
        same_upto(items, bands, p, q, (n - 1) as nat);
        let t = n - 1;
        let x = p[t];
        let y = q[t];
        assert(is_candidate(items, bands, x) && is_candidate(items, bands, y));
        assert(q.contains(x) && p.contains(y));
        let i = choose|i: int| 0 <= i < q.len() && q[i] == x;
        let j = choose|j: int| 0 <= j < p.len() && p[j] == y;
        if i < t {
            assert(p[i] == q[i] && pair_lt(p[i], p[t]));
        } else if j < t {
            assert(p[j] == q[j] && pair_lt(q[j], q[t]));
        } else if i > t && j > t {
            assert(pair_lt(q[t], q[i]) && pair_lt(p[t], p[j]));
        }
    }
}

/// The bucket entries of one hash of an item.
spec fn band_entries(hash: u64, kind: int, index: int, bands: u32) -> Seq<SortKey> {
    Seq::new(
        bands as nat,
        |b: int| (kind as u64, b as u64, band_key(hash, bands, b), index as u64),
    )
}

/// The bucket entries of the first `n` items.
spec fn entries_upto(items: Seq<HashItem>, bands: u32, n: int) -> Seq<SortKey>
    decreases n,
{
    if n <= 0 {
        Seq::empty()
    } else {
        entries_upto(items, bands, n - 1) + band_entries(items[n - 1].d, 0, n - 1, bands)
            + band_entries(items[n - 1].a, 1, n - 1, bands)
    }
}

/// The entry is that of some item below `n`.
spec fn entry_fits(items: Seq<HashItem>, bands: u32, n: int, e: SortKey) -> bool {
    e.0 < 2 && e.1 < bands && e.3 < n && e.2 == band_key(
        hash_of(items[e.3 as int], e.0 as int),
        bands,
        e.1 as int,
    )
}

proof fn entries_facts(items: Seq<HashItem>, bands: u32, n: int)
    requires
        0 <= n <= items.len(),
        items.len() <= usize::MAX,
    ensures
        forall|k: int|
            0 <= k < entries_upto(items, bands, n).len() ==> entry_fits(
                items,
                bands,
                n,
                #[trigger] entries_upto(items, bands, n)[k],
            ),
        forall|j: int, k: int|
            0 <= j < k < entries_upto(items, bands, n).len() ==> #[trigger] entries_upto(
                items,
                bands,
                n,
            )[j] != #[trigger] entries_upto(items, bands, n)[k],
        forall|e: SortKey| #[trigger]
            entry_fits(items, bands, n, e) ==> entries_upto(items, bands, n).contains(e),
    decreases n,
{
    let all = entries_upto(items, bands, n);
    if n > 0 {
        entries_facts(items, bands, n - 1);
        let old_part = entries_upto(items, bands, n - 1);
        let d = band_entries(items[n - 1].d, 0, n - 1, bands);
        let a = band_entries(items[n - 1].a, 1, n - 1, bands);
        let m = old_part.len() as int;
        let b = bands as int;
        assert(all == old_part + d + a);
        assert forall|k: int| 0 <= k < all.len() implies entry_fits(items, bands, n, #[trigger] all[k]) by {
            if k < m {
                assert(all[k] == old_part[k]);
                assert(entry_fits(items, bands, n - 1, old_part[k]));
            } else if k < m + b {
                assert(all[k] == d[k - m]);
            } else {
                assert(all[k] == a[k - m - b]);
            }
        }
        assert forall|j: int, k: int| 0 <= j < k < all.len() implies #[trigger] all[j]
            != #[trigger] all[k] by {
            if j < m {
                assert(all[j] == old_part[j]);
                assert(entry_fits(items, bands, n - 1, old_part[j]));
            } else if j < m + b {
                assert(all[j] == d[j - m]);
            } else {
                assert(all[j] == a[j - m - b]);
            }
            if k < m {
                assert(all[k] == old_part[k]);
            } else if k < m + b {
                assert(all[k] == d[k - m]);
            } else {
                assert(all[k] == a[k - m - b]);
            }
        }
        assert forall|e: SortKey| #[trigger] entry_fits(items, bands, n, e) implies all.contains(e) by {
            if e.3 < n - 1 {
                assert(entry_fits(items, bands, n - 1, e));
                let k = choose|k: int| 0 <= k < old_part.len() && old_part[k] == e;
                assert(all[k] == e);
            } else if e.0 == 0 {
                assert(all[m + e.1] == d[e.1 as int]);
                assert(d[e.1 as int] == e);
            } else {
                assert(all[m + b + e.1] == a[e.1 as int]);
                assert(a[e.1 as int] == e);
            }
        }
    }
}

fn push_bands(out: &mut Vec<SortKey>, hash: u64, kind: u64, index: usize, bands: u32)
    requires
        bands_fit(bands),
    ensures
        final(out)@ == old(out)@ + band_entries(hash, kind as int, index as int, bands),
{
    let keys = band_keys(hash, bands);
    let ghost o0 = out@;
    let mut i: usize = 0;
    while i < keys.len()
        invariant
            i <= keys@.len(),
            keys@ == keys_of(hash, bands),
            bands_fit(bands),
            out@.len() == o0.len() + i,
            forall|k: int| 0 <= k < o0.len() ==> #[trigger] out@[k] == o0[k],
            forall|k: int|
                0 <= k < i ==> #[trigger] out@[o0.len() + k] == band_entries(
                    hash,
                    kind as int,
                    index as int,
                    bands,
                )[k],
        decreases keys@.len() - i,
    {
        let (band, value): (u32, u64) = keys[i];
        out.push((kind, band as u64, value, index as u64));
        i = i + 1;
    }
    proof {
        let b = band_entries(hash, kind as int, index as int, bands);
        assert forall|k: int| 0 <= k < out@.len() implies out@[k] == (o0 + b)[k] by {
            if k >= o0.len() {
                assert(out@[o0.len() + (k - o0.len())] == b[k - o0.len()]);
            }
        }
        assert(out@ =~= o0 + b);
    }
}

/// The two entries fall into one bucket.
spec fn same_bucket(x: SortKey, y: SortKey) -> bool {
    x.0 == y.0 && x.1 == y.1 && x.2 == y.2
}

/// The pair that two entries of one bucket stand for.
spec fn pair_key(x: SortKey, y: SortKey) -> SortKey {
    (x.3, y.3, 0, 0)
}

/// The entries of one bucket stand together, and a later one is of a later item.
proof fn bucket_order(es: Seq<SortKey>, order: Seq<usize>, p: int, q: int)
    requires
        sorting::is_order(es, order, 0, es.len() as int),
        forall|j: int, k: int| 0 <= j < k < es.len() ==> #[trigger] es[j] != #[trigger] es[k],
        0 <= p < q < es.len(),
    ensures
        same_bucket(es[order[p] as int], es[order[q] as int]) ==> es[order[p] as int].3
            < es[order[q] as int].3,
        forall|m: int|
            p < m <= q && same_bucket(es[order[p] as int], es[order[q] as int]) ==> same_bucket(
                es[order[p] as int],
                es[(#[trigger] order[m]) as int],
            ),
{
    assert(sorting::pos_lt(es, order[p] as int, order[q] as int));
    assert(order[p] != order[q]);
    if order[p] < order[q] {
        assert(es[order[p] as int] != es[order[q] as int]);
    } else {
        assert(es[order[q] as int] != es[order[p] as int]);
    }
    assert forall|m: int|
        p < m <= q && same_bucket(es[order[p] as int], es[order[q] as int]) implies same_bucket(
        es[order[p] as int],
        es[(#[trigger] order[m]) as int],
    ) by {
        assert(sorting::pos_lt(es, order[p] as int, order[m] as int));
        if m < q {
            assert(sorting::pos_lt(es, order[m] as int, order[q] as int));
        }
    }
}

/// The pairs of all buckets, a pair once for each bucket it shares.
fn bucket_pairs(es: &Vec<SortKey>, Ghost(items): Ghost<Seq<HashItem>>, Ghost(bands): Ghost<u32>) -> (r: Vec<
    SortKey,
>)
    requires
        bands_fit(bands),
        items.len() <= usize::MAX,
        es@ == entries_upto(items, bands, items.len() as int),
    ensures
        forall|t: int|
            0 <= t < r@.len() ==> (#[trigger] r@[t]).2 == 0 && r@[t].3 == 0 && is_candidate(
                items,
                bands,
                (r@[t].0 as usize, r@[t].1 as usize),
            ) && r@[t].0 <= usize::MAX && r@[t].1 <= usize::MAX,
        forall|p: (usize, usize)| #[trigger]
            is_candidate(items, bands, p) ==> r@.contains((p.0 as u64, p.1 as u64, 0, 0)),
{
    let order = sorting::sort_order(es);
    let ghost s = es@;
    let ghost o = order@;
    let n: usize = es.len();
    proof {
        entries_facts(items, bands, items.len() as int);
    }
    let mut out: Vec<SortKey> = Vec::new();
    let mut p: usize = 0;
    while p < n
        invariant
            p <= n,
            n == s.len(),
            s == es@,
            o == order@,
            bands_fit(bands),
            items.len() <= usize::MAX,
            sorting::is_order(s, o, 0, s.len() as int),
            forall|k: int| 0 <= k < s.len() ==> entry_fits(items, bands, items.len() as int, #[trigger] s[k]),
            forall|j: int, k: int| 0 <= j < k < s.len() ==> #[trigger] s[j] != #[trigger] s[k],
            forall|t: int|
                0 <= t < out@.len() ==> (#[trigger] out@[t]).2 == 0 && out@[t].3 == 0 && is_candidate(
                    items,
                    bands,
                    (out@[t].0 as usize, out@[t].1 as usize),
                ) && out@[t].0 <= usize::MAX && out@[t].1 <= usize::MAX,
            forall|i: int, j: int|
                0 <= i < p && i < j < n && same_bucket(
                    s[(#[trigger] o[i]) as int],
                    s[(#[trigger] o[j]) as int],
                ) ==> out@.contains(pair_key(s[o[i] as int], s[o[j] as int])),
        decreases n - p,
    {
        let first: SortKey = es[order[p]];
        let mut q: usize = p + 1;
        let mut more: bool = q < n;
        while more
            invariant
                p < q <= n,
                n == s.len(),
                s == es@,
                o == order@,
                bands_fit(bands),
                items.len() <= usize::MAX,
                first == s[o[p as int] as int],
                sorting::is_order(s, o, 0, s.len() as int),
                forall|k: int| 0 <= k < s.len() ==> entry_fits(items, bands, items.len() as int, #[trigger] s[k]),
                forall|j: int, k: int| 0 <= j < k < s.len() ==> #[trigger] s[j] != #[trigger] s[k],
                forall|t: int|
                    0 <= t < out@.len() ==> (#[trigger] out@[t]).2 == 0 && out@[t].3 == 0
                        && is_candidate(items, bands, (out@[t].0 as usize, out@[t].1 as usize))
                        && out@[t].0 <= usize::MAX && out@[t].1 <= usize::MAX,
                forall|i: int, j: int|
                    0 <= i < p && i < j < n && same_bucket(
                        s[(#[trigger] o[i]) as int],
                        s[(#[trigger] o[j]) as int],
                    ) ==> out@.contains(pair_key(s[o[i] as int], s[o[j] as int])),
                forall|j: int|
                    p < j < q ==> out@.contains(pair_key(first, s[(#[trigger] o[j]) as int])),
                more ==> q < n,
                !more ==> q == n || !same_bucket(first, s[o[q as int] as int]),
            decreases n - q, (if more { 1int } else { 0int }),
        {
            let second: SortKey = es[order[q]];
            if first.0 == second.0 && first.1 == second.1 && first.2 == second.2 {
                let ghost out0 = out@;
                out.push((first.3, second.3, 0, 0));
                proof {
                    bucket_order(s, o, p as int, q as int);
                    assert(entry_fits(items, bands, items.len() as int, s[o[p as int] as int]));
                    assert(entry_fits(items, bands, items.len() as int, s[o[q as int] as int]));
                    assert(band_agrees(
                        items[first.3 as int],
                        items[second.3 as int],
                        bands,
                        first.0 as int,
                        first.1 as int,
                    ));
                    let last = out0.len() as int;
                    assert(out@[last] == pair_key(first, second));
                    assert forall|x: SortKey| #[trigger] out0.contains(x) implies out@.contains(x) by {
                        let t = choose|t: int| 0 <= t < out0.len() && out0[t] == x;
                        assert(out@[t] == x);
                    }
                    assert(out@.contains(pair_key(first, s[o[q as int] as int])));
                }
                q = q + 1;
                more = q < n;
            } else {
                more = false;
            }
        }
        proof {
            assert forall|j: int| p < j < n && same_bucket(first, s[(#[trigger] o[j]) as int]) implies out@.contains(
                pair_key(first, s[o[j] as int]),
            ) by {
                if j >= q {
                    bucket_order(s, o, p as int, j);
                    assert(same_bucket(first, s[o[q as int] as int]));
                }
            }
        }
        p = p + 1;
    }
    proof {
        assert forall|c: (usize, usize)| #[trigger] is_candidate(items, bands, c) implies out@.contains(
            (c.0 as u64, c.1 as u64, 0u64, 0u64),
        ) by {
            let x = items[c.0 as int];
            let y = items[c.1 as int];
            let (kind, band) = choose|kind: int, band: int|
                0 <= kind < 2 && 0 <= band < bands && #[trigger] band_agrees(x, y, bands, kind, band);
            let ex: SortKey = (kind as u64, band as u64, band_key(hash_of(x, kind), bands, band), c.0 as u64);
            let ey: SortKey = (kind as u64, band as u64, band_key(hash_of(y, kind), bands, band), c.1 as u64);
            assert(entry_fits(items, bands, items.len() as int, ex));
            assert(entry_fits(items, bands, items.len() as int, ey));
            let kx = choose|k: int| 0 <= k < s.len() && s[k] == ex;
            let ky = choose|k: int| 0 <= k < s.len() && s[k] == ey;
            assert(o.contains(kx as usize) && o.contains(ky as usize));
            let i = choose|i: int| 0 <= i < o.len() && o[i] == kx as usize;
            let j = choose|j: int| 0 <= j < o.len() && o[j] == ky as usize;
            if j < i {
                assert(sorting::pos_lt(s, o[j] as int, o[i] as int));
            }
            assert(i < j);
            assert(same_bucket(s[o[i] as int], s[o[j] as int]));
            assert(pair_key(s[o[i] as int], s[o[j] as int]) == (c.0 as u64, c.1 as u64, 0u64, 0u64));
        }
    }
    out
}

/// Candidate pairs as positions into `items`, sorted and each once: the pairs
/// that agree in some band of either hash. Items meet in buckets, so the work
/// follows the bucket sizes rather than the number of pairs.
pub fn candidate_pairs(items: &[HashItem], bands: u32) -> (r: Vec<(usize, usize)>)
    ensures
        is_candidate_list(items@, bands, r@),
{
    let mut out: Vec<(usize, usize)> = Vec::new();
    if bands == 0 || 64 % bands != 0 {
        return out;
    }
    let n: usize = items.len();
    let mut es: Vec<SortKey> = Vec::new();
    let mut i: usize = 0;
    while i < n
        invariant
            i <= n,
            n == items@.len(),
            bands_fit(bands),
            es@ == entries_upto(items@, bands, i as int),
        decreases n - i,
    {
        push_bands(&mut es, items[i].d, 0, i, bands);
        push_bands(&mut es, items[i].a, 1, i, bands);
        i = i + 1;
    }
    let ghost its = items@;
    let pairs = bucket_pairs(&es, Ghost(its), Ghost(bands));
    let order = sorting::sort_order(&pairs);
    let ghost ps = pairs@;
    let ghost o = order@;
    let mut t: usize = 0;
    while t < pairs.len()
        invariant
            t <= ps.len(),
            ps == pairs@,
            o == order@,
            its == items@,
            sorting::is_order(ps, o, 0, ps.len() as int),
            forall|k: int|
                0 <= k < ps.len() ==> (#[trigger] ps[k]).2 == 0 && ps[k].3 == 0 && is_candidate(
                    its,
                    bands,
                    (ps[k].0 as usize, ps[k].1 as usize),
                ) && ps[k].0 <= usize::MAX && ps[k].1 <= usize::MAX,
            forall|i: int, j: int|
                0 <= i < j < out@.len() ==> pair_lt(#[trigger] out@[i], #[trigger] out@[j]),
            forall|i: int| 0 <= i < out@.len() ==> is_candidate(its, bands, #[trigger] out@[i]),
            forall|k: int|
                0 <= k < t ==> out@.contains(
                    (ps[(#[trigger] o[k]) as int].0 as usize, ps[o[k] as int].1 as usize),
                ),
            t == 0 ==> out@.len() == 0,
            t > 0 ==> out@.len() > 0 && out@[out@.len() - 1] == (
                ps[o[t - 1] as int].0 as usize,
                ps[o[t - 1] as int].1 as usize,
            ),
        decreases ps.len() - t,
    {
        let key: SortKey = pairs[order[t]];
        let pair: (usize, usize) = (key.0 as usize, key.1 as usize);
        let fresh: bool = if out.len() == 0 {
            true
        } else {
            let last: (usize, usize) = out[out.len() - 1];
            last.0 != pair.0 || last.1 != pair.1
        };
        let ghost out0 = out@;
        if fresh {
            out.push(pair);
        }
        proof {
            if t > 0 {
                assert(sorting::pos_lt(ps, o[t - 1] as int, o[t as int] as int));
            }
            if fresh {
                assert(out@[out0.len() as int] == pair);
                assert forall|x: (usize, usize)| #[trigger] out0.contains(x) implies out@.contains(x) by {
                    let m = choose|m: int| 0 <= m < out0.len() && out0[m] == x;
                    assert(out@[m] == x);
                }
                assert forall|i: int, j: int| 0 <= i < j < out@.len() implies pair_lt(
                    #[trigger] out@[i],
                    #[trigger] out@[j],
                ) by {
                    if j == out0.len() {
                        let l = out0.len() - 1;
                        assert(pair_lt(out0[l], pair));
                        if i < l {
                            assert(pair_lt(out0[i], out0[l]));
                        }
                    } else {
                        assert(pair_lt(out0[i], out0[j]));
                    }
                }
            } else {
                assert(out@[out@.len() - 1] == pair);
            }
        }
        t = t + 1;
    }
    proof {
        assert forall|p: (usize, usize)| #[trigger] is_candidate(its, bands, p) implies out@.contains(p) by {
            let k: SortKey = (p.0 as u64, p.1 as u64, 0, 0);
            assert(ps.contains(k));
            let m = choose|m: int| 0 <= m < ps.len() && ps[m] == k;
            assert(o.contains(m as usize));
            let at = choose|at: int| 0 <= at < o.len() && o[at] == m as usize;
            assert(out@.contains((ps[o[at] as int].0 as usize, ps[o[at] as int].1 as usize)));
        }
    }
    out
}

/// A plane has one difference hash.
pub proof fn d_hash_is_unique(small: Seq<u8>, a: u64, b: u64)
    requires
        is_d_hash(small, a),
        is_d_hash(small, b),
    ensures
        a == b,
{
    bits_decide(a, b);
}

/// A plane has one average hash.
pub proof fn a_hash_is_unique(small: Seq<u8>, a: u64, b: u64)
    requires
        is_a_hash(small, a),
        is_a_hash(small, b),
    ensures
        a == b,
{
    bits_decide(a, b);
}

// ---- brightness ---------------------------------------------------------------------

/// `b` is the plane `a`, every pixel brighter by `c`.
pub open spec fn is_brighter(a: Seq<u8>, b: Seq<u8>, c: int) -> bool {
    b.len() == a.len() && forall|i: int| 0 <= i < a.len() ==> #[trigger] b[i] == a[i] + c
}

proof fn brighter_row(a: Seq<u8>, b: Seq<u8>, c: int, w: int, h: int, y: int, x0: int, x1: int)
    requires
        is_brighter(a, b, c),
        a.len() == w * h,
        0 <= y < h,
        0 <= x0 <= x1 <= w,
    ensures
        row_sum(b, w, y, x0, x1) == row_sum(a, w, y, x0, x1) + c * (x1 - x0),
    decreases x1 - x0,
{
    if x0 < x1 {
        brighter_row(a, b, c, w, h, y, x0, x1 - 1);
        mask::lemma_pixel_in(w, h, x1 - 1, y);
        assert(c * (x1 - x0) == c * (x1 - 1 - x0) + c) by (nonlinear_arith);
    } else {
        assert(c * (x1 - x0) == 0) by (nonlinear_arith)
            requires
                x1 == x0,
        ;
    }
}

proof fn brighter_box(
    a: Seq<u8>,
    b: Seq<u8>,
    c: int,
    w: int,
    h: int,
    x0: int,
    x1: int,
    y0: int,
    y1: int,
)
    requires
        is_brighter(a, b, c),
        a.len() == w * h,
        0 <= x0 <= x1 <= w,
        0 <= y0 <= y1 <= h,
    ensures
        box_sum(b, w, x0, x1, y0, y1) == box_sum(a, w, x0, x1, y0, y1) + c * ((x1 - x0) * (y1 - y0)),
    decreases y1 - y0,
{
    if y0 < y1 {
        brighter_box(a, b, c, w, h, x0, x1, y0, y1 - 1);
        brighter_row(a, b, c, w, h, y1 - 1, x0, x1);
        let d = x1 - x0;
        assert(c * (d * (y1 - y0)) == c * (d * (y1 - 1 - y0)) + c * d) by (nonlinear_arith);
    } else {
        assert(c * ((x1 - x0) * (y1 - y0)) == 0) by (nonlinear_arith)
            requires
                y1 == y0,
        ;
    }
}

proof fn brighter_mean(
    a: Seq<u8>,
    b: Seq<u8>,
    c: int,
    w: int,
    h: int,
    tw: int,
    th: int,
    tx: int,
    ty: int,
)
    requires
        is_brighter(a, b, c),
        can_scale(a, w, h, tw, th),
        0 <= tx < tw,
        0 <= ty < th,
    ensures
        cell_mean(b, w, h, tw, th, tx, ty) == cell_mean(a, w, h, tw, th, tx, ty) + c,
        0 <= cell_mean(a, w, h, tw, th, tx, ty) <= 255,
        0 <= cell_mean(b, w, h, tw, th, tx, ty) <= 255,
{
    let x0 = cell_start(tx, w, tw);
    let x1 = cell_end(tx, w, tw);
    let y0 = cell_start(ty, h, th);
    let y1 = cell_end(ty, h, th);
    cell_bounds(tx, w, tw);
    cell_bounds(ty, h, th);
    brighter_box(a, b, c, w, h, x0, x1, y0, y1);
    box_bound(a, w, x0, x1, y0, y1);
    box_bound(b, w, x0, x1, y0, y1);
    let n = (x1 - x0) * (y1 - y0);
    assert(n > 0) by (nonlinear_arith)
        requires
            n == (x1 - x0) * (y1 - y0),
            x1 - x0 > 0,
            y1 - y0 > 0,
    ;
    let s = box_sum(a, w, x0, x1, y0, y1);
    let t = box_sum(b, w, x0, x1, y0, y1);
    assert((t + n / 2) / n == (s + n / 2) / n + c) by (nonlinear_arith)
        requires
            n > 0,
            t == s + c * n,
    ;
    mean_in_range(s, n);
    mean_in_range(t, n);
}

proof fn mean_in_range(s: int, n: int)
    requires
        n > 0,
        0 <= s <= 255 * n,
    ensures
        0 <= (s + n / 2) / n <= 255,
{
    assert(0 <= (s + n / 2) / n) by (nonlinear_arith)
        requires
            n > 0,
            0 <= s,
    ;
    assert((s + n / 2) / n < 256) by (nonlinear_arith)
        requires
            n > 0,
            s + n / 2 < 256 * n,
    ;
}

/// Brightening a whole plane does not change its difference hash.
pub proof fn d_hash_ignores_brightness(
    a: Seq<u8>,
    b: Seq<u8>,
    c: int,
    w: int,
    h: int,
    x: u64,
    y: u64,
)
    requires
        can_scale(a, w, h, 9, 8),
        is_brighter(a, b, c),
        is_d_hash(scaled(a, w, h, 9, 8), x),
        is_d_hash(scaled(b, w, h, 9, 8), y),
    ensures
        can_scale(b, w, h, 9, 8),
        x == y,
{
    let s = scaled(a, w, h, 9, 8);
    let t = scaled(b, w, h, 9, 8);
    assert forall|k: int| 0 <= k < 72 implies #[trigger] t[k] == s[k] + c by {
        brighter_mean(a, b, c, w, h, 9, 8, k % 9, k / 9);
    }
    assert forall|i: u64| i < 64 implies #[trigger] bit(x, i) == bit(y, i) by {
        let px = i as int % 8;
        let py = i as int / 8;
        assert(0 <= py * 9 + px && py * 9 + px + 1 < 72);
        assert(t[py * 9 + px] == s[py * 9 + px] + c);
        assert(t[py * 9 + px + 1] == s[py * 9 + px + 1] + c);
        assert(falls(s, px, py) == falls(t, px, py));
        assert(bit(x, i) == falls(s, px, py));
        assert(bit(y, i) == falls(t, px, py));
    }
    bits_decide(x, y);
}

/// A plane of one colour has the difference hash zero.
pub proof fn plain_planes_hash_to_zero(a: Seq<u8>, w: int, h: int, x: u64)
    requires
        can_scale(a, w, h, 9, 8),
        forall|i: int| 0 <= i < a.len() ==> #[trigger] a[i] == a[0],
        is_d_hash(scaled(a, w, h, 9, 8), x),
    ensures
        x == 0,
{
    let dark = Seq::new(a.len(), |i: int| 0u8);
    let c = a[0] as int;
    let s = scaled(a, w, h, 9, 8);
    assert forall|k: int| 0 <= k < 72 implies #[trigger] s[k] == c by {
        brighter_mean(dark, a, c, w, h, 9, 8, k % 9, k / 9);
        dark_mean(dark, w, h, 9, 8, k % 9, k / 9);
    }
    no_bits();
    assert forall|i: u64| i < 64 implies #[trigger] bit(x, i) == bit(0, i) by {
        let px = i as int % 8;
        let py = i as int / 8;
        assert(0 <= py * 9 + px && py * 9 + px + 1 < 72);
        assert(s[py * 9 + px] == c && s[py * 9 + px + 1] == c);
        assert(bit(x, i) == falls(s, px, py));
    }
    bits_decide(x, 0);
}

proof fn dark_row(a: Seq<u8>, w: int, h: int, y: int, x0: int, x1: int)
    requires
        a.len() == w * h,
        forall|i: int| 0 <= i < a.len() ==> #[trigger] a[i] == 0,
        0 <= y < h,
        0 <= x0 <= x1 <= w,
    ensures
        row_sum(a, w, y, x0, x1) == 0,
    decreases x1 - x0,
{
    if x0 < x1 {
        dark_row(a, w, h, y, x0, x1 - 1);
        mask::lemma_pixel_in(w, h, x1 - 1, y);
    }
}

proof fn dark_box(a: Seq<u8>, w: int, h: int, x0: int, x1: int, y0: int, y1: int)
    requires
        a.len() == w * h,
        forall|i: int| 0 <= i < a.len() ==> #[trigger] a[i] == 0,
        0 <= x0 <= x1 <= w,
        0 <= y0 <= y1 <= h,
    ensures
        box_sum(a, w, x0, x1, y0, y1) == 0,
    decreases y1 - y0,
{
    if y0 < y1 {
        dark_box(a, w, h, x0, x1, y0, y1 - 1);
        dark_row(a, w, h, y1 - 1, x0, x1);
    }
}

proof fn dark_mean(a: Seq<u8>, w: int, h: int, tw: int, th: int, tx: int, ty: int)
    requires
        can_scale(a, w, h, tw, th),
        forall|i: int| 0 <= i < a.len() ==> #[trigger] a[i] == 0,
        0 <= tx < tw,
        0 <= ty < th,
    ensures
        cell_mean(a, w, h, tw, th, tx, ty) == 0,
{
    let x0 = cell_start(tx, w, tw);
    let x1 = cell_end(tx, w, tw);
    let y0 = cell_start(ty, h, th);
    let y1 = cell_end(ty, h, th);
    cell_bounds(tx, w, tw);
    cell_bounds(ty, h, th);
    dark_box(a, w, h, x0, x1, y0, y1);
    let n = (x1 - x0) * (y1 - y0);
    assert(n > 0) by (nonlinear_arith)
        requires
            n == (x1 - x0) * (y1 - y0),
            x1 - x0 > 0,
            y1 - y0 > 0,
    ;
    assert((n / 2) / n == 0) by (nonlinear_arith)
        requires
            n > 0,
    ;
}

// ---- what the hashes measure --------------------------------------------------------

/// The `t`-th value of a block, row by row.
pub open spec fn block_value(plane: Seq<u8>, w: int, x0: int, x1: int, y0: int) -> spec_fn(int) -> int {
    |t: int| plane[(y0 + t / (x1 - x0)) * w + (x0 + t % (x1 - x0))] as int
}

proof fn row_is_listed(plane: Seq<u8>, w: int, x0: int, x1: int, y0: int, n: int, k: int)
    requires
        x0 < x1,
        0 <= n,
        0 <= k <= x1 - x0,
    ensures
        counting::sum_below(block_value(plane, w, x0, x1, y0), n * (x1 - x0) + k) == counting::sum_below(
            block_value(plane, w, x0, x1, y0),
            n * (x1 - x0),
        ) + row_sum(plane, w, y0 + n, x0, x0 + k),
    decreases k,
{
    let bw = x1 - x0;
    assert(n * bw >= 0) by (nonlinear_arith)
        requires
            n >= 0,
            bw > 0,
    ;
    if k > 0 {
        row_is_listed(plane, w, x0, x1, y0, n, k - 1);
        let t = n * bw + (k - 1);
        assert(t / bw == n && t % bw == k - 1) by (nonlinear_arith)
            requires
                t == n * bw + (k - 1),
                0 <= k - 1 < bw,
        ;
        assert(block_value(plane, w, x0, x1, y0)(t) == plane[mask::pixel_at(w, x0 + k - 1, y0 + n)]);
    }
}

proof fn box_is_listed(plane: Seq<u8>, w: int, x0: int, x1: int, y0: int, n: int)
    requires
        x0 < x1,
        0 <= n,
    ensures
        box_sum(plane, w, x0, x1, y0, y0 + n) == counting::sum_below(
            block_value(plane, w, x0, x1, y0),
            n * (x1 - x0),
        ),
    decreases n,
{
    let bw = x1 - x0;
    if n > 0 {
        box_is_listed(plane, w, x0, x1, y0, n - 1);
        row_is_listed(plane, w, x0, x1, y0, n - 1, bw);
        assert((n - 1) * bw + bw == n * bw) by (nonlinear_arith);
    } else {
        assert(0 * bw == 0);
    }
}

/// A cell of a reduced plane is the rounded mean of its own block of the plane. The
/// block runs from `tx · w / tw` to `(tx + 1) · w / tw`, both rounded down, and so
/// for the rows.
pub proof fn cell_is_the_mean_of_its_block(
    plane: Seq<u8>,
    w: int,
    h: int,
    tw: int,
    th: int,
    tx: int,
    ty: int,
    x0: int,
    x1: int,
    y0: int,
    y1: int,
)
    requires
        can_scale(plane, w, h, tw, th),
        tw <= w,
        th <= h,
        0 <= tx < tw,
        0 <= ty < th,
        x0 * tw <= tx * w < (x0 + 1) * tw,
        x1 * tw <= (tx + 1) * w < (x1 + 1) * tw,
        y0 * th <= ty * h < (y0 + 1) * th,
        y1 * th <= (ty + 1) * h < (y1 + 1) * th,
    ensures
        x0 < x1,
        y0 < y1,
        ({
            let n = (y1 - y0) * (x1 - x0);
            let sum = counting::sum_below(block_value(plane, w, x0, x1, y0), n);
            let v = scaled(plane, w, h, tw, th)[ty * tw + tx] as int;
            2 * sum - n <= 2 * (v * n) <= 2 * sum + n
        }),
{
    counting::quotient_is(tx * w, tw, x0);
    counting::quotient_is((tx + 1) * w, tw, x1);
    counting::quotient_is(ty * h, th, y0);
    counting::quotient_is((ty + 1) * h, th, y1);
    wide_cell(tx, w, tw, x0, x1);
    wide_cell(ty, h, th, y0, y1);
    let i = ty * tw + tx;
    mask::lemma_pixel_in(tw, th, tx, ty);
    mask::lemma_pixel_split(tw, th, i);
    mask::lemma_pixel_inj(tw, i % tw, i / tw, tx, ty);
    box_is_listed(plane, w, x0, x1, y0, y1 - y0);
    let n = (y1 - y0) * (x1 - x0);
    assert(n > 0 && (x1 - x0) * (y1 - y0) == n) by (nonlinear_arith)
        requires
            n == (y1 - y0) * (x1 - x0),
            x0 < x1,
            y0 < y1,
    ;
    let sum = counting::sum_below(block_value(plane, w, x0, x1, y0), n);
    box_bound(plane, w, x0, x1, y0, y1);
    let v = (sum + n / 2) / n;
    counting::quotient_sides(sum + n / 2, n);
    assert(0 <= v <= 255) by (nonlinear_arith)
        requires
            v == (sum + n / 2) / n,
            0 <= sum <= 255 * n,
            n > 0,
    ;
    assert(v * n == v * n && (v + 1) * n == v * n + n) by (nonlinear_arith);
}

proof fn wide_cell(x: int, w: int, ow: int, x0: int, x1: int)
    requires
        0 < ow <= w,
        0 <= x < ow,
        x0 * ow <= x * w < (x0 + 1) * ow,
        x1 * ow <= (x + 1) * w < (x1 + 1) * ow,
    ensures
        0 <= x0 < x1 <= w,
{
    assert(x0 < x1) by (nonlinear_arith)
        requires
            0 < ow <= w,
            x0 * ow <= x * w,
            (x + 1) * w < (x1 + 1) * ow,
    ;
    assert(0 <= x0) by (nonlinear_arith)
        requires
            0 < ow,
            0 <= x * w,
            x * w < (x0 + 1) * ow,
            0 <= x,
            0 < w,
    ;
    assert(x1 <= w) by (nonlinear_arith)
        requires
            0 < ow,
            0 < w,
            x < ow,
            x1 * ow <= (x + 1) * w,
    ;
}

/// Bit `i` of a difference hash says that cell `i % 8` of row `i / 8` is brighter
/// than the cell to its right, in rows of nine.
pub proof fn difference_bits_compare_neighbours(small: Seq<u8>, hash: u64, i: u64)
    requires
        is_d_hash(small, hash),
        i < 64,
    ensures
        ((hash >> i) & 1 == 1) == (small[9 * (i as int / 8) + i as int % 8] > small[9 * (i as int / 8) + i as int
            % 8 + 1]),
{
    assert(bit(hash, i) == falls(small, i as int % 8, i as int / 8));
}

proof fn cells_are_summed(small: Seq<u8>, n: int)
    ensures
        cell_sum(small, n) == counting::sum_below(|k: int| small[k] as int, n),
    decreases n,
{
    if n > 0 {
        cells_are_summed(small, n - 1);
    }
}

/// Bit `i` of an average hash says that cell `i` is brighter than the mean of all
/// sixty-four.
pub proof fn average_bits_compare_with_the_mean(small: Seq<u8>, hash: u64, i: u64)
    requires
        is_a_hash(small, hash),
        i < 64,
    ensures
        ((hash >> i) & 1 == 1) == (64 * small[i as int] > counting::sum_below(|k: int| small[k] as int, 64)),
{
    assert(bit(hash, i) == (small[i as int] > cell_sum(small, 64) / 64));
    cells_are_summed(small, 64);
}

/// The hashes agree in all bits of a band.
pub open spec fn agrees_in_band(x: u64, y: u64, width: int, band: int) -> bool {
    forall|j: int|
        band * width <= j < (band + 1) * width ==> ((x >> (j as u64)) & 1 == 1) == (#[trigger] (y >> (j as u64)) & 1
            == 1)
}

proof fn same_key_same_bits(x: u64, y: u64, bands: u32, band: int)
    requires
        bands_fit(bands),
        0 <= band < bands,
    ensures
        (band_key(x, bands, band) == band_key(y, bands, band)) == agrees_in_band(
            x,
            y,
            64int / bands as int,
            band,
        ),
{
    let width = 64int / bands as int;
    let a = band_key(x, bands, band);
    let b = band_key(y, bands, band);
    assert(bands * width == 64) by (nonlinear_arith)
        requires
            width == 64int / bands as int,
            64int % bands as int == 0,
            bands > 0,
    ;
    assert(0 < width <= 64 && 0 <= band * width && (band + 1) * width <= 64 && (band + 1) * width == band * width
        + width) by (nonlinear_arith)
        requires
            bands * width == 64,
            0 <= band < bands,
    ;
    if a == b {
        assert forall|j: int| band * width <= j < (band + 1) * width implies ((x >> (j as u64)) & 1 == 1) == (
        #[trigger] (y >> (j as u64)) & 1 == 1) by {
            let i = (j - band * width) as u64;
            band_holds_bits(x, bands, band, i);
            band_holds_bits(y, bands, band, i);
            assert(bit(x, j as u64) == bit(a, i));
            assert(bit(y, j as u64) == bit(b, i));
        }
    }
    if agrees_in_band(x, y, width, band) {
        assert forall|i: u64| i < 64 implies #[trigger] bit(a, i) == bit(b, i) by {
            band_holds_bits(x, bands, band, i);
            band_holds_bits(y, bands, band, i);
            if i < width {
                let j = band * width + i;
                assert(((x >> (j as u64)) & 1 == 1) == ((y >> (j as u64)) & 1 == 1));
            }
        }
        bits_decide(a, b);
    }
}

/// One of the two hashes of the items agrees in all bits of a band.
pub open spec fn items_agree(x: HashItem, y: HashItem, width: int, band: int) -> bool {
    agrees_in_band(x.d, y.d, width, band) || agrees_in_band(x.a, y.a, width, band)
}

/// Two items are a candidate pair exactly where one of their two hashes agrees in
/// all bits of some band.
pub proof fn candidates_agree_in_a_band(items: Seq<HashItem>, bands: u32, pairs: Seq<(usize, usize)>, i: usize, j: usize)
    requires
        is_candidate_list(items, bands, pairs),
        bands > 0,
        64int % bands as int == 0,
        i < j < items.len(),
    ensures
        pairs.contains((i, j)) == (exists|band: int|
            0 <= band < bands && #[trigger] items_agree(
                items[i as int],
                items[j as int],
                64int / bands as int,
                band,
            )),
{
    let x = items[i as int];
    let y = items[j as int];
    let width = 64int / bands as int;
    let p = (i, j);
    if pairs.contains(p) {
        let t = choose|t: int| 0 <= t < pairs.len() && pairs[t] == p;
        assert(is_candidate(items, bands, pairs[t]));
    }
    if is_candidate(items, bands, p) {
        let (kind, band) = choose|kind: int, band: int|
            0 <= kind < 2 && 0 <= band < bands && #[trigger] band_agrees(x, y, bands, kind, band);
        same_key_same_bits(x.d, y.d, bands, band);
        same_key_same_bits(x.a, y.a, bands, band);
        assert(items_agree(x, y, width, band));
    }
    if exists|band: int| 0 <= band < bands && #[trigger] items_agree(x, y, width, band) {
        let band = choose|band: int| 0 <= band < bands && #[trigger] items_agree(x, y, width, band);
        same_key_same_bits(x.d, y.d, bands, band);
        same_key_same_bits(x.a, y.a, bands, band);
        if agrees_in_band(x.d, y.d, width, band) {
            assert(band_agrees(x, y, bands, 0, band));
        } else {
            assert(band_agrees(x, y, bands, 1, band));
        }
        assert(is_candidate(items, bands, p));
    }
}

} // verus!
