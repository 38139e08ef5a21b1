//! Background detection: alpha, border consensus, two colour clusters, and a
//! luma threshold as the last resort; and the mask rule that follows from each.
//!
//! Whether a colour is far enough from the background to be ink is judged in a
//! perceptual colour space, which is not integer arithmetic: the mask rule takes
//! that judgement as one flag per pixel.
use vstd::prelude::*;
use vstd::string::StringExecFns;
use crate::counting;
use crate::mask;
use crate::mask::ForegroundMask;
use crate::raster;
use crate::raster::SheetRaster;
use crate::ratio::Ratio;
use crate::split::Milli;
use crate::text;
use crate::wide;

verus! {

/// How the background was established.
#[derive(Clone, Copy, Debug, PartialEq, Eq, Structural)]
pub enum BackgroundKind {
    /// Most border pixels agree on one colour bin.
    BorderConsensus,
    /// The sheet has a real alpha channel.
    Alpha,
    /// Two colour clusters on the border ring.
    KMeans,
    /// A luma threshold.
    Otsu,
}

/// Detected background description.
#[derive(Clone, Copy, Debug, PartialEq, Eq)]
pub struct BackgroundModel {
    /// Which detector won.
    pub kind: BackgroundKind,
    /// Representative colour; zeros for the alpha and luma detectors.
    pub rgba: [u8; 4],
    /// Share of the pixels that agree.
    pub consensus: Ratio,
}

/// The consensus of a model is a share of a pixel count.
pub open spec fn model_ok(m: BackgroundModel) -> bool {
    &&& 0 < m.consensus.den <= u32::MAX
    &&& m.consensus.num <= m.consensus.den
}

/// Segmentation parameters.
#[derive(Clone, Copy, Debug, PartialEq, Eq, Structural)]
pub struct SegParams {
    /// Least share of the border that must agree, in thousandths.
    pub border_share_min: Milli,
    /// Largest colour difference that is still background, in thousandths.
    pub delta_e_max: Milli,
    /// Least alpha of ink.
    pub alpha_ink_min: u8,
    /// Close passes of the clean stage.
    pub close_passes: u8,
}

impl Default for SegParams {
    fn default() -> (r: Self)
        ensures
            r == (SegParams {
                border_share_min: 850,
                delta_e_max: 12_000,
                alpha_ink_min: 128,
                close_passes: 1,
            }),
    {
        SegParams { border_share_min: 850, delta_e_max: 12_000, alpha_ink_min: 128, close_passes: 1 }
    }
}

/// The three decimals of a number in thousandths.
pub open spec fn thousandths(v: int) -> Seq<char> {
    seq![text::digit_char(v / 100 % 10), text::digit_char(v / 10 % 10), text::digit_char(v % 10)]
}

/// A share: two decimals, or three where the third is not zero.
pub open spec fn share_text(v: int) -> Seq<char> {
    text::decimal((v / 1000) as nat) + seq!['.'] + (if v % 10 == 0 {
        thousandths(v).take(2)
    } else {
        thousandths(v)
    })
}

/// A colour difference: one decimal, or three where the others are not zero.
pub open spec fn difference_text(v: int) -> Seq<char> {
    text::decimal((v / 1000) as nat) + seq!['.'] + (if v % 100 == 0 {
        thousandths(v).take(1)
    } else {
        thousandths(v)
    })
}

/// The parameters as text for cache keys.
pub open spec fn cache_text(p: SegParams) -> Seq<char> {
    "bgs"@ + share_text(p.border_share_min as int) + "de"@ + difference_text(p.delta_e_max as int) + "a"@
        + text::decimal(p.alpha_ink_min as nat) + "cp"@ + text::decimal(p.close_passes as nat)
}

impl SegParams {
    /// The parameters as text for cache keys: the share with two decimals, the
    /// colour difference with one, and either with three where that would drop
    /// a digit.
    pub fn to_cache_string(&self) -> (r: String)
        ensures
            r@ == cache_text(*self),
    {
        let share: u32 = self.border_share_min;
        let delta: u32 = self.delta_e_max;
        let mut s = String::from_str("bgs");
        let ghost s0 = s@;
        text::push_decimal(&mut s, share as u64 / 1000);
        s.push('.');
        text::push_digit(&mut s, (share / 100 % 10) as u8);
        text::push_digit(&mut s, (share / 10 % 10) as u8);
        if share % 10 != 0 {
            text::push_digit(&mut s, (share % 10) as u8);
        }
        assert(s@ =~= s0 + share_text(share as int));
        s.append("de");
        let ghost s1 = s@;
        text::push_decimal(&mut s, delta as u64 / 1000);
        s.push('.');
        text::push_digit(&mut s, (delta / 100 % 10) as u8);
        if delta % 100 != 0 {
            text::push_digit(&mut s, (delta / 10 % 10) as u8);
            text::push_digit(&mut s, (delta % 10) as u8);
        }
        assert(s@ =~= s1 + difference_text(delta as int));
        s.append("a");
        text::push_decimal(&mut s, self.alpha_ink_min as u64);
        s.append("cp");
        text::push_decimal(&mut s, self.close_passes as u64);
        s
    }
}

/// Two texts that go on alike from the first place of a mark are the same
/// before it and after it.
proof fn split_at_mark(x: Seq<char>, u: Seq<char>, y: Seq<char>, v: Seq<char>, c: char)
    requires
        x + seq![c] + u == y + seq![c] + v,
        !x.contains(c),
        !y.contains(c),
    ensures
        x == y,
        u == v,
{
    let a = x + seq![c] + u;
    let b = y + seq![c] + v;
    if x.len() < y.len() {
        assert(a[x.len() as int] == c);
        assert(b[x.len() as int] == y[x.len() as int]);
    }
    if y.len() < x.len() {
        assert(b[y.len() as int] == c);
        assert(a[y.len() as int] == x[y.len() as int]);
    }
    assert forall|i: int| 0 <= i < x.len() implies x[i] == y[i] by {
        assert(a[i] == x[i] && b[i] == y[i]);
    }
    assert(x =~= y);
    let n = x.len() as int + 1;
    assert(a.len() == b.len());
    assert forall|i: int| 0 <= i < u.len() implies u[i] == v[i] by {
        assert(a[n + i] == u[i] && b[n + i] == v[i]);
    }
    assert(u =~= v);
}

proof fn decimals_differ(a: nat, b: nat)
    requires
        text::decimal(a) == text::decimal(b),
    ensures
        a == b,
{
    let limit = if a < b {
        b as int
    } else {
        a as int
    };
    text::decimal_round_trip(a, limit);
    text::decimal_round_trip(b, limit);
}

proof fn digits_differ(a: int, b: int)
    requires
        0 <= a < 10,
        0 <= b < 10,
        text::digit_char(a) == text::digit_char(b),
    ensures
        a == b,
{
}

/// A text of digits holds no other character.
proof fn only_digits(n: nat, c: char)
    requires
        !text::is_digit(c),
    ensures
        !text::decimal(n).contains(c),
{
    text::decimal_is_digits(n);
}

/// A number with decimals holds digits and a point only.
proof fn only_number(v: int, c: char)
    requires
        0 <= v,
        !text::is_digit(c),
        c != '.',
    ensures
        !share_text(v).contains(c),
        !difference_text(v).contains(c),
{
    text::decimal_is_digits((v / 1000) as nat);
    let t = thousandths(v);
    assert forall|i: int| 0 <= i < 3 implies text::is_digit(#[trigger] t[i]) by {}
    let whole = text::decimal((v / 1000) as nat);
    assert forall|i: int| 0 <= i < share_text(v).len() implies share_text(v)[i] != c by {
        if i < whole.len() {
            assert(share_text(v)[i] == whole[i]);
        } else if i > whole.len() {
            assert(share_text(v)[i] == t[i - whole.len() - 1]);
        }
    }
    assert forall|i: int| 0 <= i < difference_text(v).len() implies difference_text(v)[i] != c by {
        if i < whole.len() {
            assert(difference_text(v)[i] == whole[i]);
        } else if i > whole.len() {
            assert(difference_text(v)[i] == t[i - whole.len() - 1]);
        }
    }
}

proof fn thousandths_differ(a: int, b: int)
    requires
        0 <= a,
        0 <= b,
        a / 1000 == b / 1000,
        thousandths(a) == thousandths(b),
    ensures
        a == b,
{
    let s = thousandths(a);
    let t = thousandths(b);
    assert(s[0] == t[0] && s[1] == t[1] && s[2] == t[2]);
    digits_differ(a / 100 % 10, b / 100 % 10);
    digits_differ(a / 10 % 10, b / 10 % 10);
    digits_differ(a % 10, b % 10);
    decimals_add_up(a);
    decimals_add_up(b);
}

proof fn decimals_add_up(v: int)
    requires
        0 <= v,
    ensures
        v == 1000 * (v / 1000) + 100 * (v / 100 % 10) + 10 * (v / 10 % 10) + v % 10,
{
    assert(v == 10 * (v / 10) + v % 10);
    assert(v / 10 == 10 * (v / 100) + v / 10 % 10);
    assert(v / 100 == 10 * (v / 1000) + v / 100 % 10);
}

proof fn shares_differ(a: int, b: int)
    requires
        0 <= a,
        0 <= b,
        share_text(a) == share_text(b),
    ensures
        a == b,
{
    let x = text::decimal((a / 1000) as nat);
    let y = text::decimal((b / 1000) as nat);
    let u = if a % 10 == 0 {
        thousandths(a).take(2)
    } else {
        thousandths(a)
    };
    let v = if b % 10 == 0 {
        thousandths(b).take(2)
    } else {
        thousandths(b)
    };
    only_digits((a / 1000) as nat, '.');
    only_digits((b / 1000) as nat, '.');
    split_at_mark(x, u, y, v, '.');
    decimals_differ((a / 1000) as nat, (b / 1000) as nat);
    assert(u.len() == v.len());
    assert(u[0] == v[0] && u[1] == v[1]);
    assert(thousandths(a) =~= thousandths(b)) by {
        if a % 10 != 0 {
            assert(u[2] == v[2]);
        }
    }
    thousandths_differ(a, b);
}

proof fn differences_differ(a: int, b: int)
    requires
        0 <= a,
        0 <= b,
        difference_text(a) == difference_text(b),
    ensures
        a == b,
{
    let x = text::decimal((a / 1000) as nat);
    let y = text::decimal((b / 1000) as nat);
    let u = if a % 100 == 0 {
        thousandths(a).take(1)
    } else {
        thousandths(a)
    };
    let v = if b % 100 == 0 {
        thousandths(b).take(1)
    } else {
        thousandths(b)
    };
    only_digits((a / 1000) as nat, '.');
    only_digits((b / 1000) as nat, '.');
    split_at_mark(x, u, y, v, '.');
    decimals_differ((a / 1000) as nat, (b / 1000) as nat);
    assert(u.len() == v.len());
    assert(u[0] == v[0]);
    assert(thousandths(a) =~= thousandths(b)) by {
        if a % 100 != 0 {
            assert(u[1] == v[1] && u[2] == v[2]);
        } else {
            assert(a / 10 % 10 == 0 && b / 10 % 10 == 0 && a % 10 == 0 && b % 10 == 0);
        }
    }
    thousandths_differ(a, b);
}

/// The text from the close passes on, without the mark before them.
spec fn passes_part(p: SegParams) -> Seq<char> {
    seq!['p'] + text::decimal(p.close_passes as nat)
}

/// The text from the alpha on.
spec fn alpha_part(p: SegParams) -> Seq<char> {
    text::decimal(p.alpha_ink_min as nat) + seq!['c'] + passes_part(p)
}

/// The colour difference, with the rest of the mark before it.
spec fn difference_part(p: SegParams) -> Seq<char> {
    seq!['e'] + difference_text(p.delta_e_max as int)
}

/// The text from the share on.
spec fn share_part(p: SegParams) -> Seq<char> {
    share_text(p.border_share_min as int) + seq!['d'] + (difference_part(p) + seq!['a'] + alpha_part(p))
}

proof fn cache_text_parts(p: SegParams)
    ensures
        share_part(p) == cache_text(p).skip(3),
{
    reveal_strlit("bgs");
    reveal_strlit("de");
    reveal_strlit("a");
    reveal_strlit("cp");
    let s = share_text(p.border_share_min as int);
    let d = difference_text(p.delta_e_max as int);
    let i = text::decimal(p.alpha_ink_min as nat);
    let c = text::decimal(p.close_passes as nat);
    let head = "bgs"@ + s + "de"@ + d + "a"@;
    assert(head =~= "bgs"@ + (s + seq!['d'] + (seq!['e'] + d) + seq!['a']));
    assert(cache_text(p) =~= head + (i + seq!['c'] + (seq!['p'] + c)));
    assert(share_part(p) =~= (s + seq!['d'] + (seq!['e'] + d) + seq!['a']) + alpha_part(p));
    assert(share_part(p) =~= cache_text(p).skip(3));
}

proof fn difference_has_no_a(p: SegParams)
    ensures
        !difference_part(p).contains('a'),
{
    only_number(p.delta_e_max as int, 'a');
    let d = difference_text(p.delta_e_max as int);
    assert forall|i: int| 0 <= i < difference_part(p).len() implies difference_part(p)[i] != 'a' by {
        if i > 0 {
            assert(difference_part(p)[i] == d[i - 1]);
        }
    }
}

/// Different parameters have different texts.
pub proof fn cache_text_tells_apart(a: SegParams, b: SegParams)
    requires
        cache_text(a) == cache_text(b),
    ensures
        a == b,
{
    cache_text_parts(a);
    cache_text_parts(b);
    only_number(a.border_share_min as int, 'd');
    only_number(b.border_share_min as int, 'd');
    split_at_mark(
        share_text(a.border_share_min as int),
        difference_part(a) + seq!['a'] + alpha_part(a),
        share_text(b.border_share_min as int),
        difference_part(b) + seq!['a'] + alpha_part(b),
        'd',
    );
    shares_differ(a.border_share_min as int, b.border_share_min as int);
    difference_has_no_a(a);
    difference_has_no_a(b);
    split_at_mark(difference_part(a), alpha_part(a), difference_part(b), alpha_part(b), 'a');
    assert(difference_text(a.delta_e_max as int) =~= difference_part(a).skip(1));
    assert(difference_text(b.delta_e_max as int) =~= difference_part(b).skip(1));
    differences_differ(a.delta_e_max as int, b.delta_e_max as int);
    only_digits(a.alpha_ink_min as nat, 'c');
    only_digits(b.alpha_ink_min as nat, 'c');
    split_at_mark(
        text::decimal(a.alpha_ink_min as nat),
        passes_part(a),
        text::decimal(b.alpha_ink_min as nat),
        passes_part(b),
        'c',
    );
    decimals_differ(a.alpha_ink_min as nat, b.alpha_ink_min as nat);
    assert(text::decimal(a.close_passes as nat) =~= passes_part(a).skip(1));
    assert(text::decimal(b.close_passes as nat) =~= passes_part(b).skip(1));
    decimals_differ(a.close_passes as nat, b.close_passes as nat);
}

// ---- alpha --------------------------------------------------------------------------

/// Which pixels are fully transparent.
pub open spec fn is_clear(rgba: Seq<u8>) -> spec_fn(int) -> bool {
    |i: int| rgba[4 * i + 3] == 0
}

/// How many pixels are fully transparent.
pub open spec fn clear_count(r: SheetRaster) -> int {
    counting::count_below(is_clear(r.rgba@), r.width * r.height)
}

/// A tenth of the sheet is fully transparent.
pub open spec fn has_alpha(r: SheetRaster) -> bool {
    10 * clear_count(r) >= r.width * r.height
}

/// The sheet is not empty.
pub open spec fn sheet_ok(r: SheetRaster) -> bool {
    r.wf() && r.width > 0 && r.height > 0
}

proof fn sheet_area(r: SheetRaster)
    requires
        sheet_ok(r),
    ensures
        0 < r.width * r.height <= mask::MAX_PIXELS,
{
    assert(0 < r.width * r.height) by (nonlinear_arith)
        requires
            r.width > 0,
            r.height > 0,
    ;
}

fn count_clear(r: &SheetRaster) -> (n: u64)
    requires
        r.wf(),
    ensures
        n == clear_count(*r),
        n <= r.width * r.height,
{
    let total: usize = r.luma.len();
    let len: usize = r.rgba.len();
    let mut n: u64 = 0;
    let mut i: usize = 0;
    while i < total
        invariant
            i <= total,
            total == r.luma@.len(),
            r.wf(),
            len == r.rgba@.len(),
            n <= i,
            n == counting::count_below(is_clear(r.rgba@), i as int),
        decreases total - i,
    {
        if r.rgba[4 * i + 3] == 0 {
            n = n + 1;
        }
        i = i + 1;
    }
    n
}

/// The model of a sheet with an alpha channel.
pub open spec fn is_alpha_model(r: SheetRaster, m: BackgroundModel) -> bool {
    &&& m.kind == BackgroundKind::Alpha
    &&& m.rgba@ == seq![0u8, 0u8, 0u8, 0u8]
    &&& m.consensus.num == clear_count(r)
    &&& m.consensus.den == r.width * r.height
}

/// Accepts transparency as the background.
pub fn detect_alpha(r: &SheetRaster) -> (m: Option<BackgroundModel>)
    requires
        sheet_ok(*r),
    ensures
        match m {
            Some(b) => has_alpha(*r) && is_alpha_model(*r, b) && model_ok(b),
            None => !has_alpha(*r),
        },
{
    proof {
        sheet_area(*r);
    }
    let n: u64 = count_clear(r);
    let total: u64 = r.luma.len() as u64;
    if 10 * n >= total {
        let rgba: [u8; 4] = [0, 0, 0, 0];
        assert(rgba@ =~= seq![0u8, 0u8, 0u8, 0u8]);
        Some(
            BackgroundModel {
                kind: BackgroundKind::Alpha,
                rgba,
                consensus: Ratio { num: n as u128, den: total as u128 },
            },
        )
    } else {
        None
    }
}

// ---- the border ring ------------------------------------------------------------------

/// A pixel of the ring: red, green, blue, alpha.
pub type Pixel = (u8, u8, u8, u8);

/// The pixel at `(x, y)`.
pub open spec fn pixel_of(r: SheetRaster, x: int, y: int) -> Pixel {
    (r.channel(x, y, 0), r.channel(x, y, 1), r.channel(x, y, 2), r.channel(x, y, 3))
}

/// The first `n` columns of the top and the bottom row.
pub open spec fn ring_rows(r: SheetRaster, n: int) -> Seq<Pixel>
    decreases n,
{
    if n <= 0 {
        Seq::empty()
    } else {
        ring_rows(r, n - 1).push(pixel_of(r, n - 1, 0)).push(pixel_of(r, n - 1, r.height - 1))
    }
}

/// The whole top and bottom row, and rows `1..n` of the left and right column.
pub open spec fn ring_upto(r: SheetRaster, n: int) -> Seq<Pixel>
    decreases n,
{
    if n <= 1 {
        ring_rows(r, r.width as int)
    } else {
        ring_upto(r, n - 1).push(pixel_of(r, 0, n - 1)).push(pixel_of(r, r.width - 1, n - 1))
    }
}

/// The border ring.
pub open spec fn ring_of(r: SheetRaster) -> Seq<Pixel> {
    ring_upto(r, r.height - 1)
}

fn pixel_at(r: &SheetRaster, x: u32, y: u32) -> (p: Pixel)
    requires
        r.wf(),
        r.inside(x as int, y as int),
    ensures
        p == pixel_of(*r, x as int, y as int),
{
    let px = r.pixel(x, y);
    (px[0], px[1], px[2], px[3])
}

fn border_ring(r: &SheetRaster) -> (v: Vec<Pixel>)
    requires
        r.wf(),
        r.width >= 2,
        r.height >= 2,
    ensures
        v@ == ring_of(*r),
        v@.len() == 2 * (r.width + r.height) - 4,
        v@[0] == pixel_of(*r, 0, 0),
{
    let mut out: Vec<Pixel> = Vec::new();
    let mut x: u32 = 0;
    while x < r.width
        invariant
            x <= r.width,
            r.wf(),
            r.width >= 2,
            r.height >= 2,
            out@ == ring_rows(*r, x as int),
            out@.len() == 2 * x,
            x > 0 ==> out@[0] == pixel_of(*r, 0, 0),
        decreases r.width - x,
    {
        out.push(pixel_at(r, x, 0));
        out.push(pixel_at(r, x, r.height - 1));
        x = x + 1;
    }
    let mut y: u32 = 1;
    while y < r.height - 1
        invariant
            1 <= y <= r.height - 1,
            r.wf(),
            r.width >= 2,
            r.height >= 2,
            out@ == ring_upto(*r, y as int),
            out@.len() == 2 * r.width + 2 * (y - 1),
            out@[0] == pixel_of(*r, 0, 0),
        decreases r.height - y,
    {
        out.push(pixel_at(r, 0, y));
        out.push(pixel_at(r, r.width - 1, y));
        y = y + 1;
    }
    out
}

/// The ring is no longer than a pixel count allows.
proof fn ring_bound(r: SheetRaster)
    requires
        r.wf(),
        r.width >= 2,
        r.height >= 2,
    ensures
        2 * (r.width + r.height) - 4 <= 2 * mask::MAX_PIXELS,
        2 * (r.width + r.height) - 4 <= u32::MAX,
        2 * (r.width + r.height) - 4 >= 4,
{
    assert(r.width + r.height <= r.width * r.height) by (nonlinear_arith)
        requires
            r.width >= 2,
            r.height >= 2,
    ;
}

// ---- consensus ------------------------------------------------------------------------

/// The colour bin of a pixel: four bits per channel.
pub open spec fn bin_of(p: Pixel) -> int {
    (p.0 / 16) * 256 + (p.1 / 16) * 16 + p.2 / 16
}

/// Which ring pixels fall into bin `b`.
pub open spec fn in_bin(ring: Seq<Pixel>, b: int) -> spec_fn(int) -> bool {
    |i: int| bin_of(ring[i]) == b
}

/// How many ring pixels fall into bin `b`.
pub open spec fn bin_count(ring: Seq<Pixel>, b: int) -> int {
    counting::count_below(in_bin(ring, b), ring.len() as int)
}

/// Bin `b` has the most pixels, and is the lowest that does.
pub open spec fn is_mode(ring: Seq<Pixel>, b: int) -> bool {
    &&& 0 <= b < 4096
    &&& forall|c: int| 0 <= c < 4096 ==> #[trigger] bin_count(ring, c) <= bin_count(ring, b)
    &&& forall|c: int| 0 <= c < b ==> #[trigger] bin_count(ring, c) < bin_count(ring, b)
}

/// Channel `c` of a pixel.
pub open spec fn channel_of(p: Pixel, c: int) -> u8 {
    if c == 0 {
        p.0
    } else if c == 1 {
        p.1
    } else if c == 2 {
        p.2
    } else {
        p.3
    }
}

/// Channel `c` of the ring pixels that satisfy `f`, zero elsewhere.
pub open spec fn picked_channel(ring: Seq<Pixel>, f: spec_fn(int) -> bool, c: int) -> spec_fn(int) -> int {
    |i: int|
        if f(i) {
            channel_of(ring[i], c) as int
        } else {
            0
        }
}

/// The sum of channel `c` over the first `n` ring pixels that satisfy `f`.
pub open spec fn picked_sum(ring: Seq<Pixel>, f: spec_fn(int) -> bool, c: int, n: int) -> int {
    counting::sum_below(picked_channel(ring, f, c), n)
}

/// The mean of channel `c` over the ring pixels that satisfy `f`, rounded down.
pub open spec fn picked_mean(ring: Seq<Pixel>, f: spec_fn(int) -> bool, c: int) -> int {
    picked_sum(ring, f, c, ring.len() as int) / counting::count_below(f, ring.len() as int)
}

proof fn picked_bounds(ring: Seq<Pixel>, f: spec_fn(int) -> bool, c: int, n: int)
    requires
        0 <= n,
    ensures
        0 <= picked_sum(ring, f, c, n) <= 255 * counting::count_below(f, n),
        counting::count_below(f, n) <= n,
    decreases n,
{
    if n > 0 {
        picked_bounds(ring, f, c, n - 1);
    }
}

/// The model of a border that agrees on bin `b`.
pub open spec fn is_consensus_model(ring: Seq<Pixel>, b: int, m: BackgroundModel) -> bool {
    &&& m.kind == BackgroundKind::BorderConsensus
    &&& forall|c: int| 0 <= c < 4 ==> #[trigger] m.rgba@[c] == picked_mean(ring, in_bin(ring, b), c)
    &&& m.consensus.num == bin_count(ring, b)
    &&& m.consensus.den == ring.len()
}

/// The border agrees: the sheet has a ring, and the share of its fullest bin is
/// large enough.
pub open spec fn has_consensus(r: SheetRaster, min_share: int, b: int) -> bool {
    &&& r.width >= 2
    &&& r.height >= 2
    &&& is_mode(ring_of(r), b)
    &&& bin_count(ring_of(r), b) * 1000 >= min_share * ring_of(r).len()
}

fn bin(p: Pixel) -> (b: usize)
    ensures
        b == bin_of(p),
        b < 4096,
{
    (p.0 / 16) as usize * 256 + (p.1 / 16) as usize * 16 + (p.2 / 16) as usize
}

fn count_bins(ring: &Vec<Pixel>) -> (bins: Vec<u64>)
    ensures
        bins@.len() == 4096,
        forall|b: int| 0 <= b < 4096 ==> #[trigger] bins@[b] == bin_count(ring@, b),
{
    let mut bins: Vec<u64> = Vec::new();
    let mut i: usize = 0;
    while i < 4096
        invariant
            i <= 4096,
            bins@.len() == i,
            forall|b: int| 0 <= b < i ==> #[trigger] bins@[b] == 0,
        decreases 4096 - i,
    {
        bins.push(0);
        i = i + 1;
    }
    let n: usize = ring.len();
    let mut i: usize = 0;
    while i < n
        invariant
            i <= n,
            n == ring@.len(),
            bins@.len() == 4096,
            forall|b: int|
                0 <= b < 4096 ==> #[trigger] bins@[b] == counting::count_below(
                    in_bin(ring@, b),
                    i as int,
                ),
        decreases n - i,
    {
        let b: usize = bin(ring[i]);
        let ghost old_bins = bins@;
        proof {
            counting::count_bounds(in_bin(ring@, b as int), i as int);
        }
        let v: u64 = bins[b];
        bins.set(b, v + 1);
        proof {
            assert forall|c: int| 0 <= c < 4096 implies #[trigger] bins@[c] == counting::count_below(
                in_bin(ring@, c),
                i as int + 1,
            ) by {
                assert(old_bins[c] == counting::count_below(in_bin(ring@, c), i as int));
            }
        }
        i = i + 1;
    }
    bins
}

fn fullest_bin(ring: &Vec<Pixel>, bins: &Vec<u64>) -> (b: usize)
    requires
        bins@.len() == 4096,
        forall|b: int| 0 <= b < 4096 ==> #[trigger] bins@[b] == bin_count(ring@, b),
    ensures
        is_mode(ring@, b as int),
{
    let mut best: usize = 0;
    let mut i: usize = 1;
    while i < 4096
        invariant
            1 <= i <= 4096,
            best < i,
            bins@.len() == 4096,
            forall|b: int| 0 <= b < 4096 ==> #[trigger] bins@[b] == bin_count(ring@, b),
            forall|c: int| 0 <= c < i ==> #[trigger] bin_count(ring@, c) <= bin_count(ring@, best as int),
            forall|c: int| 0 <= c < best ==> #[trigger] bin_count(ring@, c) < bin_count(ring@, best as int),
        decreases 4096 - i,
    {
        assert(bins@[i as int] == bin_count(ring@, i as int));
        assert(bins@[best as int] == bin_count(ring@, best as int));
        if bins[i] > bins[best] {
            best = i;
        }
        i = i + 1;
    }
    best
}

/// The means of all channels over the pixels of one bin.
fn bin_mean(ring: &Vec<Pixel>, b: usize) -> (m: [u8; 4])
    requires
        bin_count(ring@, b as int) > 0,
        ring@.len() <= u32::MAX,
    ensures
        forall|c: int| 0 <= c < 4 ==> #[trigger] m@[c] == picked_mean(ring@, in_bin(ring@, b as int), c),
{
    let ghost f = in_bin(ring@, b as int);
    let n: usize = ring.len();
    let mut s0: u64 = 0;
    let mut s1: u64 = 0;
    let mut s2: u64 = 0;
    let mut s3: u64 = 0;
    let mut k: u64 = 0;
    let mut i: usize = 0;
    while i < n
        invariant
            i <= n,
            n == ring@.len(),
            n <= u32::MAX,
            f == in_bin(ring@, b as int),
            s0 == picked_sum(ring@, f, 0, i as int),
            s1 == picked_sum(ring@, f, 1, i as int),
            s2 == picked_sum(ring@, f, 2, i as int),
            s3 == picked_sum(ring@, f, 3, i as int),
            k == counting::count_below(f, i as int),
        decreases n - i,
    {
        proof {
            picked_bounds(ring@, f, 0, i as int);
            picked_bounds(ring@, f, 1, i as int);
            picked_bounds(ring@, f, 2, i as int);
            picked_bounds(ring@, f, 3, i as int);
        }
        let p = ring[i];
        if bin(p) == b {
            s0 = s0 + p.0 as u64;
            s1 = s1 + p.1 as u64;
            s2 = s2 + p.2 as u64;
            s3 = s3 + p.3 as u64;
            k = k + 1;
        }
        i = i + 1;
    }
    proof {
        picked_bounds(ring@, f, 0, n as int);
        picked_bounds(ring@, f, 1, n as int);
        picked_bounds(ring@, f, 2, n as int);
        picked_bounds(ring@, f, 3, n as int);
        mean_is_byte(s0 as int, k as int);
        mean_is_byte(s1 as int, k as int);
        mean_is_byte(s2 as int, k as int);
        mean_is_byte(s3 as int, k as int);
    }
    [(s0 / k) as u8, (s1 / k) as u8, (s2 / k) as u8, (s3 / k) as u8]
}

proof fn mean_is_byte(s: int, k: int)
    requires
        0 < k,
        0 <= s <= 255 * k,
    ensures
        0 <= s / k <= 255,
{
    assert(0 <= s / k <= 255) by (nonlinear_arith)
        requires
            0 < k,
            0 <= s <= 255 * k,
    ;
}

/// A non-empty ring fills some bin.
proof fn mode_is_filled(ring: Seq<Pixel>, b: int)
    requires
        ring.len() > 0,
        is_mode(ring, b),
    ensures
        0 < bin_count(ring, b) <= ring.len(),
{
    let c = bin_of(ring[0]);
    counting::count_positive(in_bin(ring, c), ring.len() as int, 0);
    assert(bin_count(ring, c) <= bin_count(ring, b));
    counting::count_bounds(in_bin(ring, b), ring.len() as int);
}

/// Accepts the border colour when enough of the border agrees on it. The colour
/// is the mean of the exact colours in the fullest bin.
pub fn detect_border_consensus(r: &SheetRaster, min_share: Milli) -> (m: Option<BackgroundModel>)
    requires
        r.wf(),
    ensures
        match m {
            Some(v) => model_ok(v) && exists|b: int| #[trigger]
                has_consensus(*r, min_share as int, b) && is_consensus_model(ring_of(*r), b, v),
            None => forall|b: int| !#[trigger] has_consensus(*r, min_share as int, b),
        },
{
    if r.width < 2 || r.height < 2 {
        return None;
    }
    proof {
        ring_bound(*r);
    }
    let ring = border_ring(r);
    let bins = count_bins(&ring);
    let b: usize = fullest_bin(&ring, &bins);
    let total: u64 = ring.len() as u64;
    let best: u64 = bins[b];
    proof {
        mode_is_filled(ring@, b as int);
        assert(bins@[b as int] == bin_count(ring@, b as int));
        assert(min_share * total <= 0xffff_ffff * 0xffff_ffff) by (nonlinear_arith)
            requires
                min_share <= 0xffff_ffff,
                total <= 0xffff_ffff,
        ;
    }
    if best * 1000 < min_share as u64 * total {
        proof {
            assert forall|c: int| !#[trigger] has_consensus(*r, min_share as int, c) by {
                if has_consensus(*r, min_share as int, c) {
                    assert(bin_count(ring@, c) <= bin_count(ring@, b as int));
                }
            }
        }
        return None;
    }
    let rgba = bin_mean(&ring, b);
    let m = BackgroundModel {
        kind: BackgroundKind::BorderConsensus,
        rgba,
        consensus: Ratio { num: best as u128, den: total as u128 },
    };
    assert(has_consensus(*r, min_share as int, b as int));
    assert(is_consensus_model(ring@, b as int, m));
    Some(m)
}

// ---- two clusters ---------------------------------------------------------------------

/// A colour without alpha.
pub type Colour = (u8, u8, u8);

/// The colour of a pixel.
pub open spec fn colour_of(p: Pixel) -> Colour {
    (p.0, p.1, p.2)
}

/// Squared distance of two colours.
pub open spec fn colour_gap(a: Colour, b: Colour) -> int {
    (a.0 - b.0) * (a.0 - b.0) + (a.1 - b.1) * (a.1 - b.1) + (a.2 - b.2) * (a.2 - b.2)
}

/// Colour order: red, then green, then blue.
pub open spec fn colour_le(a: Colour, b: Colour) -> bool {
    a.0 < b.0 || (a.0 == b.0 && (a.1 < b.1 || (a.1 == b.1 && a.2 <= b.2)))
}

/// `a` is no better a second seed than `b`: nearer to the first, or as near and
/// not later in colour order.
pub open spec fn seed_le(a: Colour, b: Colour, first: Colour) -> bool {
    colour_gap(a, first) < colour_gap(b, first) || (colour_gap(a, first) == colour_gap(b, first)
        && colour_le(a, b))
}

/// The corners other than the top-left one.
pub open spec fn other_corners(r: SheetRaster) -> Seq<Pixel> {
    seq![
        pixel_of(r, r.width - 1, 0),
        pixel_of(r, 0, r.height - 1),
        pixel_of(r, r.width - 1, r.height - 1),
    ]
}

/// The second seed: the colour of the corner farthest from the first.
pub open spec fn is_far_seed(corners: Seq<Pixel>, first: Colour, s: Colour) -> bool {
    &&& exists|i: int| 0 <= i < corners.len() && colour_of(#[trigger] corners[i]) == s
    &&& forall|i: int| 0 <= i < corners.len() ==> seed_le(colour_of(#[trigger] corners[i]), s, first)
}

/// Ring pixels at least as near to `c0` as to `c1`.
pub open spec fn nearer(ring: Seq<Pixel>, c0: Colour, c1: Colour) -> spec_fn(int) -> bool {
    |i: int| colour_gap(colour_of(ring[i]), c0) <= colour_gap(colour_of(ring[i]), c1)
}

/// Ring pixels nearer to `c1` than to `c0`.
pub open spec fn farther(ring: Seq<Pixel>, c0: Colour, c1: Colour) -> spec_fn(int) -> bool {
    |i: int| colour_gap(colour_of(ring[i]), c0) > colour_gap(colour_of(ring[i]), c1)
}

/// The centre of the pixels that satisfy `f`, or `c` when there are none.
pub open spec fn centre_of(ring: Seq<Pixel>, f: spec_fn(int) -> bool, c: Colour) -> Colour {
    if counting::count_below(f, ring.len() as int) == 0 {
        c
    } else {
        (
            picked_mean(ring, f, 0) as u8,
            picked_mean(ring, f, 1) as u8,
            picked_mean(ring, f, 2) as u8,
        )
    }
}

/// One refinement of two centres.
pub open spec fn refined(ring: Seq<Pixel>, c: (Colour, Colour)) -> (Colour, Colour) {
    (
        centre_of(ring, nearer(ring, c.0, c.1), c.0),
        centre_of(ring, farther(ring, c.0, c.1), c.1),
    )
}

/// The centres after `k` refinements.
pub open spec fn centres_after(ring: Seq<Pixel>, c: (Colour, Colour), k: int) -> (Colour, Colour)
    decreases k,
{
    if k <= 0 {
        c
    } else {
        refined(ring, centres_after(ring, c, k - 1))
    }
}

/// How often the centres are refined.
pub const KMEANS_ROUNDS: u32 = 12;

/// The model of two clusters: the one that owns more of the border, the first on
/// a tie.
pub open spec fn is_cluster_model(ring: Seq<Pixel>, c: (Colour, Colour), m: BackgroundModel) -> bool {
    let v0 = counting::count_below(nearer(ring, c.0, c.1), ring.len() as int);
    let v1 = counting::count_below(farther(ring, c.0, c.1), ring.len() as int);
    let bg = if v0 >= v1 {
        c.0
    } else {
        c.1
    };
    &&& m.kind == BackgroundKind::KMeans
    &&& m.rgba@ == seq![bg.0, bg.1, bg.2, 255u8]
    &&& m.consensus.num == (if v0 >= v1 {
        v0
    } else {
        v1
    })
    &&& m.consensus.den == ring.len()
}

/// `m` is the two-cluster model of the sheet, with second seed `far`.
pub open spec fn clusters(r: SheetRaster, far: Colour, m: BackgroundModel) -> bool {
    let ring = ring_of(r);
    let first = colour_of(pixel_of(r, 0, 0));
    is_far_seed(other_corners(r), first, far) && is_cluster_model(
        ring,
        centres_after(ring, (first, far), KMEANS_ROUNDS as int),
        m,
    )
}

fn square_gap(a: u8, b: u8) -> (r: u32)
    ensures
        r == (a - b) * (a - b),
        r <= 65025,
{
    let d: u32 = if a >= b {
        (a - b) as u32
    } else {
        (b - a) as u32
    };
    assert(d * d == (a - b) * (a - b)) by (nonlinear_arith)
        requires
            d == a - b || d == b - a,
    ;
    assert(d * d <= 65025) by (nonlinear_arith)
        requires
            0 <= d <= 255,
    ;
    d * d
}

/// Squared distance of two colours.
pub fn dist2(a: Colour, b: Colour) -> (r: u32)
    ensures
        r == colour_gap(a, b),
{
    square_gap(a.0, b.0) + square_gap(a.1, b.1) + square_gap(a.2, b.2)
}

fn colour_before(a: Colour, b: Colour) -> (r: bool)
    ensures
        r == colour_le(a, b),
{
    a.0 < b.0 || (a.0 == b.0 && (a.1 < b.1 || (a.1 == b.1 && a.2 <= b.2)))
}

fn far_seed(corners: &Vec<Pixel>, first: Colour) -> (s: Colour)
    requires
        corners@.len() > 0,
    ensures
        is_far_seed(corners@, first, s),
{
    let p = corners[0];
    let mut best: Colour = (p.0, p.1, p.2);
    let mut i: usize = 1;
    assert(colour_of(corners@[0]) == best);
    while i < corners.len()
        invariant
            1 <= i <= corners@.len(),
            exists|k: int| 0 <= k < corners@.len() && colour_of(#[trigger] corners@[k]) == best,
            forall|k: int| 0 <= k < i ==> seed_le(colour_of(#[trigger] corners@[k]), best, first),
        decreases corners@.len() - i,
    {
        let p = corners[i];
        let c: Colour = (p.0, p.1, p.2);
        let d: u32 = dist2(c, first);
        let e: u32 = dist2(best, first);
        assert(colour_of(corners@[i as int]) == c);
        if e < d || (e == d && colour_before(best, c)) {
            best = c;
        }
        i = i + 1;
    }
    best
}

/// The sums and the count of the ring pixels on one side.
struct Sums {
    r: u64,
    g: u64,
    b: u64,
    n: u64,
}

spec fn are_sums(s: Sums, ring: Seq<Pixel>, f: spec_fn(int) -> bool, n: int) -> bool {
    &&& s.r == picked_sum(ring, f, 0, n)
    &&& s.g == picked_sum(ring, f, 1, n)
    &&& s.b == picked_sum(ring, f, 2, n)
    &&& s.n == counting::count_below(f, n)
}

fn sum_sides(ring: &Vec<Pixel>, c0: Colour, c1: Colour) -> (r: (Sums, Sums))
    requires
        ring@.len() <= u32::MAX,
    ensures
        are_sums(r.0, ring@, nearer(ring@, c0, c1), ring@.len() as int),
        are_sums(r.1, ring@, farther(ring@, c0, c1), ring@.len() as int),
{
    let ghost f = nearer(ring@, c0, c1);
    let ghost g = farther(ring@, c0, c1);
    let mut a = Sums { r: 0, g: 0, b: 0, n: 0 };
    let mut b = Sums { r: 0, g: 0, b: 0, n: 0 };
    let mut i: usize = 0;
    while i < ring.len()
        invariant
            i <= ring@.len(),
            ring@.len() <= u32::MAX,
            f == nearer(ring@, c0, c1),
            g == farther(ring@, c0, c1),
            are_sums(a, ring@, f, i as int),
            are_sums(b, ring@, g, i as int),
        decreases ring@.len() - i,
    {
        proof {
            picked_bounds(ring@, f, 0, i as int);
            picked_bounds(ring@, f, 1, i as int);
            picked_bounds(ring@, f, 2, i as int);
            picked_bounds(ring@, g, 0, i as int);
            picked_bounds(ring@, g, 1, i as int);
            picked_bounds(ring@, g, 2, i as int);
        }
        let p = ring[i];
        let c: Colour = (p.0, p.1, p.2);
        assert(colour_of(ring@[i as int]) == c);
        if dist2(c, c0) <= dist2(c, c1) {
            a = Sums { r: a.r + p.0 as u64, g: a.g + p.1 as u64, b: a.b + p.2 as u64, n: a.n + 1 };
        } else {
            b = Sums { r: b.r + p.0 as u64, g: b.g + p.1 as u64, b: b.b + p.2 as u64, n: b.n + 1 };
        }
        i = i + 1;
    }
    (a, b)
}

fn centre(s: &Sums, c: Colour, ring: &Vec<Pixel>, Ghost(f): Ghost<spec_fn(int) -> bool>) -> (r: Colour)
    requires
        are_sums(*s, ring@, f, ring@.len() as int),
    ensures
        r == centre_of(ring@, f, c),
{
    if s.n == 0 {
        return c;
    }
    proof {
        picked_bounds(ring@, f, 0, ring@.len() as int);
        picked_bounds(ring@, f, 1, ring@.len() as int);
        picked_bounds(ring@, f, 2, ring@.len() as int);
        mean_is_byte(s.r as int, s.n as int);
        mean_is_byte(s.g as int, s.n as int);
        mean_is_byte(s.b as int, s.n as int);
    }
    ((s.r / s.n) as u8, (s.g / s.n) as u8, (s.b / s.n) as u8)
}

/// Both sides together are the whole ring.
proof fn sides_cover(ring: Seq<Pixel>, c0: Colour, c1: Colour, n: int)
    requires
        0 <= n,
    ensures
        counting::count_below(nearer(ring, c0, c1), n) + counting::count_below(
            farther(ring, c0, c1),
            n,
        ) == n,
    decreases n,
{
    if n > 0 {
        sides_cover(ring, c0, c1, n - 1);
    }
}

/// The corners other than the top-left one.
fn corner_pixels(r: &SheetRaster) -> (v: Vec<Pixel>)
    requires
        r.wf(),
        r.width >= 1,
        r.height >= 1,
    ensures
        v@ == other_corners(*r),
{
    let right: u32 = r.width - 1;
    let bottom: u32 = r.height - 1;
    let a = r.pixel(right, 0);
    let b = r.pixel(0, bottom);
    let c = r.pixel(right, bottom);
    let mut v: Vec<Pixel> = Vec::new();
    v.push((a[0], a[1], a[2], a[3]));
    v.push((b[0], b[1], b[2], b[3]));
    v.push((c[0], c[1], c[2], c[3]));
    assert(v@ =~= other_corners(*r));
    v
}

/// Splits the border ring into two colour clusters, seeded with the top-left
/// corner and the farthest other corner. `None` for a sheet without a ring.
pub fn detect_kmeans_corners(r: &SheetRaster) -> (m: Option<BackgroundModel>)
    requires
        r.wf(),
    ensures
        match m {
            Some(v) => model_ok(v) && r.width >= 2 && r.height >= 2 && exists|far: Colour| #[trigger]
                clusters(*r, far, v),
            None => r.width < 2 || r.height < 2,
        },
{
    if r.width < 2 || r.height < 2 {
        return None;
    }
    proof {
        ring_bound(*r);
    }
    let ring = border_ring(r);
    let p = ring[0];
    let first: Colour = (p.0, p.1, p.2);
    let corners = corner_pixels(r);
    let far: Colour = far_seed(&corners, first);
    let mut c0: Colour = first;
    let mut c1: Colour = far;
    let mut k: u32 = 0;
    while k < KMEANS_ROUNDS
        invariant
            k <= KMEANS_ROUNDS,
            ring@.len() <= u32::MAX,
            (c0, c1) == centres_after(ring@, (first, far), k as int),
        decreases KMEANS_ROUNDS - k,
    {
        let (a, b) = sum_sides(&ring, c0, c1);
        let n0 = centre(&a, c0, &ring, Ghost(nearer(ring@, c0, c1)));
        let n1 = centre(&b, c1, &ring, Ghost(farther(ring@, c0, c1)));
        c0 = n0;
        c1 = n1;
        k = k + 1;
    }
    let (a, b) = sum_sides(&ring, c0, c1);
    proof {
        sides_cover(ring@, c0, c1, ring@.len() as int);
    }
    let (bg, votes): (Colour, u64) = if a.n >= b.n {
        (c0, a.n)
    } else {
        (c1, b.n)
    };
    let rgba: [u8; 4] = [bg.0, bg.1, bg.2, 255];
    assert(rgba@ =~= seq![bg.0, bg.1, bg.2, 255u8]);
    let m = BackgroundModel {
        kind: BackgroundKind::KMeans,
        rgba,
        consensus: Ratio { num: votes as u128, den: ring.len() as u128 },
    };
    assert(clusters(*r, far, m));
    Some(m)
}

// ---- luma threshold -------------------------------------------------------------------

/// The grey level of a luma in thousandths, halves rounded up.
pub open spec fn level_of(luma: u32) -> int {
    (luma + 500) / 1000
}

/// Which pixels have grey level `v`.
pub open spec fn at_level(luma: Seq<u32>, v: int) -> spec_fn(int) -> bool {
    |i: int| level_of(luma[i]) == v
}

/// How many pixels have each grey level.
pub open spec fn is_histogram(luma: Seq<u32>, hist: Seq<u64>) -> bool {
    &&& hist.len() == 256
    &&& forall|v: int|
        0 <= v < 256 ==> #[trigger] hist[v] == counting::count_below(
            at_level(luma, v),
            luma.len() as int,
        )
}

/// Pixels at levels below `n`.
pub open spec fn weight_below(hist: Seq<u64>, n: int) -> int
    decreases n,
{
    if n <= 0 {
        0
    } else {
        weight_below(hist, n - 1) + hist[n - 1]
    }
}

/// The sum of the levels of the pixels at levels below `n`.
pub open spec fn moment_below(hist: Seq<u64>, n: int) -> int
    decreases n,
{
    if n <= 0 {
        0
    } else {
        moment_below(hist, n - 1) + (n - 1) * hist[n - 1]
    }
}

/// Level `t` leaves pixels on both sides.
pub open spec fn divides(hist: Seq<u64>, t: int) -> bool {
    0 < weight_below(hist, t + 1) < weight_below(hist, 256)
}

/// The distance of the class means at `t`, times both class sizes.
pub open spec fn mean_gap(hist: Seq<u64>, t: int) -> int {
    let d = moment_below(hist, t + 1) * weight_below(hist, 256) - moment_below(hist, 256)
        * weight_below(hist, t + 1);
    if d >= 0 {
        d
    } else {
        -d
    }
}

/// The product of the class sizes at `t`.
pub open spec fn class_product(hist: Seq<u64>, t: int) -> int {
    weight_below(hist, t + 1) * (weight_below(hist, 256) - weight_below(hist, t + 1))
}

/// The between-class variance at `t` exceeds that at `u`. It is the squared mean
/// gap over the class product, compared without dividing.
pub open spec fn varies_more(hist: Seq<u64>, t: int, u: int) -> bool {
    mean_gap(hist, u) * (mean_gap(hist, u) * class_product(hist, t)) < mean_gap(hist, t) * (mean_gap(
        hist,
        t,
    ) * class_product(hist, u))
}

/// `t` is the first level of greatest variance, or zero when no level divides.
pub open spec fn is_threshold(hist: Seq<u64>, t: int) -> bool {
    if exists|u: int| 0 <= u < 256 && #[trigger] divides(hist, u) {
        &&& 0 <= t < 256
        &&& divides(hist, t)
        &&& forall|u: int| 0 <= u < 256 && #[trigger] divides(hist, u) ==> !varies_more(hist, u, t)
        &&& forall|u: int| 0 <= u < t && #[trigger] divides(hist, u) ==> varies_more(hist, t, u)
    } else {
        t == 0
    }
}

/// Ink is the darker side when that is at most half of the sheet.
pub open spec fn dark_is_ink(hist: Seq<u64>, t: int) -> bool {
    weight_below(hist, t + 1) * 2 <= weight_below(hist, 256)
}

/// Pixels on the ink side.
pub open spec fn ink_side(hist: Seq<u64>, t: int) -> int {
    if dark_is_ink(hist, t) {
        weight_below(hist, t + 1)
    } else {
        weight_below(hist, 256) - weight_below(hist, t + 1)
    }
}

/// The luma model: the share that is not ink.
pub open spec fn is_luma_model(hist: Seq<u64>, t: int, m: BackgroundModel) -> bool {
    &&& is_threshold(hist, t)
    &&& m.kind == BackgroundKind::Otsu
    &&& m.rgba@ == seq![0u8, 0u8, 0u8, 0u8]
    &&& m.consensus.num == weight_below(hist, 256) - ink_side(hist, t)
    &&& m.consensus.den == weight_below(hist, 256)
}

proof fn weight_grows(hist: Seq<u64>, a: int, b: int)
    requires
        0 <= a <= b,
    ensures
        0 <= weight_below(hist, a) <= weight_below(hist, b),
        0 <= moment_below(hist, a) <= moment_below(hist, b),
        moment_below(hist, b) - moment_below(hist, a) <= b * (weight_below(hist, b) - weight_below(
            hist,
            a,
        )),
    decreases b,
{
    if b > 0 {
        if a < b {
            weight_grows(hist, a, b - 1);
            let w = weight_below(hist, b - 1) - weight_below(hist, a);
            let x = hist[b - 1] as int;
            assert((b - 1) * w + (b - 1) * x <= b * (w + x) && (b - 1) * x >= 0) by (nonlinear_arith)
                requires
                    0 <= w,
                    0 <= x,
                    0 <= a <= b - 1,
            ;
        } else {
            weight_grows(hist, a - 1, b - 1);
            assert((b - 1) * hist[b - 1] >= 0) by (nonlinear_arith)
                requires
                    b >= 1,
            ;
        }
    }
}

/// The level of a byte colour is a byte.
proof fn level_bounds(r: SheetRaster, i: int)
    requires
        r.wf(),
        0 <= i < r.luma@.len(),
    ensures
        0 <= level_of(r.luma@[i]) < 256,
{
    assert(r.luma@[i] == raster::luma_of(
        r.rgba@[4 * i],
        r.rgba@[4 * i + 1],
        r.rgba@[4 * i + 2],
    ));
}

/// Counts the grey levels.
pub fn luma_histogram(r: &SheetRaster) -> (hist: Vec<u64>)
    requires
        r.wf(),
    ensures
        is_histogram(r.luma@, hist@),
{
    let mut hist: Vec<u64> = Vec::new();
    let mut i: usize = 0;
    while i < 256
        invariant
            i <= 256,
            hist@.len() == i,
            forall|v: int| 0 <= v < i ==> #[trigger] hist@[v] == 0,
        decreases 256 - i,
    {
        hist.push(0);
        i = i + 1;
    }
    let n: usize = r.luma.len();
    let mut i: usize = 0;
    while i < n
        invariant
            i <= n,
            n == r.luma@.len(),
            r.wf(),
            hist@.len() == 256,
            forall|v: int|
                0 <= v < 256 ==> #[trigger] hist@[v] == counting::count_below(
                    at_level(r.luma@, v),
                    i as int,
                ),
        decreases n - i,
    {
        proof {
            level_bounds(*r, i as int);
        }
        let level: usize = ((r.luma[i] + 500) / 1000) as usize;
        let ghost h0 = hist@;
        proof {
            counting::count_bounds(at_level(r.luma@, level as int), i as int);
        }
        let v: u64 = hist[level];
        hist.set(level, v + 1);
        proof {
            assert forall|v: int| 0 <= v < 256 implies #[trigger] hist@[v] == counting::count_below(
                at_level(r.luma@, v),
                i as int + 1,
            ) by {
                assert(h0[v] == counting::count_below(at_level(r.luma@, v), i as int));
            }
        }
        i = i + 1;
    }
    hist
}

/// A histogram counts every pixel once.
proof fn histogram_total(r: SheetRaster, hist: Seq<u64>, n: int)
    requires
        r.wf(),
        0 <= n <= r.luma@.len(),
    ensures
        level_sum(r.luma@, n, 256) == n,
    decreases n,
{
    if n > 0 {
        histogram_total(r, hist, n - 1);
        level_bounds(r, n - 1);
        level_sum_step(r.luma@, n, 256);
    } else {
        level_sum_zero(r.luma@, 256);
    }
}

/// The pixels below `n` at levels below `k`.
spec fn level_sum(luma: Seq<u32>, n: int, k: int) -> int
    decreases k,
{
    if k <= 0 {
        0
    } else {
        level_sum(luma, n, k - 1) + counting::count_below(at_level(luma, k - 1), n)
    }
}

proof fn level_sum_zero(luma: Seq<u32>, k: int)
    ensures
        level_sum(luma, 0, k) == 0,
    decreases k,
{
    if k > 0 {
        level_sum_zero(luma, k - 1);
    }
}

proof fn level_sum_step(luma: Seq<u32>, n: int, k: int)
    requires
        n > 0,
        0 <= k,
        0 <= level_of(luma[n - 1]),
    ensures
        level_sum(luma, n, k) == level_sum(luma, n - 1, k) + (if level_of(luma[n - 1]) < k {
            1int
        } else {
            0int
        }),
    decreases k,
{
    if k > 0 {
        level_sum_step(luma, n, k - 1);
    }
}

proof fn weight_is_level_sum(luma: Seq<u32>, hist: Seq<u64>, k: int)
    requires
        is_histogram(luma, hist),
        0 <= k <= 256,
    ensures
        weight_below(hist, k) == level_sum(luma, luma.len() as int, k),
    decreases k,
{
    if k > 0 {
        weight_is_level_sum(luma, hist, k - 1);
        assert(hist[k - 1] == counting::count_below(at_level(luma, k - 1), luma.len() as int));
    }
}

/// The bounds that keep the comparison of variances in range.
proof fn gap_bounds(hist: Seq<u64>, t: int, u: int)
    requires
        hist.len() == 256,
        0 <= t < 256,
        0 <= u < 256,
        weight_below(hist, 256) <= mask::MAX_PIXELS,
    ensures
        0 <= mean_gap(hist, t) <= 256 * class_product(hist, t),
        0 <= class_product(hist, u) <= 0x0fff_ffff_ffff_ffff,
        0 <= mean_gap(hist, t) * class_product(hist, u) <= 0xffff_ffff_ffff_ffff_ffff_ffff_ffff_ffff,
        0 <= moment_below(hist, t + 1) * weight_below(hist, 256) <= 256 * (0x8000_0000
            * 0x8000_0000),
        0 <= moment_below(hist, 256) * weight_below(hist, t + 1) <= 256 * (0x8000_0000
            * 0x8000_0000),
{
    let w = weight_below(hist, 256);
    let a = weight_below(hist, t + 1);
    let ma = moment_below(hist, t + 1);
    let m = moment_below(hist, 256);
    weight_grows(hist, 0, t + 1);
    weight_grows(hist, t + 1, 256);
    weight_grows(hist, 0, u + 1);
    weight_grows(hist, u + 1, 256);
    let b = w - a;
    let mb = m - ma;
    assert(0 <= ma <= 256 * a && 0 <= mb <= 256 * b) by (nonlinear_arith)
        requires
            0 <= ma <= (t + 1) * a,
            0 <= mb <= 256 * b,
            0 <= t < 256,
            0 <= a,
    ;
    assert(ma * w - m * a == ma * b - mb * a) by (nonlinear_arith)
        requires
            w == a + b,
            m == ma + mb,
    ;
    assert(0 <= ma * b <= 256 * (a * b) && 0 <= mb * a <= 256 * (a * b)) by (nonlinear_arith)
        requires
            0 <= ma <= 256 * a,
            0 <= mb <= 256 * b,
            0 <= a,
            0 <= b,
    ;
    let c = weight_below(hist, u + 1);
    half_square(a, w);
    half_square(c, w);
    let g = mean_gap(hist, t);
    let k = class_product(hist, u);
    assert(0 <= ma * w <= 256 * (0x8000_0000 * 0x8000_0000) && 0 <= m * a <= 256 * (0x8000_0000
        * 0x8000_0000)) by (nonlinear_arith)
        requires
            0 <= ma <= 256 * a,
            0 <= m <= 256 * w,
            0 <= a <= w,
            w <= 0x8000_0000,
    ;
    assert(0 <= g * k <= 0xffff_ffff_ffff_ffff_ffff_ffff_ffff_ffff) by (nonlinear_arith)
        requires
            0 <= g <= 256 * 0x0fff_ffff_ffff_ffff,
            0 <= k <= 0x0fff_ffff_ffff_ffff,
    ;
}

/// Two parts of a pixel count have a product of at most a quarter of its square.
proof fn half_square(a: int, w: int)
    requires
        0 <= a <= w <= 0x7fff_ffff,
    ensures
        0 <= a * (w - a) <= 0x0fff_ffff_ffff_ffff,
{
    assert(4 * (a * (w - a)) <= w * w) by (nonlinear_arith)
        requires
            0 <= a <= w,
    {
        assert((w - 2 * a) * (w - 2 * a) >= 0);
        assert(w * w - 4 * (a * (w - a)) == (w - 2 * a) * (w - 2 * a));
    }
    assert(w * w <= 0x7fff_ffff * 0x7fff_ffff) by (nonlinear_arith)
        requires
            0 <= w <= 0x7fff_ffff,
    ;
    assert(0 <= a * (w - a)) by (nonlinear_arith)
        requires
            0 <= a <= w,
    ;
}

fn weight_of(hist: &Vec<u64>) -> (r: (u64, u64))
    requires
        hist@.len() == 256,
        weight_below(hist@, 256) <= mask::MAX_PIXELS,
    ensures
        r.0 == weight_below(hist@, 256),
        r.1 == moment_below(hist@, 256),
{
    let mut w: u64 = 0;
    let mut m: u64 = 0;
    let mut v: usize = 0;
    while v < 256
        invariant
            v <= 256,
            hist@.len() == 256,
            weight_below(hist@, 256) <= mask::MAX_PIXELS,
            w == weight_below(hist@, v as int),
            m == moment_below(hist@, v as int),
        decreases 256 - v,
    {
        let x: u64 = hist[v];
        proof {
            weight_grows(hist@, v as int + 1, 256);
            weight_grows(hist@, 0, v as int);
            weight_grows(hist@, v as int, v as int + 1);
            assert(v * x <= 256 * mask::MAX_PIXELS && v * x >= 0) by (nonlinear_arith)
                requires
                    0 <= v < 256,
                    0 <= x <= mask::MAX_PIXELS,
            ;
            assert(moment_below(hist@, v as int) <= v * weight_below(hist@, v as int));
            moment_small(v as int, weight_below(hist@, v as int), moment_below(hist@, v as int));
        }
        w = w + x;
        m = m + v as u64 * x;
        v = v + 1;
    }
    (w, m)
}

proof fn moment_small(v: int, w: int, m: int)
    requires
        0 <= v <= 256,
        0 <= w <= mask::MAX_PIXELS,
        m <= v * w,
    ensures
        m <= 256 * mask::MAX_PIXELS,
{
    assert(v * w <= 256 * mask::MAX_PIXELS) by (nonlinear_arith)
        requires
            0 <= v <= 256,
            0 <= w <= mask::MAX_PIXELS,
    ;
}

/// The first level that divides beats nothing; later ones must beat the best.
fn better_split(g: u128, k: u128, best_g: u128, best_k: u128) -> (r: bool)
    requires
        g * best_k <= u128::MAX,
        best_g * k <= u128::MAX,
    ensures
        r == (best_g * (best_g * k) < g * (g * best_k)),
{
    wide::product_less(best_g, best_g * k, g, g * best_k)
}

/// The level that separates the grey levels best, and whether ink is the darker
/// side.
pub fn otsu_threshold(hist: &Vec<u64>) -> (r: (u8, bool))
    requires
        hist@.len() == 256,
        weight_below(hist@, 256) <= mask::MAX_PIXELS,
    ensures
        is_threshold(hist@, r.0 as int),
        r.1 == dark_is_ink(hist@, r.0 as int),
{
    let (w, m) = weight_of(hist);
    let mut a: u64 = 0;
    let mut ma: u64 = 0;
    let mut found: bool = false;
    let mut best: usize = 0;
    let mut best_weight: u64 = hist[0];
    let mut best_g: u128 = 0;
    let mut best_k: u128 = 0;
    let mut v: usize = 0;
    assert(weight_below(hist@, 1) == weight_below(hist@, 0) + hist@[0]);
    while v < 256
        invariant
            v <= 256,
            hist@.len() == 256,
            weight_below(hist@, 256) <= mask::MAX_PIXELS,
            w == weight_below(hist@, 256),
            m == moment_below(hist@, 256),
            a == weight_below(hist@, v as int),
            ma == moment_below(hist@, v as int),
            best < 256,
            best_weight == weight_below(hist@, best as int + 1),
            !found ==> best == 0 && forall|u: int| 0 <= u < v ==> !#[trigger] divides(hist@, u),
            found ==> best < v && divides(hist@, best as int),
            found ==> best_g == mean_gap(hist@, best as int) && best_k == class_product(
                hist@,
                best as int,
            ),
            found ==> forall|u: int|
                0 <= u < v && #[trigger] divides(hist@, u) ==> !varies_more(hist@, u, best as int),
            found ==> forall|u: int|
                0 <= u < best && #[trigger] divides(hist@, u) ==> varies_more(hist@, best as int, u),
        decreases 256 - v,
    {
        let x: u64 = hist[v];
        proof {
            weight_grows(hist@, v as int + 1, 256);
            weight_grows(hist@, 0, v as int);
            weight_grows(hist@, 0, 256);
            weight_grows(hist@, 0, v as int + 1);
            assert(v * x >= 0 && v * x <= 256 * mask::MAX_PIXELS) by (nonlinear_arith)
                requires
                    0 <= v < 256,
                    0 <= x <= mask::MAX_PIXELS,
            ;
            moment_small(v as int, weight_below(hist@, v as int), moment_below(hist@, v as int));
        }
        a = a + x;
        ma = ma + v as u64 * x;
        if a > 0 && a < w {
            proof {
                gap_bounds(hist@, v as int, v as int);
                gap_bounds(hist@, v as int, best as int);
                gap_bounds(hist@, best as int, v as int);
            }
            let p: u128 = ma as u128 * w as u128;
            let q: u128 = m as u128 * a as u128;
            let g: u128 = if p >= q {
                p - q
            } else {
                q - p
            };
            let k: u128 = a as u128 * (w - a) as u128;
            assert(divides(hist@, v as int));
            assert(g == mean_gap(hist@, v as int));
            assert(k == class_product(hist@, v as int));
            let take: bool = if found {
                better_split(g, k, best_g, best_k)
            } else {
                true
            };
            if take {
                proof {
                    if found {
                        assert forall|u: int| 0 <= u < v && #[trigger] divides(hist@, u) implies varies_more(
                            hist@,
                            v as int,
                            u,
                        ) by {
                            assert(!varies_more(hist@, u, best as int));
                            assert(varies_more(hist@, v as int, best as int));
                            variance_order(hist@, u, best as int, v as int);
                        }
                        assert forall|u: int| 0 <= u < v + 1 && #[trigger] divides(hist@, u) implies !varies_more(
                            hist@,
                            u,
                            v as int,
                        ) by {
                            if u < v {
                                assert(varies_more(hist@, v as int, u));
                                variance_antisym(hist@, u, v as int);
                            }
                        }
                    }
                }
                found = true;
                best = v;
                best_weight = a;
                best_g = g;
                best_k = k;
            }
        }
        v = v + 1;
    }
    proof {
        weight_grows(hist@, best as int + 1, 256);
        if found {
            assert(divides(hist@, best as int));
        }
    }
    (best as u8, best_weight * 2 <= w)
}

/// A greater variance is not exceeded by the smaller one.
proof fn variance_antisym(hist: Seq<u64>, u: int, t: int)
    requires
        varies_more(hist, t, u),
    ensures
        !varies_more(hist, u, t),
{
}

/// If `u` does not beat `b` and `t` beats `b`, then `t` beats `u`.
proof fn variance_order(hist: Seq<u64>, u: int, b: int, t: int)
    requires
        hist.len() == 256,
        0 <= u < 256,
        0 <= b < 256,
        0 <= t < 256,
        divides(hist, u),
        divides(hist, b),
        divides(hist, t),
        !varies_more(hist, u, b),
        varies_more(hist, t, b),
    ensures
        varies_more(hist, t, u),
{
    let gu = mean_gap(hist, u);
    let gb = mean_gap(hist, b);
    let gt = mean_gap(hist, t);
    let ku = class_product(hist, u);
    let kb = class_product(hist, b);
    let kt = class_product(hist, t);
    product_positive(hist, u);
    product_positive(hist, b);
    product_positive(hist, t);
    let su = gu * gu;
    let sb = gb * gb;
    let st = gt * gt;
    assert(gb * (gb * ku) == sb * ku && gu * (gu * kb) == su * kb && gb * (gb * kt) == sb * kt && gt
        * (gt * kb) == st * kb && gu * (gu * kt) == su * kt && gt * (gt * ku) == st * ku)
        by (nonlinear_arith)
        requires
            su == gu * gu,
            sb == gb * gb,
            st == gt * gt,
    ;
    assert(su * kt < st * ku) by (nonlinear_arith)
        requires
            su * kb <= sb * ku,
            sb * kt < st * kb,
            ku > 0,
            kb > 0,
            kt > 0,
            su >= 0,
            sb >= 0,
            st >= 0,
    {
        assert((su * kb) * kt <= (sb * ku) * kt);
        assert((sb * kt) * ku < (st * kb) * ku);
        assert((su * kt) * kb < (st * ku) * kb);
    }
}

proof fn product_positive(hist: Seq<u64>, t: int)
    requires
        divides(hist, t),
    ensures
        class_product(hist, t) > 0,
        mean_gap(hist, t) * mean_gap(hist, t) >= 0,
{
    let a = weight_below(hist, t + 1);
    let b = weight_below(hist, 256) - a;
    let g = mean_gap(hist, t);
    assert(a * b > 0) by (nonlinear_arith)
        requires
            a > 0,
            b > 0,
    ;
    assert(g * g >= 0) by (nonlinear_arith);
}

/// Every pixel of a sheet is in its histogram.
proof fn total_is_area(r: SheetRaster, hist: Seq<u64>)
    requires
        r.wf(),
        is_histogram(r.luma@, hist),
    ensures
        weight_below(hist, 256) == r.width * r.height,
{
    weight_is_level_sum(r.luma@, hist, 256);
    histogram_total(r, hist, r.luma@.len() as int);
}

/// `m` is the luma model of the sheet.
pub open spec fn thresholds(r: SheetRaster, hist: Seq<u64>, t: int, m: BackgroundModel) -> bool {
    is_histogram(r.luma@, hist) && is_luma_model(hist, t, m)
}

/// The last resort: ink is the smaller side of a luma threshold.
pub fn detect_otsu(r: &SheetRaster) -> (m: BackgroundModel)
    requires
        sheet_ok(*r),
    ensures
        model_ok(m),
        exists|hist: Seq<u64>, t: int| #[trigger] thresholds(*r, hist, t, m),
{
    let hist = luma_histogram(r);
    proof {
        total_is_area(*r, hist@);
        sheet_area(*r);
    }
    let (t, dark) = otsu_threshold(&hist);
    let (total, moment) = weight_of(&hist);
    let mut low: u64 = 0;
    let mut v: usize = 0;
    while v < t as usize + 1
        invariant
            v <= t + 1,
            hist@.len() == 256,
            weight_below(hist@, 256) <= mask::MAX_PIXELS,
            low == weight_below(hist@, v as int),
        decreases t + 1 - v,
    {
        proof {
            weight_grows(hist@, v as int + 1, 256);
            weight_grows(hist@, 0, v as int);
        }
        low = low + hist[v];
        v = v + 1;
    }
    proof {
        weight_grows(hist@, t as int + 1, 256);
        weight_grows(hist@, 0, t as int + 1);
    }
    let rest: u64 = if dark {
        total - low
    } else {
        low
    };
    let rgba: [u8; 4] = [0, 0, 0, 0];
    assert(rgba@ =~= seq![0u8, 0u8, 0u8, 0u8]);
    let m = BackgroundModel {
        kind: BackgroundKind::Otsu,
        rgba,
        consensus: Ratio { num: rest as u128, den: total as u128 },
    };
    assert(thresholds(*r, hist@, t as int, m));
    m
}

// ---- the ladder -----------------------------------------------------------------------

/// `m` is the model of the sheet: transparency when there is enough of it, else
/// border consensus, else two clusters, else the luma threshold.
pub open spec fn is_background(r: SheetRaster, p: SegParams, m: BackgroundModel) -> bool {
    if has_alpha(r) {
        is_alpha_model(r, m)
    } else if exists|b: int| #[trigger] has_consensus(r, p.border_share_min as int, b) {
        exists|b: int| #[trigger]
            has_consensus(r, p.border_share_min as int, b) && is_consensus_model(ring_of(r), b, m)
    } else if r.width >= 2 && r.height >= 2 {
        exists|far: Colour| #[trigger] clusters(r, far, m)
    } else {
        exists|hist: Seq<u64>, t: int| #[trigger] thresholds(r, hist, t, m)
    }
}

/// Detects the sheet background.
pub fn detect_background(r: &SheetRaster, p: &SegParams) -> (m: BackgroundModel)
    requires
        sheet_ok(*r),
    ensures
        is_background(*r, *p, m),
        model_ok(m),
{
    match detect_alpha(r) {
        Some(m) => {
            return m;
        },
        None => {},
    }
    match detect_border_consensus(r, p.border_share_min) {
        Some(m) => {
            return m;
        },
        None => {},
    }
    match detect_kmeans_corners(r) {
        Some(m) => {
            return m;
        },
        None => {},
    }
    detect_otsu(r)
}

/// Pixel `i` is ink. `far` says which colours are farther from the background
/// than the colour difference allows.
pub open spec fn is_ink(r: SheetRaster, kind: BackgroundKind, p: SegParams, far: Seq<bool>, hist: Seq<u64>, t: int, i: int) -> bool {
    match kind {
        BackgroundKind::Alpha => r.rgba@[4 * i + 3] >= p.alpha_ink_min,
        BackgroundKind::BorderConsensus | BackgroundKind::KMeans => r.rgba@[4 * i + 3]
            >= p.alpha_ink_min && far[i],
        BackgroundKind::Otsu => if dark_is_ink(hist, t) {
            level_of(r.luma@[i]) <= t
        } else {
            level_of(r.luma@[i]) > t
        },
    }
}

/// `m` is the mask of the sheet.
pub open spec fn is_mask_of(r: SheetRaster, kind: BackgroundKind, p: SegParams, far: Seq<bool>, m: ForegroundMask) -> bool {
    &&& m.wf()
    &&& m.width == r.width
    &&& m.height == r.height
    &&& exists|hist: Seq<u64>, t: int|
        #![trigger is_histogram(r.luma@, hist), is_threshold(hist, t)]
        is_histogram(r.luma@, hist) && is_threshold(hist, t) && forall|i: int|
            0 <= i < r.width * r.height ==> #[trigger] m.bits@[i] == is_ink(
                r,
                kind,
                p,
                far,
                hist,
                t,
                i,
            )
}

/// Builds the foreground mask. `far` flags the pixels whose colour differs from
/// the background by more than the limit; it is read for the colour models only.
pub fn build_mask(r: &SheetRaster, bg: &BackgroundModel, p: &SegParams, far: &Vec<bool>) -> (m: ForegroundMask)
    requires
        r.wf(),
        far@.len() == r.width * r.height,
    ensures
        is_mask_of(*r, bg.kind, *p, far@, m),
{
    let hist = luma_histogram(r);
    proof {
        total_is_area(*r, hist@);
    }
    let (t, dark) = otsu_threshold(&hist);
    let mut mask = ForegroundMask::new(r.width, r.height);
    let n: usize = r.luma.len();
    let len: usize = r.rgba.len();
    let mut i: usize = 0;
    while i < n
        invariant
            i <= n,
            n == r.luma@.len(),
            len == r.rgba@.len(),
            r.wf(),
            far@.len() == n,
            mask.wf(),
            mask.width == r.width,
            mask.height == r.height,
            mask.bits@.len() == n,
            dark == dark_is_ink(hist@, t as int),
            forall|k: int|
                0 <= k < i ==> #[trigger] mask.bits@[k] == is_ink(
                    *r,
                    bg.kind,
                    *p,
                    far@,
                    hist@,
                    t as int,
                    k,
                ),
            forall|k: int| i <= k < n ==> #[trigger] mask.bits@[k] == false,
        decreases n - i,
    {
        let alpha: u8 = r.rgba[4 * i + 3];
        proof {
            level_bounds(*r, i as int);
        }
        let level: u32 = (r.luma[i] + 500) / 1000;
        let ink: bool = match bg.kind {
            BackgroundKind::Alpha => alpha >= p.alpha_ink_min,
            BackgroundKind::BorderConsensus => alpha >= p.alpha_ink_min && far[i],
            BackgroundKind::KMeans => alpha >= p.alpha_ink_min && far[i],
            BackgroundKind::Otsu => if dark {
                level <= t as u32
            } else {
                level > t as u32
            },
        };
        if ink {
            mask.set_index(i, true);
        }
        i = i + 1;
    }
    assert(is_histogram(r.luma@, hist@) && is_threshold(hist@, t as int));
    mask
}

// ---- laws -------------------------------------------------------------------------------

/// A pixel that is less opaque than ink must be is ink only under the luma rule.
pub proof fn clear_pixels_are_not_ink(r: SheetRaster, kind: BackgroundKind, p: SegParams, far: Seq<bool>, m: ForegroundMask, i: int)
    requires
        is_mask_of(r, kind, p, far, m),
        kind != BackgroundKind::Otsu,
        0 <= i < r.width * r.height,
        r.rgba@[4 * i + 3] < p.alpha_ink_min,
    ensures
        !m.bits@[i],
{
}

/// A sheet large enough for a border never falls through to the luma rule.
pub proof fn bordered_sheets_have_a_colour(r: SheetRaster, p: SegParams, m: BackgroundModel)
    requires
        is_background(r, p, m),
        r.width >= 2,
        r.height >= 2,
    ensures
        m.kind != BackgroundKind::Otsu,
{
}

// ---- one outcome --------------------------------------------------------------------

proof fn one_mode(ring: Seq<Pixel>, a: int, b: int)
    requires
        is_mode(ring, a),
        is_mode(ring, b),
    ensures
        a == b,
{
    if a < b {
        assert(bin_count(ring, a) < bin_count(ring, b));
    } else if b < a {
        assert(bin_count(ring, b) < bin_count(ring, a));
    }
}

proof fn one_seed(corners: Seq<Pixel>, first: Colour, a: Colour, b: Colour)
    requires
        is_far_seed(corners, first, a),
        is_far_seed(corners, first, b),
    ensures
        a == b,
{
    let i = choose|i: int| 0 <= i < corners.len() && colour_of(#[trigger] corners[i]) == a;
    let j = choose|j: int| 0 <= j < corners.len() && colour_of(#[trigger] corners[j]) == b;
    assert(seed_le(colour_of(corners[i]), b, first));
    assert(seed_le(colour_of(corners[j]), a, first));
}

proof fn one_histogram(luma: Seq<u32>, a: Seq<u64>, b: Seq<u64>)
    requires
        is_histogram(luma, a),
        is_histogram(luma, b),
    ensures
        a == b,
{
    assert forall|v: int| 0 <= v < 256 implies a[v] == b[v] by {
        assert(a[v] == counting::count_below(at_level(luma, v), luma.len() as int));
    }
    assert(a =~= b);
}

proof fn one_threshold(hist: Seq<u64>, a: int, b: int)
    requires
        is_threshold(hist, a),
        is_threshold(hist, b),
    ensures
        a == b,
{
    if exists|u: int| 0 <= u < 256 && #[trigger] divides(hist, u) {
        if a < b {
            assert(varies_more(hist, b, a));
            assert(!varies_more(hist, b, a));
        } else if b < a {
            assert(varies_more(hist, a, b));
            assert(!varies_more(hist, a, b));
        }
    }
}

/// A sheet has one background under given parameters.
pub proof fn background_is_determined(r: SheetRaster, p: SegParams, a: BackgroundModel, b: BackgroundModel)
    requires
        is_background(r, p, a),
        is_background(r, p, b),
    ensures
        a.kind == b.kind,
        a.rgba@ == b.rgba@,
        a.consensus == b.consensus,
{
    let share = p.border_share_min as int;
    let ring = ring_of(r);
    if has_alpha(r) {
    } else if exists|c: int| #[trigger] has_consensus(r, share, c) {
        let x = choose|c: int| #[trigger]
            has_consensus(r, share, c) && is_consensus_model(ring, c, a);
        let y = choose|c: int| #[trigger]
            has_consensus(r, share, c) && is_consensus_model(ring, c, b);
        one_mode(ring, x, y);
        assert forall|c: int| 0 <= c < 4 implies a.rgba@[c] == b.rgba@[c] by {
            assert(a.rgba@[c] == picked_mean(ring, in_bin(ring, x), c));
        }
        assert(a.rgba@ =~= b.rgba@);
    } else if r.width >= 2 && r.height >= 2 {
        let x = choose|far: Colour| #[trigger] clusters(r, far, a);
        let y = choose|far: Colour| #[trigger] clusters(r, far, b);
        one_seed(other_corners(r), colour_of(pixel_of(r, 0, 0)), x, y);
    } else {
        let (h1, t1) = choose|hist: Seq<u64>, t: int| #[trigger] thresholds(r, hist, t, a);
        let (h2, t2) = choose|hist: Seq<u64>, t: int| #[trigger] thresholds(r, hist, t, b);
        one_histogram(r.luma@, h1, h2);
        one_threshold(h1, t1, t2);
    }
}

/// A sheet has one mask under given parameters.
pub proof fn mask_is_determined(
    r: SheetRaster,
    kind: BackgroundKind,
    p: SegParams,
    far: Seq<bool>,
    a: ForegroundMask,
    b: ForegroundMask,
)
    requires
        is_mask_of(r, kind, p, far, a),
        is_mask_of(r, kind, p, far, b),
    ensures
        a.width == b.width,
        a.height == b.height,
        a.bits@ == b.bits@,
{
    let (h1, t1) = choose|hist: Seq<u64>, t: int|
        #![trigger is_histogram(r.luma@, hist), is_threshold(hist, t)]
        is_histogram(r.luma@, hist) && is_threshold(hist, t) && forall|i: int|
            0 <= i < r.width * r.height ==> #[trigger] a.bits@[i] == is_ink(r, kind, p, far, hist, t, i);
    let (h2, t2) = choose|hist: Seq<u64>, t: int|
        #![trigger is_histogram(r.luma@, hist), is_threshold(hist, t)]
        is_histogram(r.luma@, hist) && is_threshold(hist, t) && forall|i: int|
            0 <= i < r.width * r.height ==> #[trigger] b.bits@[i] == is_ink(r, kind, p, far, hist, t, i);
    one_histogram(r.luma@, h1, h2);
    one_threshold(h1, t1, t2);
    assert(a.bits@ =~= b.bits@);
}

// ---- what the border says ---------------------------------------------------------------

/// Pixel number `k` lies on the edge of the sheet.
pub open spec fn on_edge(r: SheetRaster, k: int) -> bool {
    k % (r.width as int) == 0 || k % (r.width as int) == r.width - 1 || k < r.width || k >= r.width * (
    r.height - 1)
}

/// Pixel number `k` has this colour.
pub open spec fn has_colour(r: SheetRaster, k: int, red: u8, green: u8, blue: u8) -> bool {
    r.rgba@[4 * k] == red && r.rgba@[4 * k + 1] == green && r.rgba@[4 * k + 2] == blue
}

/// Pixel number `k` has the same upper four bits as a colour in each of its three
/// channels.
pub open spec fn has_shade(r: SheetRaster, k: int, red: u8, green: u8, blue: u8) -> bool {
    r.rgba@[4 * k] / 16 == red / 16 && r.rgba@[4 * k + 1] / 16 == green / 16 && r.rgba@[4 * k + 2] / 16
        == blue / 16
}

/// How many pixels on the edge have this shade.
pub open spec fn shade_count(r: SheetRaster, red: u8, green: u8, blue: u8) -> int {
    counting::count_below(
        |k: int| on_edge(r, k) && has_shade(r, k, red, green, blue),
        r.width * r.height,
    )
}

/// How many pixels on the edge have this colour.
pub open spec fn colour_count(r: SheetRaster, red: u8, green: u8, blue: u8) -> int {
    counting::count_below(
        |k: int| on_edge(r, k) && has_colour(r, k, red, green, blue),
        r.width * r.height,
    )
}

spec fn pixel_number(r: SheetRaster, k: int) -> Pixel {
    (r.rgba@[4 * k], r.rgba@[4 * k + 1], r.rgba@[4 * k + 2], r.rgba@[4 * k + 3])
}

spec fn ring_total(ring: Seq<Pixel>, f: spec_fn(Pixel) -> int) -> int {
    counting::sum_below(|i: int| f(ring[i]), ring.len() as int)
}

spec fn edge_term(r: SheetRaster, f: spec_fn(Pixel) -> int) -> spec_fn(int) -> int {
    |k: int|
        if on_edge(r, k) {
            f(pixel_number(r, k))
        } else {
            0int
        }
}

proof fn ring_push(ring: Seq<Pixel>, p: Pixel, f: spec_fn(Pixel) -> int)
    ensures
        ring_total(ring.push(p), f) == ring_total(ring, f) + f(p),
{
    let a = |i: int| f(ring.push(p)[i]);
    let b = |i: int| f(ring[i]);
    counting::sum_ext(a, b, ring.len() as int);
}

proof fn row_position(w: int, h: int, x: int, y: int)
    requires
        0 <= x < w,
        0 <= y < h,
    ensures
        (y * w + x) % w == x,
        (y * w + x) / w == y,
        y * w == w * y,
        0 <= y * w + x < w * h,
        w * (y + 1) == y * w + w,
{
    mask::lemma_pixel_in(w, h, x, y);
    mask::lemma_pixel_split(w, h, y * w + x);
    mask::lemma_pixel_inj(w, (y * w + x) % w, (y * w + x) / w, x, y);
    assert(y * w == w * y) by (nonlinear_arith);
    assert(w * (y + 1) == y * w + w) by (nonlinear_arith);
}

proof fn rows_total(r: SheetRaster, f: spec_fn(Pixel) -> int, n: int)
    requires
        r.width >= 2,
        r.height >= 2,
        0 <= n <= r.width,
    ensures
        ring_total(ring_rows(r, n), f) == counting::sum_below(edge_term(r, f), n) + counting::sum_below(
            edge_term(r, f),
            r.width * (r.height - 1) + n,
        ) - counting::sum_below(edge_term(r, f), r.width * (r.height - 1)),
    decreases n,
{
    if n > 0 {
        rows_total(r, f, n - 1);
        let w = r.width as int;
        let h = r.height as int;
        let before = ring_rows(r, n - 1);
        let top = pixel_of(r, n - 1, 0);
        let low = pixel_of(r, n - 1, h - 1);
        ring_push(before, top, f);
        ring_push(before.push(top), low, f);
        row_position(w, h, n - 1, 0);
        row_position(w, h, n - 1, h - 1);
        let g = edge_term(r, f);
        assert(top == pixel_number(r, n - 1));
        assert(low == pixel_number(r, w * (h - 1) + n - 1));
        assert(g(n - 1) == f(top));
        assert(w * (h - 1) >= 0) by (nonlinear_arith)
            requires
                w >= 2,
                h >= 2,
        ;
        assert(g(w * (h - 1) + n - 1) == f(low));
        assert(counting::sum_below(g, w * (h - 1) + n) == counting::sum_below(g, w * (h - 1) + n - 1)
            + g(w * (h - 1) + n - 1));
    }
}

/// A row between the first and the last has its two ends on the edge.
proof fn middle_row(r: SheetRaster, f: spec_fn(Pixel) -> int, y: int, x: int)
    requires
        r.width >= 2,
        r.height >= 2,
        1 <= y < r.height - 1,
        1 <= x < r.width,
    ensures
        counting::sum_below(edge_term(r, f), y * r.width + x) == counting::sum_below(
            edge_term(r, f),
            y * r.width,
        ) + f(pixel_of(r, 0, y)),
    decreases x,
{
    let w = r.width as int;
    let h = r.height as int;
    let g = edge_term(r, f);
    row_position(w, h, x - 1, y);
    assert(y * w >= w && w * (h - 1) >= w * (y + 1)) by (nonlinear_arith)
        requires
            1 <= y,
            y + 1 <= h - 1,
            w >= 2,
    ;
    assert(counting::sum_below(g, y * w + x) == counting::sum_below(g, y * w + x - 1) + g(y * w + x - 1));
    if x == 1 {
        assert(g(y * w) == f(pixel_number(r, y * w)));
    } else {
        middle_row(r, f, y, x - 1);
        assert(!on_edge(r, y * w + x - 1));
    }
}

proof fn ring_total_upto(r: SheetRaster, f: spec_fn(Pixel) -> int, n: int)
    requires
        r.width >= 2,
        r.height >= 2,
        1 <= n <= r.height - 1,
    ensures
        ring_total(ring_upto(r, n), f) == counting::sum_below(edge_term(r, f), r.width * n)
            + counting::sum_below(edge_term(r, f), r.width * r.height) - counting::sum_below(
            edge_term(r, f),
            r.width * (r.height - 1),
        ),
    decreases n,
{
    let w = r.width as int;
    let h = r.height as int;
    let g = edge_term(r, f);
    if n <= 1 {
        rows_total(r, f, w);
        assert(w * (h - 1) + w == w * h) by (nonlinear_arith);
    } else {
        ring_total_upto(r, f, n - 1);
        let y = n - 1;
        let before = ring_upto(r, n - 1);
        ring_push(before, pixel_of(r, 0, y), f);
        ring_push(before.push(pixel_of(r, 0, y)), pixel_of(r, w - 1, y), f);
        middle_row(r, f, y, w - 1);
        row_position(w, h, w - 1, y);
        assert(g(y * w + w - 1) == f(pixel_number(r, y * w + w - 1)));
        assert(counting::sum_below(g, y * w + w) == counting::sum_below(g, y * w + w - 1) + g(y * w + w - 1));
        assert(w * n == y * w + w);
    }
}

/// Summing over the ring is summing over the pixels on the edge.
proof fn ring_is_the_edge(r: SheetRaster, f: spec_fn(Pixel) -> int)
    requires
        r.width >= 2,
        r.height >= 2,
    ensures
        ring_total(ring_of(r), f) == counting::sum_below(edge_term(r, f), r.width * r.height),
{
    ring_total_upto(r, f, r.height - 1);
}

proof fn ring_length(r: SheetRaster, n: int)
    requires
        1 <= n,
    ensures
        ring_upto(r, n).len() == 2 * r.width + 2 * (n - 1),
    decreases n,
{
    if n <= 1 {
        rows_length(r, r.width as int);
    } else {
        ring_length(r, n - 1);
    }
}

proof fn rows_length(r: SheetRaster, n: int)
    requires
        0 <= n,
    ensures
        ring_rows(r, n).len() == 2 * n,
    decreases n,
{
    if n > 0 {
        rows_length(r, n - 1);
    }
}

/// Counting ring pixels is counting pixels on the edge.
proof fn ring_count(r: SheetRaster, q: spec_fn(Pixel) -> bool)
    requires
        r.width >= 2,
        r.height >= 2,
    ensures
        counting::count_below(|i: int| q(ring_of(r)[i]), ring_of(r).len() as int)
            == counting::count_below(
            |k: int| on_edge(r, k) && q(pixel_number(r, k)),
            r.width * r.height,
        ),
{
    let f = |p: Pixel|
        if q(p) {
            1int
        } else {
            0int
        };
    let a = |i: int| q(ring_of(r)[i]);
    let b = |k: int| on_edge(r, k) && q(pixel_number(r, k));
    ring_is_the_edge(r, f);
    counting::count_as_sum(a, ring_of(r).len() as int);
    counting::count_as_sum(b, r.width * r.height);
    counting::sum_ext(
        |i: int|
            if a(i) {
                1int
            } else {
                0int
            },
        |i: int| f(ring_of(r)[i]),
        ring_of(r).len() as int,
    );
    counting::sum_ext(
        |k: int|
            if b(k) {
                1int
            } else {
                0int
            },
        edge_term(r, f),
        r.width * r.height,
    );
}

/// What holds of every pixel on the edge holds of the ring.
proof fn ring_comes_from_the_edge(r: SheetRaster, q: spec_fn(Pixel) -> bool)
    requires
        r.width >= 2,
        r.height >= 2,
        forall|k: int| 0 <= k < r.width * r.height && #[trigger] on_edge(r, k) ==> q(pixel_number(r, k)),
    ensures
        forall|i: int| 0 <= i < ring_of(r).len() ==> q(#[trigger] ring_of(r)[i]),
{
    let not = |p: Pixel| !q(p);
    ring_count(r, not);
    let a = |i: int| not(ring_of(r)[i]);
    let b = |k: int| on_edge(r, k) && not(pixel_number(r, k));
    let z = |k: int| false;
    counting::count_ext(b, z, r.width * r.height);
    counting::count_span(z, 0, r.width * r.height, false);
    assert(r.width * r.height >= 0) by (nonlinear_arith);
    assert forall|i: int| 0 <= i < ring_of(r).len() implies q(#[trigger] ring_of(r)[i]) by {
        counting::none_counted(a, ring_of(r).len() as int, i);
        assert(!a(i));
    }
}

/// A byte between two others of one shade has that shade.
proof fn shade_of_a_mean(v: int, q: int)
    requires
        16 * q <= v <= 16 * q + 15,
    ensures
        v / 16 == q,
{
}

proof fn bin_parts(p: Pixel, b: int)
    requires
        0 <= b < 4096,
        bin_of(p) == b,
    ensures
        p.0 / 16 == b / 256,
        p.1 / 16 == b / 16 % 16,
        p.2 / 16 == b % 16,
{
}

/// A border that agrees: the colour is, channel by channel, the mean of the edge
/// pixels of its own shade, rounded down. Their share of the edge is the
/// consensus; it reaches the limit, and no shade has more of the edge.
pub proof fn border_colour_is_the_mean_of_its_shade(r: SheetRaster, p: SegParams, m: BackgroundModel)
    requires
        r.wf(),
        r.width >= 2,
        r.height >= 2,
        is_background(r, p, m),
        m.kind == BackgroundKind::BorderConsensus,
    ensures
        m.consensus.den == 2 * (r.width + r.height) - 4,
        1000 * m.consensus.num >= p.border_share_min * m.consensus.den,
        m.consensus.num > 0,
        m.consensus.num == shade_count(r, m.rgba@[0], m.rgba@[1], m.rgba@[2]),
        forall|c: int|
            0 <= c < 4 ==> (#[trigger] m.rgba@[c]) * m.consensus.num <= counting::sum_below(
                |k: int|
                    if on_edge(r, k) && has_shade(r, k, m.rgba@[0], m.rgba@[1], m.rgba@[2]) {
                        r.rgba@[4 * k + c] as int
                    } else {
                        0int
                    },
                r.width * r.height,
            ) < (m.rgba@[c] + 1) * m.consensus.num,
        forall|red: u8, green: u8, blue: u8| #[trigger]
            shade_count(r, red, green, blue) <= m.consensus.num,
{
    let ring = ring_of(r);
    let n = r.width * r.height;
    let share = p.border_share_min as int;
    let b = choose|b: int| #[trigger] has_consensus(r, share, b) && is_consensus_model(ring, b, m);
    let f = in_bin(ring, b);
    let count = bin_count(ring, b);
    ring_length(r, r.height - 1);
    mode_is_filled(ring, b);
    // The mean keeps the shade of the bin.
    assert forall|c: int| 0 <= c < 3 implies (#[trigger] m.rgba@[c]) / 16 == (if c == 0 {
        b / 256
    } else if c == 1 {
        b / 16 % 16
    } else {
        b % 16
    }) by {
        let q = if c == 0 {
            b / 256
        } else if c == 1 {
            b / 16 % 16
        } else {
            b % 16
        };
        let g = |i: int| channel_of(ring[i], c) as int;
        assert forall|i: int| 0 <= i < ring.len() && #[trigger] f(i) implies 16 * q <= g(i) <= 16 * q + 15 by {
            bin_parts(ring[i], b);
        }
        counting::picked_between(f, g, 16 * q, 16 * q + 15, ring.len() as int);
        counting::sum_ext(
            |i: int|
                if f(i) {
                    g(i)
                } else {
                    0int
                },
            picked_channel(ring, f, c),
            ring.len() as int,
        );
        let s = picked_sum(ring, f, c, ring.len() as int);
        assert(16 * q <= s / count <= 16 * q + 15) by (nonlinear_arith)
            requires
                count > 0,
                (16 * q) * count <= s <= (16 * q + 15) * count,
        ;
        shade_of_a_mean(m.rgba@[c] as int, q);
    }
    assert(m.rgba@[0] / 16 == b / 256 && m.rgba@[1] / 16 == b / 16 % 16 && m.rgba@[2] / 16 == b % 16);
    let of_bin = |x: Pixel| bin_of(x) == b;
    assert forall|k: int| of_bin(#[trigger] pixel_number(r, k)) == has_shade(
        r,
        k,
        m.rgba@[0],
        m.rgba@[1],
        m.rgba@[2],
    ) by {
        let x = pixel_number(r, k);
        if of_bin(x) {
            bin_parts(x, b);
        }
    }
    ring_count(r, of_bin);
    counting::count_ext(f, |i: int| of_bin(ring[i]), ring.len() as int);
    let s = |k: int| on_edge(r, k) && has_shade(r, k, m.rgba@[0], m.rgba@[1], m.rgba@[2]);
    counting::count_ext(|k: int| on_edge(r, k) && of_bin(pixel_number(r, k)), s, n);
    assert forall|c: int| 0 <= c < 4 implies (#[trigger] m.rgba@[c]) * m.consensus.num
        <= counting::sum_below(
        |k: int|
            if on_edge(r, k) && has_shade(r, k, m.rgba@[0], m.rgba@[1], m.rgba@[2]) {
                r.rgba@[4 * k + c] as int
            } else {
                0int
            },
        n,
    ) < (m.rgba@[c] + 1) * m.consensus.num by {
        let pick = |x: Pixel|
            if bin_of(x) == b {
                channel_of(x, c) as int
            } else {
                0int
            };
        ring_is_the_edge(r, pick);
        counting::sum_ext(|i: int| pick(ring[i]), picked_channel(ring, f, c), ring.len() as int);
        let t = |k: int|
            if on_edge(r, k) && has_shade(r, k, m.rgba@[0], m.rgba@[1], m.rgba@[2]) {
                r.rgba@[4 * k + c] as int
            } else {
                0int
            };
        assert forall|k: int| 0 <= k < n implies #[trigger] edge_term(r, pick)(k) == t(k) by {
            assert(of_bin(pixel_number(r, k)) == has_shade(r, k, m.rgba@[0], m.rgba@[1], m.rgba@[2]));
        }
        counting::sum_ext(edge_term(r, pick), t, n);
        counting::quotient_sides(picked_sum(ring, f, c, ring.len() as int), count);
    }
    assert forall|red: u8, green: u8, blue: u8| #[trigger]
        shade_count(r, red, green, blue) <= m.consensus.num by {
        let d = bin_of((red, green, blue, 0u8));
        let of_d = |x: Pixel| bin_of(x) == d;
        bin_parts((red, green, blue, 0u8), d);
        assert forall|k: int| of_d(#[trigger] pixel_number(r, k)) == has_shade(r, k, red, green, blue) by {
            if of_d(pixel_number(r, k)) {
                bin_parts(pixel_number(r, k), d);
            }
        }
        ring_count(r, of_d);
        counting::count_ext(in_bin(ring, d), |i: int| of_d(ring[i]), ring.len() as int);
        counting::count_ext(
            |k: int| on_edge(r, k) && of_d(pixel_number(r, k)),
            |k: int| on_edge(r, k) && has_shade(r, k, red, green, blue),
            n,
        );
        assert(bin_count(ring, d) <= bin_count(ring, b));
    }
}

/// A sheet whose edge is all of one colour has that colour for its background,
/// and all of its edge agrees, unless a tenth of the sheet is transparent.
pub proof fn plain_border_is_the_background(r: SheetRaster, p: SegParams, m: BackgroundModel, px: Seq<u8>)
    requires
        r.wf(),
        r.width >= 2,
        r.height >= 2,
        is_background(r, p, m),
        px.len() == 4,
        forall|k: int, c: int|
            #![trigger on_edge(r, k), px[c]]
            0 <= k < r.width * r.height && on_edge(r, k) && 0 <= c < 4 ==> r.rgba@[4 * k + c] == px[c],
        p.border_share_min <= 1000,
        10 * counting::count_below(|k: int| r.rgba@[4 * k + 3] == 0, r.width * r.height) < r.width
            * r.height,
    ensures
        m.kind == BackgroundKind::BorderConsensus,
        m.rgba@ == px,
        m.consensus.num == m.consensus.den,
{
    let ring = ring_of(r);
    let n = r.width * r.height;
    let share = p.border_share_min as int;
    counting::count_ext(|k: int| r.rgba@[4 * k + 3] == 0, is_clear(r.rgba@), n);
    let same = |x: Pixel| x == (px[0], px[1], px[2], px[3]);
    assert forall|k: int| 0 <= k < n && #[trigger] on_edge(r, k) implies same(pixel_number(r, k)) by {
        assert(r.rgba@[4 * k + 0] == px[0] && r.rgba@[4 * k + 1] == px[1] && r.rgba@[4 * k + 2] == px[2]
            && r.rgba@[4 * k + 3] == px[3]);
    }
    ring_comes_from_the_edge(r, same);
    ring_length(r, r.height - 1);
    let b = bin_of((px[0], px[1], px[2], px[3]));
    let len = ring.len() as int;
    assert forall|d: int| #[trigger] bin_count(ring, d) == (if d == b {
        len
    } else {
        0
    }) by {
        assert forall|i: int| 0 <= i < len implies #[trigger] in_bin(ring, d)(i) == (d == b) by {
            assert(same(ring[i]));
        }
        counting::count_span(in_bin(ring, d), 0, len, d == b);
    }
    assert(is_mode(ring, b));
    assert(len * 1000 >= share * len) by (nonlinear_arith)
        requires
            len > 0,
            share <= 1000,
    ;
    assert(has_consensus(r, share, b));
    let d = choose|b: int| #[trigger] has_consensus(r, share, b) && is_consensus_model(ring, b, m);
    one_mode(ring, b, d);
    assert forall|c: int| 0 <= c < 4 implies m.rgba@[c] == px[c] by {
        let f = in_bin(ring, b);
        let g = |i: int| px[c] as int;
        counting::picked_between(f, g, px[c] as int, px[c] as int, len);
        let t = |i: int|
            if f(i) {
                g(i)
            } else {
                0int
            };
        assert forall|i: int| 0 <= i < len implies #[trigger] t(i) == picked_channel(ring, f, c)(i) by {
            assert(same(ring[i]));
        }
        counting::sum_ext(t, picked_channel(ring, f, c), len);
        let v = px[c] as int;
        assert(v * len <= v * len < (v + 1) * len) by (nonlinear_arith)
            requires
                len > 0,
        ;
        counting::quotient_is(v * len, len, v);
        assert(m.rgba@[c] == picked_mean(ring, f, c));
    }
    assert(m.rgba@ =~= px);
}

/// Transparency is the background exactly where a tenth of the pixels have no
/// alpha, and then no colour is.
pub proof fn alpha_needs_a_tenth(r: SheetRaster, p: SegParams, m: BackgroundModel)
    requires
        is_background(r, p, m),
    ensures
        (m.kind == BackgroundKind::Alpha) == (10 * counting::count_below(
            |k: int| r.rgba@[4 * k + 3] == 0,
            r.width * r.height,
        ) >= r.width * r.height),
        m.kind == BackgroundKind::Alpha ==> m.rgba@ == seq![0u8, 0u8, 0u8, 0u8],
        m.kind == BackgroundKind::Alpha ==> m.consensus.num == counting::count_below(
            |k: int| r.rgba@[4 * k + 3] == 0,
            r.width * r.height,
        ) && m.consensus.den == r.width * r.height,
{
    counting::count_ext(|k: int| r.rgba@[4 * k + 3] == 0, is_clear(r.rgba@), r.width * r.height);
}

proof fn gap_of_same(a: Colour, b: Colour)
    ensures
        colour_gap(a, a) == 0,
        a != b ==> colour_gap(a, b) > 0,
        colour_gap(a, b) >= 0,
{
    let x = a.0 - b.0;
    let y = a.1 - b.1;
    let z = a.2 - b.2;
    assert(x * x >= 0 && y * y >= 0 && z * z >= 0) by (nonlinear_arith);
    assert(x != 0 ==> x * x > 0) by (nonlinear_arith);
    assert(y != 0 ==> y * y > 0) by (nonlinear_arith);
    assert(z != 0 ==> z * z > 0) by (nonlinear_arith);
}

/// Where all picked pixels share a channel, its mean is that.
proof fn same_mean(ring: Seq<Pixel>, f: spec_fn(int) -> bool, c: int, v: int)
    requires
        forall|i: int| 0 <= i < ring.len() && #[trigger] f(i) ==> channel_of(ring[i], c) == v,
        counting::count_below(f, ring.len() as int) > 0,
    ensures
        picked_mean(ring, f, c) == v,
{
    between_mean(ring, f, c, v, v);
}

/// Where a channel of all picked pixels lies between two bounds, so does its mean.
proof fn between_mean(ring: Seq<Pixel>, f: spec_fn(int) -> bool, c: int, lo: int, hi: int)
    requires
        forall|i: int| 0 <= i < ring.len() && #[trigger] f(i) ==> lo <= channel_of(ring[i], c) <= hi,
        counting::count_below(f, ring.len() as int) > 0,
    ensures
        lo <= picked_mean(ring, f, c) <= hi,
{
    let n = ring.len() as int;
    let g = |i: int| channel_of(ring[i], c) as int;
    counting::picked_between(f, g, lo, hi, n);
    counting::sum_ext(
        |i: int|
            if f(i) {
                g(i)
            } else {
                0int
            },
        picked_channel(ring, f, c),
        n,
    );
    let s = picked_sum(ring, f, c, n);
    let k = counting::count_below(f, n);
    assert(lo <= s / k <= hi) by (nonlinear_arith)
        requires
            k > 0,
            lo * k <= s <= hi * k,
    ;
}

proof fn two_colours_settle(ring: Seq<Pixel>, a: Colour, b: Colour, k: int)
    requires
        a != b,
        forall|i: int| 0 <= i < ring.len() ==> colour_of(#[trigger] ring[i]) == a || colour_of(ring[i]) == b,
    ensures
        centres_after(ring, (a, b), k) == (a, b),
    decreases k,
{
    if k > 0 {
        two_colours_settle(ring, a, b, k - 1);
        gap_of_same(a, b);
        gap_of_same(b, a);
        let f = nearer(ring, a, b);
        let g = farther(ring, a, b);
        assert forall|i: int| 0 <= i < ring.len() && #[trigger] f(i) implies colour_of(ring[i]) == a by {}
        assert forall|i: int| 0 <= i < ring.len() && #[trigger] g(i) implies colour_of(ring[i]) == b by {}
        counting::count_bounds(f, ring.len() as int);
        counting::count_bounds(g, ring.len() as int);
        if counting::count_below(f, ring.len() as int) > 0 {
            same_mean(ring, f, 0, a.0 as int);
            same_mean(ring, f, 1, a.1 as int);
            same_mean(ring, f, 2, a.2 as int);
        }
        if counting::count_below(g, ring.len() as int) > 0 {
            same_mean(ring, g, 0, b.0 as int);
            same_mean(ring, g, 1, b.1 as int);
            same_mean(ring, g, 2, b.2 as int);
        }
    }
}

/// An edge of two colours, with both at its corners and too little agreement:
/// the background is the colour that more of the edge has, and the colour of the
/// top-left corner where both have as much.
pub proof fn two_colours_go_to_the_majority(r: SheetRaster, p: SegParams, m: BackgroundModel, a: Colour, b: Colour)
    requires
        r.wf(),
        r.width >= 2,
        r.height >= 2,
        is_background(r, p, m),
        m.kind == BackgroundKind::KMeans,
        a != b,
        forall|k: int|
            0 <= k < r.width * r.height && #[trigger] on_edge(r, k) ==> has_colour(r, k, a.0, a.1, a.2)
                || has_colour(r, k, b.0, b.1, b.2),
        has_colour(r, 0, a.0, a.1, a.2),
        has_colour(r, r.width - 1, b.0, b.1, b.2) || has_colour(
            r,
            (r.height - 1) * r.width,
            b.0,
            b.1,
            b.2,
        ) || has_colour(r, r.width * r.height - 1, b.0, b.1, b.2),
    ensures
        ({
            let x = colour_count(r, a.0, a.1, a.2);
            let y = colour_count(r, b.0, b.1, b.2);
            &&& m.consensus.den == 2 * (r.width + r.height) - 4
            &&& x + y == m.consensus.den
            &&& if x >= y {
                m.rgba@ == seq![a.0, a.1, a.2, 255u8] && m.consensus.num == x
            } else {
                m.rgba@ == seq![b.0, b.1, b.2, 255u8] && m.consensus.num == y
            }
        }),
{
    let w = r.width as int;
    let h = r.height as int;
    let ring = ring_of(r);
    let n = ring.len() as int;
    let two = |x: Pixel| colour_of(x) == a || colour_of(x) == b;
    assert forall|k: int| 0 <= k < w * h && #[trigger] on_edge(r, k) implies two(pixel_number(r, k)) by {}
    ring_comes_from_the_edge(r, two);
    assert forall|i: int| 0 <= i < n implies colour_of(#[trigger] ring[i]) == a || colour_of(ring[i]) == b by {
        assert(two(ring[i]));
    }
    ring_length(r, h - 1);
    let far = choose|far: Colour| #[trigger] clusters(r, far, m);
    let first = colour_of(pixel_of(r, 0, 0));
    row_position(w, h, 0, 0);
    row_position(w, h, w - 1, 0);
    row_position(w, h, 0, h - 1);
    row_position(w, h, w - 1, h - 1);
    assert(first == a);
    let cs = other_corners(r);
    assert(on_edge(r, w - 1) && on_edge(r, (h - 1) * w) && on_edge(r, (h - 1) * w + w - 1));
    assert(w * h == (h - 1) * w + w) by (nonlinear_arith);
    gap_of_same(a, b);
    gap_of_same(b, a);
    assert(colour_of(cs[0]) == b || colour_of(cs[1]) == b || colour_of(cs[2]) == b);
    assert(two(cs[0]) && two(cs[1]) && two(cs[2]));
    assert(far == b) by {
        assert(seed_le(colour_of(cs[0]), far, first) && seed_le(colour_of(cs[1]), far, first) && seed_le(
            colour_of(cs[2]),
            far,
            first,
        ));
        let i = choose|i: int| 0 <= i < cs.len() && colour_of(#[trigger] cs[i]) == far;
        assert(two(cs[i]));
    }
    two_colours_settle(ring, a, b, KMEANS_ROUNDS as int);
    let f = nearer(ring, a, b);
    let g = farther(ring, a, b);
    let is_a = |x: Pixel| colour_of(x) == a;
    let is_b = |x: Pixel| colour_of(x) == b;
    counting::count_ext(f, |i: int| is_a(ring[i]), n);
    counting::count_ext(g, |i: int| is_b(ring[i]), n);
    ring_count(r, is_a);
    ring_count(r, is_b);
    counting::count_ext(
        |k: int| on_edge(r, k) && is_a(pixel_number(r, k)),
        |k: int| on_edge(r, k) && has_colour(r, k, a.0, a.1, a.2),
        w * h,
    );
    counting::count_ext(
        |k: int| on_edge(r, k) && is_b(pixel_number(r, k)),
        |k: int| on_edge(r, k) && has_colour(r, k, b.0, b.1, b.2),
        w * h,
    );
    let all = |i: int| true;
    counting::count_disjoint(f, g, all, n);
    counting::count_span(all, 0, n, true);
}

proof fn centres_between(ring: Seq<Pixel>, c: (Colour, Colour), k: int, ch: int, lo: int, hi: int)
    requires
        0 <= ch < 3,
        forall|i: int| 0 <= i < ring.len() ==> lo <= channel_of(#[trigger] ring[i], ch) <= hi,
        lo <= channel_of((c.0.0, c.0.1, c.0.2, 0u8), ch) <= hi,
        lo <= channel_of((c.1.0, c.1.1, c.1.2, 0u8), ch) <= hi,
        0 <= lo,
        hi <= 255,
    ensures
        ({
            let d = centres_after(ring, c, k);
            &&& lo <= channel_of((d.0.0, d.0.1, d.0.2, 0u8), ch) <= hi
            &&& lo <= channel_of((d.1.0, d.1.1, d.1.2, 0u8), ch) <= hi
        }),
    decreases k,
{
    if k > 0 {
        centres_between(ring, c, k - 1, ch, lo, hi);
        let d = centres_after(ring, c, k - 1);
        let f = nearer(ring, d.0, d.1);
        let g = farther(ring, d.0, d.1);
        counting::count_bounds(f, ring.len() as int);
        counting::count_bounds(g, ring.len() as int);
        if counting::count_below(f, ring.len() as int) > 0 {
            between_mean(ring, f, ch, lo, hi);
        }
        if counting::count_below(g, ring.len() as int) > 0 {
            between_mean(ring, g, ch, lo, hi);
        }
    }
}

/// A clustered background is opaque, each of its channels lies between the least
/// and the greatest value of that channel on the edge, and at least half of the
/// edge is with it.
pub proof fn clustered_colour_lies_within_the_edge(r: SheetRaster, p: SegParams, m: BackgroundModel, c: int, lo: u8, hi: u8)
    requires
        r.wf(),
        r.width >= 2,
        r.height >= 2,
        is_background(r, p, m),
        m.kind == BackgroundKind::KMeans,
        0 <= c < 3,
        forall|k: int| 0 <= k < r.width * r.height && #[trigger] on_edge(r, k) ==> lo <= r.rgba@[4 * k + c] <= hi,
    ensures
        lo <= m.rgba@[c] <= hi,
        m.rgba@[3] == 255,
        m.consensus.den == 2 * (r.width + r.height) - 4,
        2 * m.consensus.num >= m.consensus.den,
{
    let w = r.width as int;
    let h = r.height as int;
    let ring = ring_of(r);
    let n = ring.len() as int;
    let far = choose|far: Colour| #[trigger] clusters(r, far, m);
    let first = colour_of(pixel_of(r, 0, 0));
    let inside = |x: Pixel| lo <= channel_of(x, c) <= hi;
    assert forall|k: int| 0 <= k < w * h && #[trigger] on_edge(r, k) implies inside(pixel_number(r, k)) by {
        assert(channel_of(pixel_number(r, k), c) == r.rgba@[4 * k + c]);
    }
    ring_comes_from_the_edge(r, inside);
    assert forall|i: int| 0 <= i < n implies lo <= channel_of(#[trigger] ring[i], c) <= hi by {
        assert(inside(ring[i]));
    }
    ring_length(r, h - 1);
    row_position(w, h, 0, 0);
    row_position(w, h, w - 1, 0);
    row_position(w, h, 0, h - 1);
    row_position(w, h, w - 1, h - 1);
    assert(on_edge(r, 0) && on_edge(r, w - 1) && on_edge(r, (h - 1) * w) && on_edge(r, (h - 1) * w + w - 1));
    let cs = other_corners(r);
    assert(inside(pixel_number(r, 0)) && inside(cs[0]) && inside(cs[1]) && inside(cs[2]));
    let i = choose|i: int| 0 <= i < cs.len() && colour_of(#[trigger] cs[i]) == far;
    assert(inside(cs[i]));
    centres_between(ring, (first, far), KMEANS_ROUNDS as int, c, lo as int, hi as int);
    let d = centres_after(ring, (first, far), KMEANS_ROUNDS as int);
    let f = nearer(ring, d.0, d.1);
    let g = farther(ring, d.0, d.1);
    let all = |i: int| true;
    counting::count_disjoint(f, g, all, n);
    counting::count_span(all, 0, n, true);
}

// ---- what the mask keeps ----------------------------------------------------------------

/// With a background colour, a pixel is ink exactly where it is opaque enough and
/// its colour is far from the background; with transparency, where it is opaque
/// enough.
pub proof fn ink_is_opaque_and_far(
    r: SheetRaster,
    kind: BackgroundKind,
    p: SegParams,
    far: Seq<bool>,
    m: ForegroundMask,
    x: int,
    y: int,
)
    requires
        is_mask_of(r, kind, p, far, m),
        kind != BackgroundKind::Otsu,
        0 <= x < r.width,
        0 <= y < r.height,
    ensures
        m.ink(x, y) == (r.rgba@[4 * (y * r.width + x) + 3] >= p.alpha_ink_min && (kind
            == BackgroundKind::Alpha || far[y * r.width + x])),
        !m.ink(-1, y) && !m.ink(x, -1) && !m.ink(r.width as int, y) && !m.ink(x, r.height as int),
{
    mask::lemma_pixel_in(r.width as int, r.height as int, x, y);
}

proof fn weight_counts(luma: Seq<u32>, hist: Seq<u64>, v: int)
    requires
        is_histogram(luma, hist),
        0 <= v <= 256,
    ensures
        weight_below(hist, v) == counting::count_below(
            |i: int| level_of(luma[i]) < v,
            luma.len() as int,
        ),
    decreases v,
{
    let n = luma.len() as int;
    let f = |i: int| level_of(luma[i]) < v;
    if v == 0 {
        let z = |i: int| false;
        counting::count_ext(f, z, n);
        counting::count_span(z, 0, n, false);
    } else {
        weight_counts(luma, hist, v - 1);
        let g = |i: int| level_of(luma[i]) < v - 1;
        counting::count_disjoint(g, at_level(luma, v - 1), f, n);
        assert(hist[v - 1] == counting::count_below(at_level(luma, v - 1), n));
    }
}

/// Under the luma rule the ink is one side of a grey level, and at most half of
/// the sheet.
pub proof fn luma_ink_is_the_smaller_side(r: SheetRaster, p: SegParams, far: Seq<bool>, m: ForegroundMask)
    requires
        r.wf(),
        is_mask_of(r, BackgroundKind::Otsu, p, far, m),
    ensures
        2 * counting::count_below(|i: int| m.bits@[i], r.width * r.height) <= r.width * r.height,
        forall|i: int, j: int, k: int|
            0 <= i < r.luma@.len() && 0 <= j < r.luma@.len() && 0 <= k < r.luma@.len() && r.luma@[i]
                <= r.luma@[j] <= r.luma@[k] && #[trigger] m.bits@[i] && #[trigger] m.bits@[k]
                ==> #[trigger] m.bits@[j],
{
    let n = r.width * r.height;
    let (hist, t) = choose|hist: Seq<u64>, t: int|
        #![trigger is_histogram(r.luma@, hist), is_threshold(hist, t)]
        is_histogram(r.luma@, hist) && is_threshold(hist, t) && forall|i: int|
            0 <= i < r.width * r.height ==> #[trigger] m.bits@[i] == is_ink(
                r,
                BackgroundKind::Otsu,
                p,
                far,
                hist,
                t,
                i,
            );
    total_is_area(r, hist);
    let f = |i: int| m.bits@[i];
    let low = |i: int| level_of(r.luma@[i]) < t + 1;
    weight_counts(r.luma@, hist, t + 1);
    if dark_is_ink(hist, t) {
        counting::count_ext(f, low, n);
    } else {
        let all = |i: int| true;
        assert(n >= 0) by (nonlinear_arith)
            requires
                n == r.width * r.height,
        ;
        counting::count_disjoint(f, low, all, n);
        counting::count_span(all, 0, n, true);
    }
}

proof fn two_level_sums(hist: Seq<u64>, a: int, b: int, v: int)
    requires
        hist.len() == 256,
        0 <= a < b < 256,
        0 <= v <= 256,
        forall|u: int| 0 <= u < 256 && u != a && u != b ==> #[trigger] hist[u] == 0,
    ensures
        weight_below(hist, v) == (if v > a {
            hist[a] as int
        } else {
            0
        }) + (if v > b {
            hist[b] as int
        } else {
            0
        }),
        moment_below(hist, v) == (if v > a {
            a * hist[a]
        } else {
            0
        }) + (if v > b {
            b * hist[b]
        } else {
            0
        }),
    decreases v,
{
    if v > 0 {
        two_level_sums(hist, a, b, v - 1);
        let u = v - 1;
        if u != a && u != b {
            assert(hist[u] == 0);
            assert(u * hist[u] == 0) by (nonlinear_arith)
                requires
                    hist[u] == 0,
            ;
        }
    }
}

/// Under the luma rule, of a sheet of two greys the one that fewer pixels have is
/// the ink, and the darker one where both have as many.
pub proof fn luma_ink_is_the_rarer_grey(
    r: SheetRaster,
    p: SegParams,
    far: Seq<bool>,
    m: ForegroundMask,
    dark: u32,
    light: u32,
)
    requires
        r.wf(),
        is_mask_of(r, BackgroundKind::Otsu, p, far, m),
        (dark + 500) / 1000 < (light + 500) / 1000 < 256,
        forall|i: int| 0 <= i < r.luma@.len() ==> #[trigger] r.luma@[i] == dark || r.luma@[i] == light,
        exists|i: int| 0 <= i < r.luma@.len() && #[trigger] r.luma@[i] == dark,
        exists|i: int| 0 <= i < r.luma@.len() && #[trigger] r.luma@[i] == light,
    ensures
        forall|i: int|
            0 <= i < r.luma@.len() ==> #[trigger] m.bits@[i] == (if 2 * counting::count_below(
                |k: int| r.luma@[k] == dark,
                r.luma@.len() as int,
            ) <= r.luma@.len() {
                r.luma@[i] == dark
            } else {
                r.luma@[i] == light
            }),
{
    let n = r.luma@.len() as int;
    let (hist, t) = choose|hist: Seq<u64>, t: int|
        #![trigger is_histogram(r.luma@, hist), is_threshold(hist, t)]
        is_histogram(r.luma@, hist) && is_threshold(hist, t) && forall|i: int|
            0 <= i < r.width * r.height ==> #[trigger] m.bits@[i] == is_ink(
                r,
                BackgroundKind::Otsu,
                p,
                far,
                hist,
                t,
                i,
            );
    total_is_area(r, hist);
    let a = level_of(dark);
    let b = level_of(light);
    assert forall|u: int| 0 <= u < 256 && u != a && u != b implies #[trigger] hist[u] == 0 by {
        let z = |i: int| false;
        counting::count_ext(at_level(r.luma@, u), z, n);
        counting::count_span(z, 0, n, false);
    }
    let f = |k: int| r.luma@[k] == dark;
    counting::count_ext(f, at_level(r.luma@, a), n);
    let x = choose|i: int| 0 <= i < r.luma@.len() && #[trigger] r.luma@[i] == dark;
    let y = choose|i: int| 0 <= i < r.luma@.len() && #[trigger] r.luma@[i] == light;
    counting::count_positive(at_level(r.luma@, a), n, x);
    counting::count_positive(at_level(r.luma@, b), n, y);
    assert(hist[a] > 0 && hist[b] > 0);
    two_level_sums(hist, a, b, 256);
    assert forall|u: int| 0 <= u < 256 implies #[trigger] divides(hist, u) == (a <= u < b) by {
        two_level_sums(hist, a, b, u + 1);
    }
    assert(divides(hist, a));
    two_level_sums(hist, a, b, t + 1);
    two_level_sums(hist, a, b, a + 1);
    assert(t == a) by {
        if a < t {
            assert(varies_more(hist, t, a));
            assert(mean_gap(hist, t) == mean_gap(hist, a));
            assert(class_product(hist, t) == class_product(hist, a));
        }
    }
}

// ---- what the luma threshold parts --------------------------------------------------

/// A histogram counts every pixel at its luma in thousandths, rounded to the
/// nearest level.
pub proof fn histogram_counts_rounded_levels(luma: Seq<u32>, hist: Seq<u64>, v: int)
    requires
        is_histogram(luma, hist),
        0 <= v < 256,
        forall|i: int| 0 <= i < luma.len() ==> #[trigger] luma[i] <= 255_000,
    ensures
        hist[v] == counting::count_below(
            |i: int| 1000 * v - 500 <= luma[i] < 1000 * v + 500,
            luma.len() as int,
        ),
{
    let f = |i: int| 1000 * v - 500 <= luma[i] < 1000 * v + 500;
    assert forall|i: int| 0 <= i < luma.len() implies #[trigger] f(i) == at_level(luma, v)(i) by {
        assert(level_of(luma[i]) == (luma[i] + 500) / 1000);
    }
    counting::count_ext(f, at_level(luma, v), luma.len() as int);
}

proof fn weights_are_sums(hist: Seq<u64>, n: int)
    ensures
        weight_below(hist, n) == counting::sum_below(|v: int| hist[v] as int, n),
        moment_below(hist, n) == counting::sum_below(|v: int| v * hist[v], n),
    decreases n,
{
    if n > 0 {
        weights_are_sums(hist, n - 1);
    }
}

proof fn gap_of_the_means(m0: int, w0: int, m: int, w: int)
    ensures
        m0 * w - m * w0 == m0 * (w - w0) - (m - m0) * w0,
{
    assert(m0 * w - m * w0 == m0 * (w - w0) - (m - m0) * w0) by (nonlinear_arith);
}

/// How far apart the mean levels of the pixels up to a level and above it are, times
/// the sizes of both classes.
pub open spec fn class_distance(hist: Seq<u64>, t: int) -> int {
    let w0 = counting::sum_below(|v: int| hist[v] as int, t + 1);
    let w1 = counting::sum_below(|v: int| hist[v] as int, 256) - w0;
    let m0 = counting::sum_below(|v: int| v * hist[v], t + 1);
    let m1 = counting::sum_below(|v: int| v * hist[v], 256) - m0;
    m0 * w1 - m1 * w0
}

/// The sizes of both classes, multiplied.
pub open spec fn class_sizes(hist: Seq<u64>, t: int) -> int {
    let w0 = counting::sum_below(|v: int| hist[v] as int, t + 1);
    w0 * (counting::sum_below(|v: int| hist[v] as int, 256) - w0)
}

/// The threshold parts the levels best: of all levels with pixels on both sides none
/// makes the variance between the two classes greater, and no lower one as great.
pub proof fn threshold_parts_the_levels_best(hist: Seq<u64>, t: int, u: int)
    requires
        is_threshold(hist, t),
        0 <= u < 256,
        0 < counting::sum_below(|v: int| hist[v] as int, u + 1) < counting::sum_below(|v: int| hist[v] as int, 256),
    ensures
        0 <= t < 256,
        0 < counting::sum_below(|v: int| hist[v] as int, t + 1) < counting::sum_below(|v: int| hist[v] as int, 256),
        (class_distance(hist, u) * class_distance(hist, u)) * class_sizes(hist, t) <= (class_distance(hist, t)
            * class_distance(hist, t)) * class_sizes(hist, u),
        u < t ==> (class_distance(hist, u) * class_distance(hist, u)) * class_sizes(hist, t) < (class_distance(hist, t)
            * class_distance(hist, t)) * class_sizes(hist, u),
{
    weights_are_sums(hist, u + 1);
    weights_are_sums(hist, 256);
    weights_are_sums(hist, t + 1);
    assert(divides(hist, u));
    assert(divides(hist, t));
    assert(!varies_more(hist, u, t));
    let w = weight_below(hist, 256);
    let m = moment_below(hist, 256);
    gap_of_the_means(moment_below(hist, u + 1), weight_below(hist, u + 1), m, w);
    gap_of_the_means(moment_below(hist, t + 1), weight_below(hist, t + 1), m, w);
    let a = class_distance(hist, u);
    let b = class_distance(hist, t);
    let x = mean_gap(hist, u);
    let y = mean_gap(hist, t);
    assert((-a) * (-a) == a * a && (-b) * (-b) == b * b) by (nonlinear_arith);
    let p = class_sizes(hist, t);
    let q = class_sizes(hist, u);
    assert(x * (x * p) == (x * x) * p && y * (y * q) == (y * y) * q) by (nonlinear_arith);
    if u < t {
        assert(varies_more(hist, t, u));
    }
}

/// Clustering starts from the top left corner's colour and from the corner colour
/// that is farthest from it, by the squares of all three channel differences.
pub proof fn clusters_start_at_far_corners(r: SheetRaster, far: Colour, m: BackgroundModel, x: int, y: int)
    requires
        clusters(r, far, m),
        r.width >= 2,
        r.height >= 2,
        x == 0 || x == r.width - 1,
        y == 0 || y == r.height - 1,
    ensures
        ({
            let k = 4 * (y * r.width + x);
            let there = (r.rgba@[k] - r.rgba@[0]) * (r.rgba@[k] - r.rgba@[0]) + (r.rgba@[k + 1] - r.rgba@[1]) * (
            r.rgba@[k + 1] - r.rgba@[1]) + (r.rgba@[k + 2] - r.rgba@[2]) * (r.rgba@[k + 2] - r.rgba@[2]);
            there <= (far.0 - r.rgba@[0]) * (far.0 - r.rgba@[0]) + (far.1 - r.rgba@[1]) * (far.1 - r.rgba@[1]) + (far.2
                - r.rgba@[2]) * (far.2 - r.rgba@[2])
        }),
{
    let first = colour_of(pixel_of(r, 0, 0));
    let corners = other_corners(r);
    let w = r.width as int;
    assert(0 * w == 0);
    assert(first == (r.rgba@[0], r.rgba@[1], r.rgba@[2]));
    if x == 0 && y == 0 {
        let g = colour_gap(far, first);
        let dx = far.0 - first.0;
        let dy = far.1 - first.1;
        let dz = far.2 - first.2;
        assert(dx * dx >= 0 && dy * dy >= 0 && dz * dz >= 0) by (nonlinear_arith);
        let z = first.0 - first.0;
        assert(z * z == 0) by (nonlinear_arith)
            requires
                z == 0,
        ;
    } else {
        assert(seed_le(colour_of(corners[0]), far, first));
        assert(seed_le(colour_of(corners[1]), far, first));
        assert(seed_le(colour_of(corners[2]), far, first));
    }
}

} // verus!
