//! Colour quantization of an icon crop: k-means with an elbow-chosen number of
//! colours, one de-fringed paint layer for each colour.
//!
//! Everything is a function of the crop and the parameters: the seeding draws
//! from a fixed sequence, distances are exact integer squares, and the number of
//! iterations is fixed.
use vstd::prelude::*;
use crate::clean;
use crate::clean::Plane;
use crate::counting;
use crate::mask;
use crate::mask::ForegroundMask;

verus! {

/// Most colours that are ever searched for.
pub const K_LIMIT: u32 = 32;

/// Most pixels of a crop.
pub const MAX_CROP_PIXELS: usize = 0x7fff_ffff;

/// Tunables of the quantizer.
#[derive(Clone, Copy, Debug, PartialEq, Eq, Structural)]
pub struct QuantizeParams {
    /// Most colours.
    pub k_max: u32,
    /// How many pixels the search looks at.
    pub sample_cap: u32,
    /// Iterations of one search.
    pub iters: u32,
    /// Layers with less ink are dropped.
    pub layer_min_px: u32,
    /// Pixels with less alpha belong to no layer.
    pub alpha_min: u8,
}

/// Twelve colours, 2048 samples, ten iterations.
pub open spec fn default_quantize_params() -> QuantizeParams {
    QuantizeParams { k_max: 12, sample_cap: 2048, iters: 10, layer_min_px: 4, alpha_min: 128 }
}

impl Default for QuantizeParams {
    fn default() -> (r: Self)
        ensures
            r == default_quantize_params(),
    {
        QuantizeParams { k_max: 12, sample_cap: 2048, iters: 10, layer_min_px: 4, alpha_min: 128 }
    }
}

impl QuantizeParams {
    /// The defaults with at most `k_max` colours, and at least one.
    pub fn with_k_cap(k_max: u32) -> (r: Self)
        ensures
            r == (QuantizeParams {
                k_max: if k_max == 0 {
                    1
                } else {
                    k_max
                },
                ..default_quantize_params()
            }),
    {
        let mut p = QuantizeParams::default();
        p.k_max = if k_max == 0 {
            1
        } else {
            k_max
        };
        p
    }
}

/// One flat paint layer of a crop.
#[derive(Clone, Debug, PartialEq, Eq)]
pub struct Layer {
    /// Mean colour of the layer's pixels.
    pub rgba: [u8; 4],
    /// The de-fringed ink.
    pub mask: ForegroundMask,
    /// How much ink that is.
    pub area: u64,
}

/// A colour.
#[derive(Clone, Copy, Debug, PartialEq, Eq, Structural)]
pub struct Rgb {
    /// Red.
    pub r: u8,
    /// Green.
    pub g: u8,
    /// Blue.
    pub b: u8,
}

// ---- distances ----------------------------------------------------------------------

/// The square of a difference.
pub open spec fn square(d: int) -> int {
    d * d
}

/// The squared distance of two colours.
pub open spec fn distance(a: Rgb, b: Rgb) -> int {
    square(a.r - b.r) + square(a.g - b.g) + square(a.b - b.b)
}

proof fn square_bounds(d: int)
    requires
        -255 <= d <= 255,
    ensures
        0 <= square(d) <= 65025,
{
    assert(0 <= d * d <= 65025) by (nonlinear_arith)
        requires
            -255 <= d <= 255,
    ;
}

proof fn distance_bounds(a: Rgb, b: Rgb)
    ensures
        0 <= distance(a, b) <= 195075,
{
    square_bounds(a.r - b.r);
    square_bounds(a.g - b.g);
    square_bounds(a.b - b.b);
}

fn sq_dist(a: Rgb, b: Rgb) -> (r: u32)
    ensures
        r == distance(a, b),
        r <= 195075,
{
    proof {
        distance_bounds(a, b);
        square_bounds(a.r - b.r);
        square_bounds(a.g - b.g);
        square_bounds(a.b - b.b);
    }
    let dr: i32 = a.r as i32 - b.r as i32;
    let dg: i32 = a.g as i32 - b.g as i32;
    let db: i32 = a.b as i32 - b.b as i32;
    (dr * dr + dg * dg + db * db) as u32
}

/// Which of the first `n` centres is nearest to `s`; the first of several.
pub open spec fn nearest(s: Rgb, centres: Seq<Rgb>, n: int) -> int
    decreases n,
{
    if n <= 1 {
        0
    } else {
        let b = nearest(s, centres, n - 1);
        if distance(s, centres[n - 1]) < distance(s, centres[b]) {
            n - 1
        } else {
            b
        }
    }
}

/// No centre is nearer than the nearest one, and none before it is as near.
pub proof fn nearest_is_least(s: Rgb, centres: Seq<Rgb>, n: int)
    requires
        0 < n <= centres.len(),
    ensures
        0 <= nearest(s, centres, n) < n,
        forall|j: int|
            0 <= j < n ==> distance(s, centres[nearest(s, centres, n)]) <= distance(
                s,
                #[trigger] centres[j],
            ),
        forall|j: int|
            0 <= j < nearest(s, centres, n) ==> distance(s, centres[nearest(s, centres, n)])
                < distance(s, #[trigger] centres[j]),
    decreases n,
{
    if n > 1 {
        nearest_is_least(s, centres, n - 1);
    }
}

/// How far the nearest of the first `n` centres is.
pub open spec fn gap(s: Rgb, centres: Seq<Rgb>, n: int) -> int {
    distance(s, centres[nearest(s, centres, n)])
}

proof fn gap_bounds(s: Rgb, centres: Seq<Rgb>, n: int)
    ensures
        0 <= gap(s, centres, n) <= 195075,
{
    distance_bounds(s, centres[nearest(s, centres, n)]);
}

fn nearest_index(s: Rgb, centres: &Vec<Rgb>) -> (r: usize)
    requires
        centres@.len() > 0,
    ensures
        r == nearest(s, centres@, centres@.len() as int),
        r < centres@.len(),
{
    let mut best: usize = 0;
    let mut best_d: u32 = sq_dist(s, centres[0]);
    let mut i: usize = 1;
    while i < centres.len()
        invariant
            1 <= i <= centres@.len(),
            best < i,
            best == nearest(s, centres@, i as int),
            best_d == distance(s, centres@[best as int]),
        decreases centres@.len() - i,
    {
        let d: u32 = sq_dist(s, centres[i]);
        if d < best_d {
            best_d = d;
            best = i;
        }
        i = i + 1;
    }
    best
}

// ---- the fixed sequence -------------------------------------------------------------

/// Where the sequence starts.
pub const LCG_SEED: u64 = 0x9E37_79B9_7F4A_7C15;

/// The next state of the sequence.
pub open spec fn lcg(s: u64) -> u64 {
    s.wrapping_mul(6_364_136_223_846_793_005).wrapping_add(1_442_695_040_888_963_407)
}

/// The state after `n` steps.
pub open spec fn lcg_state(n: nat) -> u64
    decreases n,
{
    if n == 0 {
        LCG_SEED
    } else {
        lcg(lcg_state((n - 1) as nat))
    }
}

/// A state scaled to `0..n`.
pub open spec fn scaled_below(state: int, n: int) -> int {
    state * n / 0x1_0000_0000_0000_0000
}

struct Lcg {
    state: u64,
}

impl Lcg {
    fn next_below(&mut self, n: u64) -> (r: u64)
        requires
            n > 0,
        ensures
            final(self).state == lcg(old(self).state),
            r == scaled_below(final(self).state as int, n as int),
            r < n,
    {
        self.state = self.state.wrapping_mul(6_364_136_223_846_793_005).wrapping_add(
            1_442_695_040_888_963_407,
        );
        let s: u64 = self.state;
        proof {
            assert(0 <= s * n < 0x1_0000_0000_0000_0000 * n) by (nonlinear_arith)
                requires
                    0 <= s < 0x1_0000_0000_0000_0000,
                    n > 0,
            ;
            assert(0x1_0000_0000_0000_0000 * n <= 0x1_0000_0000_0000_0000 * 0xffff_ffff_ffff_ffff);
        }
        let wide: u128 = s as u128 * n as u128;
        assert(wide / 0x1_0000_0000_0000_0000 < n) by (nonlinear_arith)
            requires
                wide < 0x1_0000_0000_0000_0000 * n,
        ;
        (wide / 0x1_0000_0000_0000_0000) as u64
    }
}

// ---- seeding ------------------------------------------------------------------------

/// The squared distances of the first `m` samples to their nearest centres,
/// together.
pub open spec fn spread(samples: Seq<Rgb>, centres: Seq<Rgb>, m: int) -> int {
    counting::sum_below(|i: int| gap(samples[i], centres, centres.len() as int), m)
}

/// The first sample from `i` on up to which the distances exceed `target`.
pub open spec fn reached(samples: Seq<Rgb>, centres: Seq<Rgb>, target: int, i: int) -> int
    decreases samples.len() - i,
{
    if i >= samples.len() - 1 {
        samples.len() - 1
    } else if spread(samples, centres, i + 1) > target {
        i
    } else {
        reached(samples, centres, target, i + 1)
    }
}

/// The first `n` seeds: each next one is drawn with a weight that is the squared
/// distance to the nearest one before.
pub open spec fn seeds(samples: Seq<Rgb>, n: int) -> Seq<Rgb>
    decreases n,
{
    if n <= 1 {
        seq![samples[scaled_below(lcg_state(1) as int, samples.len() as int)]]
    } else {
        let c = seeds(samples, n - 1);
        let total = spread(samples, c, samples.len() as int);
        let state = lcg_state(n as nat) as int;
        let at = if total == 0 {
            scaled_below(state, samples.len() as int)
        } else {
            reached(samples, c, scaled_below(state, total), 0)
        };
        c.push(samples[at])
    }
}

proof fn spread_bounds(samples: Seq<Rgb>, centres: Seq<Rgb>, m: int)
    ensures
        0 <= spread(samples, centres, m),
        m >= 0 ==> spread(samples, centres, m) <= 195075 * m,
    decreases m,
{
    if m > 0 {
        spread_bounds(samples, centres, m - 1);
        gap_bounds(samples[m - 1], centres, centres.len() as int);
    }
}

/// One more centre only changes the samples that it is nearer to.
proof fn gap_push(s: Rgb, c: Seq<Rgb>, x: Rgb, n: int)
    requires
        0 < n <= c.len(),
    ensures
        nearest(s, c.push(x), n) == nearest(s, c, n),
        gap(s, c.push(x), n) == gap(s, c, n),
    decreases n,
{
    nearest_is_least(s, c, n);
    if n > 1 {
        gap_push(s, c, x, n - 1);
        nearest_is_least(s, c, n - 1);
    }
}

fn seed_pp(samples: &Vec<Rgb>, k: usize) -> (r: Vec<Rgb>)
    requires
        0 < samples@.len() <= MAX_CROP_PIXELS,
        k > 0,
    ensures
        r@ == seeds(samples@, k as int),
        r@.len() == k,
{
    let len: usize = samples.len();
    let mut rng = Lcg { state: LCG_SEED };
    let mut centres: Vec<Rgb> = Vec::new();
    let first: u64 = rng.next_below(len as u64);
    assert(lcg_state(0) == LCG_SEED);
    assert(lcg_state(1) == rng.state);
    centres.push(samples[first as usize]);
    assert(centres@ =~= seeds(samples@, 1));
    let mut dist: Vec<u64> = Vec::new();
    let mut i: usize = 0;
    while i < len
        invariant
            i <= len == samples@.len(),
            dist@.len() == i,
            centres@.len() == 1,
            forall|j: int| 0 <= j < i ==> #[trigger] dist@[j] == gap(samples@[j], centres@, 1),
        decreases len - i,
    {
        dist.push(sq_dist(samples[i], centres[0]) as u64);
        i = i + 1;
    }
    let mut total: u64 = sum_all(&dist, samples, &centres);
    while centres.len() < k
        invariant
            0 < len == samples@.len() <= MAX_CROP_PIXELS,
            1 <= centres@.len() <= k,
            centres@ == seeds(samples@, centres@.len() as int),
            rng.state == lcg_state(centres@.len()),
            dist@.len() == len,
            forall|j: int|
                0 <= j < len ==> #[trigger] dist@[j] == gap(
                    samples@[j],
                    centres@,
                    centres@.len() as int,
                ),
            total == spread(samples@, centres@, len as int),
        decreases k - centres@.len(),
    {
        let ghost n = centres@.len() as int;
        assert(lcg_state((n + 1) as nat) == lcg(lcg_state(n as nat)));
        let at: usize = if total == 0 {
            rng.next_below(len as u64) as usize
        } else {
            let target: u64 = rng.next_below(total);
            find_reached(&dist, samples, &centres, target)
        };
        let x = samples[at];
        let ghost before = centres@;
        centres.push(x);
        assert(centres@ == seeds(samples@, n + 1));
        let mut j: usize = 0;
        while j < len
            invariant
                j <= len == samples@.len(),
                dist@.len() == len,
                n == before.len() >= 1,
                centres@ == before.push(x),
                forall|q: int|
                    0 <= q < j ==> #[trigger] dist@[q] == gap(samples@[q], centres@, n + 1),
                forall|q: int| j <= q < len ==> #[trigger] dist@[q] == gap(samples@[q], before, n),
            decreases len - j,
        {
            let d: u64 = sq_dist(samples[j], x) as u64;
            proof {
                let s = samples@[j as int];
                gap_push(s, before, x, n);
                nearest_is_least(s, before, n);
                assert(centres@[n] == x);
                assert(centres@[nearest(s, before, n)] == before[nearest(s, before, n)]);
            }
            let old_d: u64 = dist[j];
            if d < old_d {
                dist.set(j, d);
            }
            j = j + 1;
        }
        total = sum_all(&dist, samples, &centres);
    }
    centres
}

fn sum_all(dist: &Vec<u64>, samples: &Vec<Rgb>, centres: &Vec<Rgb>) -> (r: u64)
    requires
        dist@.len() == samples@.len() <= MAX_CROP_PIXELS,
        forall|j: int|
            0 <= j < dist@.len() ==> #[trigger] dist@[j] == gap(
                samples@[j],
                centres@,
                centres@.len() as int,
            ),
    ensures
        r == spread(samples@, centres@, samples@.len() as int),
{
    let mut total: u64 = 0;
    let mut i: usize = 0;
    while i < dist.len()
        invariant
            i <= dist@.len() == samples@.len() <= MAX_CROP_PIXELS,
            forall|j: int|
                0 <= j < dist@.len() ==> #[trigger] dist@[j] == gap(
                    samples@[j],
                    centres@,
                    centres@.len() as int,
                ),
            total == spread(samples@, centres@, i as int),
        decreases dist@.len() - i,
    {
        proof {
            spread_bounds(samples@, centres@, i as int);
            spread_bounds(samples@, centres@, i + 1);
        }
        total = total + dist[i];
        i = i + 1;
    }
    total
}

fn find_reached(dist: &Vec<u64>, samples: &Vec<Rgb>, centres: &Vec<Rgb>, target: u64) -> (r: usize)
    requires
        0 < dist@.len() == samples@.len() <= MAX_CROP_PIXELS,
        forall|j: int|
            0 <= j < dist@.len() ==> #[trigger] dist@[j] == gap(
                samples@[j],
                centres@,
                centres@.len() as int,
            ),
    ensures
        r == reached(samples@, centres@, target as int, 0),
        r < samples@.len(),
{
    let n: usize = dist.len();
    let mut acc: u64 = 0;
    let mut i: usize = 0;
    while i < n - 1
        invariant
            0 < n == dist@.len() == samples@.len() <= MAX_CROP_PIXELS,
            i <= n - 1,
            forall|j: int|
                0 <= j < dist@.len() ==> #[trigger] dist@[j] == gap(
                    samples@[j],
                    centres@,
                    centres@.len() as int,
                ),
            acc == spread(samples@, centres@, i as int),
            reached(samples@, centres@, target as int, 0) == reached(
                samples@,
                centres@,
                target as int,
                i as int,
            ),
        decreases n - i,
    {
        proof {
            spread_bounds(samples@, centres@, i as int);
            spread_bounds(samples@, centres@, i + 1);
        }
        acc = acc + dist[i];
        assert(acc == spread(samples@, centres@, i + 1));
        if acc > target {
            return i;
        }
        i = i + 1;
    }
    n - 1
}

// ---- iterations ---------------------------------------------------------------------

/// Sample `i` belongs to centre `c`.
pub open spec fn belongs(samples: Seq<Rgb>, centres: Seq<Rgb>, c: int, i: int) -> bool {
    nearest(samples[i], centres, centres.len() as int) == c
}

/// How many of the first `m` samples belong to centre `c`.
pub open spec fn class_size(samples: Seq<Rgb>, centres: Seq<Rgb>, c: int, m: int) -> int {
    counting::count_below(|i: int| belongs(samples, centres, c, i), m)
}

/// A channel of those samples, together.
pub open spec fn class_sum(samples: Seq<Rgb>, centres: Seq<Rgb>, c: int, f: spec_fn(Rgb) -> u8, m: int) -> int {
    counting::sum_below(
        |i: int|
            if belongs(samples, centres, c, i) {
                f(samples[i]) as int
            } else {
                0
            },
        m,
    )
}

/// The mean of a class, rounded down.
pub open spec fn class_mean(samples: Seq<Rgb>, centres: Seq<Rgb>, c: int, f: spec_fn(Rgb) -> u8) -> u8 {
    let m = samples.len() as int;
    (class_sum(samples, centres, c, f, m) / class_size(samples, centres, c, m)) as u8
}

/// Where centre `c` moves: to the mean of its class, or nowhere where that is
/// empty.
pub open spec fn moved(samples: Seq<Rgb>, centres: Seq<Rgb>, c: int) -> Rgb {
    if class_size(samples, centres, c, samples.len() as int) == 0 {
        centres[c]
    } else {
        Rgb {
            r: class_mean(samples, centres, c, |s: Rgb| s.r),
            g: class_mean(samples, centres, c, |s: Rgb| s.g),
            b: class_mean(samples, centres, c, |s: Rgb| s.b),
        }
    }
}

/// All centres moved once.
#[verifier::opaque]
pub open spec fn step(samples: Seq<Rgb>, centres: Seq<Rgb>) -> Seq<Rgb> {
    Seq::new(centres.len(), |c: int| moved(samples, centres, c))
}

/// All centres moved `n` times.
#[verifier::opaque]
pub open spec fn settled(samples: Seq<Rgb>, centres: Seq<Rgb>, n: int) -> Seq<Rgb>
    decreases n,
{
    if n <= 0 {
        centres
    } else {
        settled(samples, step(samples, centres), n - 1)
    }
}

/// Centres that do not move stay.
proof fn settled_fixed(samples: Seq<Rgb>, centres: Seq<Rgb>, n: int)
    requires
        step(samples, centres) == centres,
    ensures
        settled(samples, centres, n) == centres,
    decreases n,
{
    reveal(settled);
    if n > 0 {
        settled_fixed(samples, centres, n - 1);
    }
}

proof fn settled_once(samples: Seq<Rgb>, centres: Seq<Rgb>, n: int)
    ensures
        n > 0 ==> settled(samples, centres, n) == settled(samples, step(samples, centres), n - 1),
        n <= 0 ==> settled(samples, centres, n) == centres,
{
    reveal(settled);
}

/// The centres for `k` colours.
pub open spec fn centres_for(samples: Seq<Rgb>, k: int, iters: int) -> Seq<Rgb> {
    settled(samples, seeds(samples, k), iters)
}

proof fn sum_of_class(samples: Seq<Rgb>, centres: Seq<Rgb>, c: int, f: spec_fn(Rgb) -> u8, m: int)
    ensures
        0 <= class_sum(samples, centres, c, f, m) <= 255 * class_size(samples, centres, c, m),
        0 <= class_size(samples, centres, c, m),
        m >= 0 ==> class_size(samples, centres, c, m) <= m,
    decreases m,
{
    if m > 0 {
        sum_of_class(samples, centres, c, f, m - 1);
    }
}

fn move_centre(samples: &Vec<Rgb>, classes: &Vec<usize>, centres: &Vec<Rgb>, c: usize) -> (r: Rgb)
    requires
        samples@.len() <= MAX_CROP_PIXELS,
        classes@.len() == samples@.len(),
        c < centres@.len(),
        forall|i: int|
            0 <= i < samples@.len() ==> #[trigger] classes@[i] == nearest(
                samples@[i],
                centres@,
                centres@.len() as int,
            ),
    ensures
        r == moved(samples@, centres@, c as int),
{
    let ghost red = |s: Rgb| s.r;
    let ghost green = |s: Rgb| s.g;
    let ghost blue = |s: Rgb| s.b;
    let mut n: u64 = 0;
    let mut sr: u64 = 0;
    let mut sg: u64 = 0;
    let mut sb: u64 = 0;
    let mut i: usize = 0;
    while i < samples.len()
        invariant
            i <= samples@.len() <= MAX_CROP_PIXELS,
            classes@.len() == samples@.len(),
            c < centres@.len(),
            forall|j: int|
                0 <= j < samples@.len() ==> #[trigger] classes@[j] == nearest(
                    samples@[j],
                    centres@,
                    centres@.len() as int,
                ),
            red == (|s: Rgb| s.r),
            green == (|s: Rgb| s.g),
            blue == (|s: Rgb| s.b),
            n == class_size(samples@, centres@, c as int, i as int),
            sr == class_sum(samples@, centres@, c as int, red, i as int),
            sg == class_sum(samples@, centres@, c as int, green, i as int),
            sb == class_sum(samples@, centres@, c as int, blue, i as int),
        decreases samples@.len() - i,
    {
        proof {
            sum_of_class(samples@, centres@, c as int, red, i as int);
            sum_of_class(samples@, centres@, c as int, green, i as int);
            sum_of_class(samples@, centres@, c as int, blue, i as int);
            assert(belongs(samples@, centres@, c as int, i as int) == (classes@[i as int] == c));
        }
        if classes[i] == c {
            let s = samples[i];
            n = n + 1;
            sr = sr + s.r as u64;
            sg = sg + s.g as u64;
            sb = sb + s.b as u64;
        }
        i = i + 1;
    }
    if n == 0 {
        return centres[c];
    }
    proof {
        sum_of_class(samples@, centres@, c as int, red, i as int);
        sum_of_class(samples@, centres@, c as int, green, i as int);
        sum_of_class(samples@, centres@, c as int, blue, i as int);
        mean_fits(sr as int, n as int);
        mean_fits(sg as int, n as int);
        mean_fits(sb as int, n as int);
    }
    Rgb { r: (sr / n) as u8, g: (sg / n) as u8, b: (sb / n) as u8 }
}

proof fn mean_fits(s: int, n: int)
    requires
        0 <= s <= 255 * n,
        n > 0,
    ensures
        0 <= s / n <= 255,
{
    assert(0 <= s / n <= 255) by (nonlinear_arith)
        requires
            0 <= s <= 255 * n,
            n > 0,
    ;
}

fn classify(samples: &Vec<Rgb>, centres: &Vec<Rgb>) -> (r: Vec<usize>)
    requires
        centres@.len() > 0,
    ensures
        r@.len() == samples@.len(),
        forall|i: int|
            0 <= i < samples@.len() ==> #[trigger] r@[i] == nearest(
                samples@[i],
                centres@,
                centres@.len() as int,
            ),
{
    let mut out: Vec<usize> = Vec::new();
    let mut i: usize = 0;
    while i < samples.len()
        invariant
            centres@.len() > 0,
            i <= samples@.len(),
            out@.len() == i,
            forall|j: int|
                0 <= j < i ==> #[trigger] out@[j] == nearest(
                    samples@[j],
                    centres@,
                    centres@.len() as int,
                ),
        decreases samples@.len() - i,
    {
        out.push(nearest_index(samples[i], centres));
        i = i + 1;
    }
    out
}

fn move_all(samples: &Vec<Rgb>, centres: &Vec<Rgb>) -> (r: (Vec<Rgb>, bool))
    requires
        samples@.len() <= MAX_CROP_PIXELS,
        centres@.len() > 0,
    ensures
        r.0@ == step(samples@, centres@),
        r.0@.len() == centres@.len(),
        !r.1 ==> r.0@ == centres@,
{
    let classes = classify(samples, centres);
    let mut next: Vec<Rgb> = Vec::new();
    let mut changed = false;
    let mut c: usize = 0;
    while c < centres.len()
        invariant
            samples@.len() <= MAX_CROP_PIXELS,
            classes@.len() == samples@.len(),
            forall|i: int|
                0 <= i < samples@.len() ==> #[trigger] classes@[i] == nearest(
                    samples@[i],
                    centres@,
                    centres@.len() as int,
                ),
            c <= centres@.len(),
            next@.len() == c,
            forall|j: int| 0 <= j < c ==> #[trigger] next@[j] == moved(samples@, centres@, j),
            !changed ==> forall|j: int| 0 <= j < c ==> #[trigger] next@[j] == centres@[j],
        decreases centres@.len() - c,
    {
        let m = move_centre(samples, &classes, centres, c);
        if m != centres[c] {
            changed = true;
        }
        next.push(m);
        c = c + 1;
    }
    proof {
        reveal(step);
    }
    assert(next@ =~= step(samples@, centres@));
    assert(!changed ==> next@ =~= centres@);
    (next, changed)
}

/// The centres for `k` colours.
fn kmeans(samples: &Vec<Rgb>, k: usize, iters: u32) -> (r: Vec<Rgb>)
    requires
        0 < samples@.len() <= MAX_CROP_PIXELS,
        k > 0,
    ensures
        r@ == centres_for(samples@, k as int, iters as int),
        r@.len() == k,
{
    let mut centres = seed_pp(samples, k);
    let ghost start = centres@;
    let mut left: u32 = iters;
    while left > 0
        invariant
            samples@.len() <= MAX_CROP_PIXELS,
            centres@.len() == k > 0,
            start == seeds(samples@, k as int),
            settled(samples@, start, iters as int) == settled(samples@, centres@, left as int),
        decreases left,
    {
        let (next, changed) = move_all(samples, &centres);
        if !changed {
            proof {
                settled_fixed(samples@, centres@, left as int);
            }
            return centres;
        }
        proof {
            settled_once(samples@, centres@, left as int);
        }
        centres = next;
        left = left - 1;
    }
    proof {
        settled_once(samples@, centres@, 0);
    }
    centres
}

/// The squared distances of all samples to their nearest centres, together.
fn inertia(samples: &Vec<Rgb>, centres: &Vec<Rgb>) -> (r: u64)
    requires
        samples@.len() <= MAX_CROP_PIXELS,
        centres@.len() > 0,
    ensures
        r == spread(samples@, centres@, samples@.len() as int),
        r <= 0x2_0000_0000_0000,
{
    let mut total: u64 = 0;
    let mut i: usize = 0;
    while i < samples.len()
        invariant
            i <= samples@.len() <= MAX_CROP_PIXELS,
            centres@.len() > 0,
            total == spread(samples@, centres@, i as int),
        decreases samples@.len() - i,
    {
        let c: usize = nearest_index(samples[i], centres);
        let d: u32 = sq_dist(samples[i], centres[c]);
        proof {
            spread_bounds(samples@, centres@, i as int);
            assert(d == gap(samples@[i as int], centres@, centres@.len() as int));
        }
        total = total + d as u64;
        i = i + 1;
    }
    proof {
        spread_bounds(samples@, centres@, i as int);
    }
    total
}

// ---- the elbow ----------------------------------------------------------------------

/// How much the drop from `i` to `i + 1` exceeds the next one.
pub open spec fn bend(v: Seq<u64>, i: int) -> int {
    v[i] - v[i + 1] - (v[i + 1] - v[i + 2])
}

/// The sharpest of the first `n` bends, the first of several; none is as sharp
/// as a straight line.
pub open spec fn sharpest(v: Seq<u64>, n: int) -> Option<int>
    decreases n,
{
    if n <= 0 {
        None
    } else {
        let b = sharpest(v, n - 1);
        if bend(v, n - 1) > (match b {
            Some(i) => bend(v, i),
            None => 0,
        }) {
            Some(n - 1)
        } else {
            b
        }
    }
}

/// How many colours the curve asks for: one more than where its sharpest bend
/// is; all of them where there is no room for a bend.
pub open spec fn elbow(v: Seq<u64>) -> int {
    if v.len() < 3 {
        v.len() as int
    } else {
        match sharpest(v, v.len() - 2) {
            Some(i) => i + 2,
            None => 2,
        }
    }
}

/// The elbow lies at the first of the sharpest bends, and a curve that bends
/// nowhere asks for two.
pub proof fn elbow_is_sharpest(v: Seq<u64>, n: int)
    requires
        0 <= n <= v.len() - 2,
    ensures
        match sharpest(v, n) {
            Some(i) => 0 <= i < n && bend(v, i) > 0 && (forall|j: int|
                0 <= j < n ==> #[trigger] bend(v, j) <= bend(v, i)) && (forall|j: int|
                0 <= j < i ==> #[trigger] bend(v, j) < bend(v, i)),
            None => forall|j: int| 0 <= j < n ==> #[trigger] bend(v, j) <= 0,
        },
    decreases n,
{
    if n > 0 {
        elbow_is_sharpest(v, n - 1);
    }
}

fn pick_elbow(v: &Vec<u64>) -> (r: usize)
    requires
        0 < v@.len() <= K_LIMIT,
        forall|i: int| 0 <= i < v@.len() ==> #[trigger] v@[i] <= 0x2_0000_0000_0000,
    ensures
        r == elbow(v@),
        1 <= r <= v@.len(),
{
    let n: usize = v.len();
    if n < 3 {
        return n;
    }
    let mut best: i64 = 0;
    let mut at: usize = 0;
    let mut i: usize = 0;
    while i < n - 2
        invariant
            3 <= n == v@.len() <= K_LIMIT,
            i <= n - 2,
            at < n - 2,
            forall|j: int| 0 <= j < v@.len() ==> #[trigger] v@[j] <= 0x2_0000_0000_0000,
            match sharpest(v@, i as int) {
                Some(j) => at == j && best == bend(v@, j),
                None => at == 0 && best == 0,
            },
        decreases n - i,
    {
        let s: i64 = v[i] as i64 - v[i + 1] as i64 - (v[i + 1] as i64 - v[i + 2] as i64);
        if s > best {
            best = s;
            at = i;
        }
        i = i + 1;
    }
    at + 2
}

// ---- samples ------------------------------------------------------------------------

/// The colour of pixel `i`.
pub open spec fn colour_at(rgba: Seq<u8>, i: int) -> Rgb {
    Rgb { r: rgba[4 * i], g: rgba[4 * i + 1], b: rgba[4 * i + 2] }
}

/// Pixel `i` is opaque enough.
pub open spec fn opaque_at(rgba: Seq<u8>, alpha_min: u8, i: int) -> bool {
    rgba[4 * i + 3] >= alpha_min
}

/// How many of the first `n` pixels are opaque enough.
pub open spec fn opaque_upto(rgba: Seq<u8>, alpha_min: u8, n: int) -> int {
    counting::count_below(|i: int| opaque_at(rgba, alpha_min, i), n)
}

/// Every `stride`-th of the opaque ones among the first `n` pixels.
pub open spec fn sampled(rgba: Seq<u8>, alpha_min: u8, stride: int, n: int) -> Seq<Rgb>
    decreases n,
{
    if n <= 0 {
        Seq::empty()
    } else if opaque_at(rgba, alpha_min, n - 1) && opaque_upto(rgba, alpha_min, n - 1) % stride == 0 {
        sampled(rgba, alpha_min, stride, n - 1).push(colour_at(rgba, n - 1))
    } else {
        sampled(rgba, alpha_min, stride, n - 1)
    }
}

/// Which opaque pixels are sampled.
pub open spec fn stride_of(opaque: int, sample_cap: int) -> int {
    if opaque / sample_cap == 0 {
        1
    } else {
        opaque / sample_cap
    }
}

/// The samples of a crop.
pub open spec fn samples_of(rgba: Seq<u8>, p: QuantizeParams) -> Seq<Rgb> {
    let n = rgba.len() / 4;
    sampled(
        rgba,
        p.alpha_min,
        stride_of(opaque_upto(rgba, p.alpha_min, n as int), p.sample_cap as int),
        n as int,
    )
}

proof fn sampled_bounds(rgba: Seq<u8>, alpha_min: u8, stride: int, n: int)
    requires
        stride > 0,
        n >= 0,
    ensures
        sampled(rgba, alpha_min, stride, n).len() <= n,
        opaque_upto(rgba, alpha_min, n) > 0 ==> sampled(rgba, alpha_min, stride, n).len() > 0,
    decreases n,
{
    if n > 0 {
        sampled_bounds(rgba, alpha_min, stride, n - 1);
        counting::count_bounds(|i: int| opaque_at(rgba, alpha_min, i), n - 1);
        assert(0int % stride == 0) by (nonlinear_arith)
            requires
                stride > 0,
        ;
    }
}

fn count_opaque(rgba: &[u8], alpha_min: u8) -> (r: usize)
    ensures
        r == opaque_upto(rgba@, alpha_min, (rgba@.len() / 4) as int),
{
    let len: usize = rgba.len();
    let n: usize = len / 4;
    let mut count: usize = 0;
    let mut i: usize = 0;
    while i < n
        invariant
            i <= n,
            n == len / 4,
            len == rgba@.len(),
            count == opaque_upto(rgba@, alpha_min, i as int),
            count <= i,
        decreases n - i,
    {
        if rgba[4 * i + 3] >= alpha_min {
            count = count + 1;
        }
        i = i + 1;
    }
    count
}

fn take_samples(rgba: &[u8], alpha_min: u8, stride: usize) -> (r: Vec<Rgb>)
    requires
        stride > 0,
    ensures
        r@ == sampled(rgba@, alpha_min, stride as int, (rgba@.len() / 4) as int),
{
    let len: usize = rgba.len();
    let n: usize = len / 4;
    let mut out: Vec<Rgb> = Vec::new();
    let mut seen: usize = 0;
    let mut i: usize = 0;
    while i < n
        invariant
            stride > 0,
            i <= n,
            n == len / 4,
            len == rgba@.len(),
            seen == opaque_upto(rgba@, alpha_min, i as int),
            seen <= i,
            out@ == sampled(rgba@, alpha_min, stride as int, i as int),
        decreases n - i,
    {
        if rgba[4 * i + 3] >= alpha_min {
            if seen % stride == 0 {
                out.push(Rgb { r: rgba[4 * i], g: rgba[4 * i + 1], b: rgba[4 * i + 2] });
            }
            seen = seen + 1;
        }
        i = i + 1;
    }
    out
}

// ---- layers -------------------------------------------------------------------------

/// How many colours may be searched for.
pub open spec fn k_cap(p: QuantizeParams, samples: int) -> int {
    let k = if p.k_max < 1 {
        1
    } else if p.k_max > K_LIMIT {
        K_LIMIT as int
    } else {
        p.k_max as int
    };
    if samples < k {
        samples
    } else {
        k
    }
}

/// How well each number of colours does.
pub open spec fn curve(samples: Seq<Rgb>, iters: int, n: int) -> Seq<u64> {
    Seq::new(
        n as nat,
        |j: int| spread(samples, centres_for(samples, j + 1, iters), samples.len() as int) as u64,
    )
}

/// The colours of a crop.
pub open spec fn colours_of(rgba: Seq<u8>, p: QuantizeParams) -> Seq<Rgb> {
    let s = samples_of(rgba, p);
    let k = elbow(curve(s, p.iters as int, k_cap(p, s.len() as int)));
    centres_for(s, k, p.iters as int)
}

/// Pixel `i` belongs to colour `c`.
pub open spec fn painted(rgba: Seq<u8>, alpha_min: u8, colours: Seq<Rgb>, c: int, i: int) -> bool {
    opaque_at(rgba, alpha_min, i) && nearest(colour_at(rgba, i), colours, colours.len() as int) == c
}

/// The pixels of colour `c`, as a plane.
pub open spec fn colour_plane(rgba: Seq<u8>, w: int, h: int, alpha_min: u8, colours: Seq<Rgb>, c: int) -> Plane {
    |x: int, y: int|
        0 <= x < w && 0 <= y < h && painted(rgba, alpha_min, colours, c, mask::pixel_at(w, x, y))
}

/// The ink of a plane.
pub open spec fn plane_area(w: int, h: int, f: Plane) -> int {
    counting::count_below(|k: int| f(k % w, k / w), w * h)
}

/// How many of the first `n` pixels are of colour `c`.
pub open spec fn paint_count(rgba: Seq<u8>, alpha_min: u8, colours: Seq<Rgb>, c: int, n: int) -> int {
    counting::count_below(|i: int| painted(rgba, alpha_min, colours, c, i), n)
}

/// A channel of those pixels, together.
pub open spec fn paint_sum(rgba: Seq<u8>, alpha_min: u8, colours: Seq<Rgb>, c: int, ch: int, n: int) -> int {
    counting::sum_below(
        |i: int|
            if painted(rgba, alpha_min, colours, c, i) {
                rgba[4 * i + ch] as int
            } else {
                0
            },
        n,
    )
}

/// The mean of a channel, rounded down; nothing where there are no pixels.
pub open spec fn paint_mean(rgba: Seq<u8>, alpha_min: u8, colours: Seq<Rgb>, c: int, ch: int, n: int) -> int {
    let count = paint_count(rgba, alpha_min, colours, c, n);
    if count == 0 {
        0
    } else {
        paint_sum(rgba, alpha_min, colours, c, ch, n) / count
    }
}

/// The layer of colour `c`.
pub open spec fn is_layer(rgba: Seq<u8>, w: u32, h: u32, alpha_min: u8, colours: Seq<Rgb>, c: int, l: Layer) -> bool {
    let f = clean::opened(
        w as int,
        h as int,
        colour_plane(rgba, w as int, h as int, alpha_min, colours, c),
    );
    &&& l.mask.wf()
    &&& l.mask.width == w
    &&& l.mask.height == h
    &&& forall|x: int, y: int| #[trigger] l.mask.ink(x, y) == f(x, y)
    &&& l.area == plane_area(w as int, h as int, f)
    &&& forall|ch: int|
        0 <= ch < 4 ==> #[trigger] l.rgba@[ch] == paint_mean(
            rgba,
            alpha_min,
            colours,
            c,
            ch,
            w * h,
        )
}

/// The ink that colour `c` keeps.
pub open spec fn layer_area(rgba: Seq<u8>, w: int, h: int, alpha_min: u8, colours: Seq<Rgb>, c: int) -> int {
    plane_area(w, h, clean::opened(w, h, colour_plane(rgba, w, h, alpha_min, colours, c)))
}

/// A colour as one number, red first.
pub open spec fn colour_rank(rgba: Seq<u8>) -> int {
    rgba[0] * 0x100_0000 + rgba[1] * 0x1_0000 + rgba[2] * 0x100 + rgba[3]
}

/// Layer `a` of colour `i` is painted before layer `b` of colour `j`: the larger
/// one first, then the lesser colour.
pub open spec fn paints_before(a: Layer, i: int, b: Layer, j: int) -> bool {
    ||| a.area > b.area
    ||| a.area == b.area && colour_rank(a.rgba@) < colour_rank(b.rgba@)
    ||| a.area == b.area && colour_rank(a.rgba@) == colour_rank(b.rgba@) && i < j
}

/// The least ink of a layer.
pub open spec fn least_area(p: QuantizeParams) -> int {
    if p.layer_min_px == 0 {
        1
    } else {
        p.layer_min_px as int
    }
}

/// `out` holds the layers of the first `n` colours that keep enough ink, in
/// paint order; `tags` says which colours they are of.
pub open spec fn are_layers(
    rgba: Seq<u8>,
    w: u32,
    h: u32,
    p: QuantizeParams,
    colours: Seq<Rgb>,
    n: int,
    tags: Seq<int>,
    out: Seq<Layer>,
) -> bool {
    &&& tags.len() == out.len()
    &&& forall|i: int|
        0 <= i < out.len() ==> 0 <= #[trigger] tags[i] < n && is_layer(
            rgba,
            w,
            h,
            p.alpha_min,
            colours,
            tags[i],
            out[i],
        ) && out[i].area >= least_area(p)
    &&& forall|i: int, j: int|
        #![trigger tags[i], tags[j]]
        0 <= i < j < out.len() ==> paints_before(out[i], tags[i], out[j], tags[j]) && tags[i] != tags[j]
    &&& forall|c: int|
        0 <= c < n && #[trigger] layer_area(rgba, w as int, h as int, p.alpha_min, colours, c)
            >= least_area(p) ==> tags.contains(c)
}

/// The crop holds nothing to paint.
pub open spec fn is_blank(rgba: Seq<u8>, w: u32, h: u32, p: QuantizeParams) -> bool {
    ||| w * h == 0
    ||| rgba.len() < 4 * (w * h)
    ||| opaque_upto(rgba, p.alpha_min, (rgba.len() / 4) as int) == 0
}

/// `out` are the paint layers of a crop.
pub open spec fn is_quantized(rgba: Seq<u8>, w: u32, h: u32, p: QuantizeParams, out: Seq<Layer>) -> bool {
    if is_blank(rgba, w, h, p) {
        out.len() == 0
    } else {
        let colours = colours_of(rgba, p);
        exists|tags: Seq<int>| #[trigger]
            are_layers(rgba, w, h, p, colours, colours.len() as int, tags, out)
    }
}

proof fn paint_bounds(rgba: Seq<u8>, alpha_min: u8, colours: Seq<Rgb>, c: int, ch: int, n: int)
    ensures
        0 <= paint_sum(rgba, alpha_min, colours, c, ch, n) <= 255 * paint_count(
            rgba,
            alpha_min,
            colours,
            c,
            n,
        ),
        0 <= paint_count(rgba, alpha_min, colours, c, n),
        n >= 0 ==> paint_count(rgba, alpha_min, colours, c, n) <= n,
    decreases n,
{
    if n > 0 {
        paint_bounds(rgba, alpha_min, colours, c, ch, n - 1);
    }
}

/// Which colour each pixel belongs to; `colours.len()` for none.
fn label_pixels(rgba: &[u8], n: usize, alpha_min: u8, colours: &Vec<Rgb>) -> (r: Vec<usize>)
    requires
        4 * n <= rgba@.len(),
        colours@.len() > 0,
    ensures
        r@.len() == n,
        forall|c: int, i: int|
            0 <= i < n && 0 <= c < colours@.len() ==> (#[trigger] r@[i] == c) == #[trigger] painted(
                rgba@,
                alpha_min,
                colours@,
                c,
                i,
            ),
{
    let len: usize = rgba.len();
    let k: usize = colours.len();
    let mut out: Vec<usize> = Vec::new();
    let mut i: usize = 0;
    while i < n
        invariant
            len == rgba@.len(),
            4 * n <= len,
            k == colours@.len() > 0,
            i <= n,
            out@.len() == i,
            forall|c: int, j: int|
                0 <= j < i && 0 <= c < k ==> (#[trigger] out@[j] == c) == #[trigger] painted(
                    rgba@,
                    alpha_min,
                    colours@,
                    c,
                    j,
                ),
        decreases n - i,
    {
        if rgba[4 * i + 3] >= alpha_min {
            let s = Rgb { r: rgba[4 * i], g: rgba[4 * i + 1], b: rgba[4 * i + 2] };
            assert(s == colour_at(rgba@, i as int));
            out.push(nearest_index(s, colours));
        } else {
            out.push(k);
        }
        i = i + 1;
    }
    out
}

fn paint_channel(rgba: &[u8], labels: &Vec<usize>, alpha_min: u8, colours: &Vec<Rgb>, c: usize, ch: usize) -> (r: u8)
    requires
        labels@.len() <= mask::MAX_PIXELS,
        4 * labels@.len() <= rgba@.len(),
        c < colours@.len(),
        ch < 4,
        forall|q: int, i: int|
            0 <= i < labels@.len() && 0 <= q < colours@.len() ==> (#[trigger] labels@[i] == q)
                == #[trigger] painted(rgba@, alpha_min, colours@, q, i),
    ensures
        r == paint_mean(rgba@, alpha_min, colours@, c as int, ch as int, labels@.len() as int),
{
    let len: usize = rgba.len();
    let mut sum: u64 = 0;
    let mut count: u64 = 0;
    let mut i: usize = 0;
    while i < labels.len()
        invariant
            i <= labels@.len() <= mask::MAX_PIXELS,
            len == rgba@.len(),
            4 * labels@.len() <= len,
            c < colours@.len(),
            ch < 4,
            forall|q: int, j: int|
                0 <= j < labels@.len() && 0 <= q < colours@.len() ==> (#[trigger] labels@[j] == q)
                    == #[trigger] painted(rgba@, alpha_min, colours@, q, j),
            sum == paint_sum(rgba@, alpha_min, colours@, c as int, ch as int, i as int),
            count == paint_count(rgba@, alpha_min, colours@, c as int, i as int),
        decreases labels@.len() - i,
    {
        proof {
            paint_bounds(rgba@, alpha_min, colours@, c as int, ch as int, i as int);
            assert((labels@[i as int] == c as int) == painted(
                rgba@,
                alpha_min,
                colours@,
                c as int,
                i as int,
            ));
        }
        if labels[i] == c {
            sum = sum + rgba[4 * i + ch] as u64;
            count = count + 1;
        }
        i = i + 1;
    }
    if count == 0 {
        return 0;
    }
    proof {
        paint_bounds(rgba@, alpha_min, colours@, c as int, ch as int, i as int);
        mean_fits(sum as int, count as int);
    }
    (sum / count) as u8
}

fn colour_mask(labels: &Vec<usize>, w: u32, h: u32, c: usize) -> (r: ForegroundMask)
    requires
        w * h <= mask::MAX_PIXELS,
        labels@.len() == w * h,
    ensures
        r.wf(),
        r.width == w,
        r.height == h,
        forall|k: int| 0 <= k < labels@.len() ==> #[trigger] r.bits@[k] == (labels@[k] == c),
{
    let mut m = ForegroundMask::new(w, h);
    let mut i: usize = 0;
    while i < labels.len()
        invariant
            i <= labels@.len() == w * h,
            m.wf(),
            m.width == w,
            m.height == h,
            forall|k: int| 0 <= k < i ==> #[trigger] m.bits@[k] == (labels@[k] == c),
            forall|k: int| i <= k < labels@.len() ==> !#[trigger] m.bits@[k],
        decreases labels@.len() - i,
    {
        if labels[i] == c {
            m.set_index(i, true);
        }
        i = i + 1;
    }
    m
}

fn make_layer(rgba: &[u8], labels: &Vec<usize>, w: u32, h: u32, alpha_min: u8, colours: &Vec<Rgb>, c: usize) -> (r: Layer)
    requires
        0 < w * h <= mask::MAX_PIXELS,
        labels@.len() == w * h,
        4 * labels@.len() <= rgba@.len(),
        c < colours@.len(),
        forall|q: int, i: int|
            0 <= i < labels@.len() && 0 <= q < colours@.len() ==> (#[trigger] labels@[i] == q)
                == #[trigger] painted(rgba@, alpha_min, colours@, q, i),
    ensures
        is_layer(rgba@, w, h, alpha_min, colours@, c as int, r),
        r.area == layer_area(rgba@, w as int, h as int, alpha_min, colours@, c as int),
{
    let raw = colour_mask(labels, w, h, c);
    let m = clean::open3(&raw);
    let ghost wi = w as int;
    let ghost hi = h as int;
    let ghost plane = colour_plane(rgba@, wi, hi, alpha_min, colours@, c as int);
    proof {
        assert(0 < wi) by (nonlinear_arith)
            requires
                0 < wi * hi,
                0 <= wi,
                0 <= hi,
        ;
        assert forall|x: int, y: int| clean::plane_of(raw)(x, y) == #[trigger] plane(x, y) by {
            if 0 <= x < wi && 0 <= y < hi {
                mask::lemma_pixel_in(wi, hi, x, y);
                let k = mask::pixel_at(wi, x, y);
                assert(raw.bits@[k] == (labels@[k] == c));
                assert((labels@[k] == c as int) == painted(
                    rgba@,
                    alpha_min,
                    colours@,
                    c as int,
                    k,
                ));
            }
        }
        assert(clean::plane_of(raw) =~= plane);
    }
    let ghost f = clean::opened(wi, hi, plane);
    assert(forall|x: int, y: int| #[trigger] m.ink(x, y) == f(x, y));
    let area: u64 = m.ink_count();
    proof {
        let a = |k: int| m.bits@[k];
        let b = |k: int| f(k % wi, k / wi);
        assert forall|k: int| 0 <= k < wi * hi implies #[trigger] a(k) == b(k) by {
            mask::lemma_pixel_split(wi, hi, k);
            assert(m.ink(k % wi, k / wi) == f(k % wi, k / wi));
        }
        counting::count_ext(a, b, wi * hi);
    }
    let colour: [u8; 4] = [
        paint_channel(rgba, labels, alpha_min, colours, c, 0),
        paint_channel(rgba, labels, alpha_min, colours, c, 1),
        paint_channel(rgba, labels, alpha_min, colours, c, 2),
        paint_channel(rgba, labels, alpha_min, colours, c, 3),
    ];
    Layer { rgba: colour, mask: m, area }
}

fn rank(rgba: &[u8; 4]) -> (r: u64)
    ensures
        r == colour_rank(rgba@),
{
    rgba[0] as u64 * 0x100_0000 + rgba[1] as u64 * 0x1_0000 + rgba[2] as u64 * 0x100 + rgba[3] as u64
}

/// Where a layer of a later colour goes.
fn place(out: &Vec<Layer>, l: &Layer) -> (r: usize)
    ensures
        r <= out@.len(),
        forall|i: int|
            0 <= i < r ==> {
                let o = #[trigger] out@[i];
                o.area > l.area || (o.area == l.area && colour_rank(o.rgba@) <= colour_rank(l.rgba@))
            },
        r < out@.len() ==> l.area > out@[r as int].area || (l.area == out@[r as int].area
            && colour_rank(l.rgba@) < colour_rank(out@[r as int].rgba@)),
{
    let key: u64 = rank(&l.rgba);
    let mut i: usize = 0;
    while i < out.len()
        invariant
            key == colour_rank(l.rgba@),
            i <= out@.len(),
            forall|j: int|
                0 <= j < i ==> {
                    let o = #[trigger] out@[j];
                    o.area > l.area || (o.area == l.area && colour_rank(o.rgba@) <= colour_rank(
                        l.rgba@,
                    ))
                },
        decreases out@.len() - i,
    {
        if l.area > out[i].area || (l.area == out[i].area && key < rank(&out[i].rgba)) {
            return i;
        }
        i = i + 1;
    }
    i
}

/// A layer put in its place keeps the list a list of layers.
proof fn placed(
    rgba: Seq<u8>,
    w: u32,
    h: u32,
    p: QuantizeParams,
    colours: Seq<Rgb>,
    n: int,
    tags: Seq<int>,
    out: Seq<Layer>,
    l: Layer,
    at: int,
)
    requires
        are_layers(rgba, w, h, p, colours, n, tags, out),
        is_layer(rgba, w, h, p.alpha_min, colours, n, l),
        l.area >= least_area(p),
        n >= 0,
        0 <= at <= out.len(),
        forall|i: int|
            0 <= i < at ==> {
                let o = #[trigger] out[i];
                o.area > l.area || (o.area == l.area && colour_rank(o.rgba@) <= colour_rank(l.rgba@))
            },
        at < out.len() ==> l.area > out[at].area || (l.area == out[at].area && colour_rank(l.rgba@)
            < colour_rank(out[at].rgba@)),
    ensures
        are_layers(rgba, w, h, p, colours, n + 1, tags.insert(at, n), out.insert(at, l)),
{
    let t = tags.insert(at, n);
    let o = out.insert(at, l);
    assert forall|i: int| 0 <= i < o.len() implies 0 <= #[trigger] t[i] < n + 1 && is_layer(
        rgba,
        w,
        h,
        p.alpha_min,
        colours,
        t[i],
        o[i],
    ) && o[i].area >= least_area(p) by {
        let k = if i < at {
            i
        } else {
            i - 1
        };
        if i != at {
            assert(t[i] == tags[k] && o[i] == out[k]);
        }
    }
    assert forall|i: int, j: int|
        #![trigger t[i], t[j]]
        0 <= i < j < o.len() implies paints_before(o[i], t[i], o[j], t[j]) && t[i] != t[j] by {
        let a = if i < at {
            i
        } else {
            i - 1
        };
        let b = if j < at {
            j
        } else {
            j - 1
        };
        if i != at {
            assert(t[i] == tags[a] && o[i] == out[a]);
        }
        if j != at {
            assert(t[j] == tags[b] && o[j] == out[b]);
        }
        if i == at {
            assert(0 <= tags[b] < n);
            assert(at <= b);
            assert(0 <= tags[at] < n);
            if at < b {
                assert(paints_before(out[at], tags[at], out[b], tags[b]));
            }
        } else if j == at {
            assert(0 <= tags[a] < n);
        } else {
            assert(paints_before(out[a], tags[a], out[b], tags[b]));
        }
    }
    assert forall|c: int|
        0 <= c < n + 1 && #[trigger] layer_area(rgba, w as int, h as int, p.alpha_min, colours, c)
            >= least_area(p) implies t.contains(c) by {
        if c == n {
            assert(t[at] == n);
        } else {
            assert(tags.contains(c));
            let k = choose|k: int| 0 <= k < tags.len() && tags[k] == c;
            if k < at {
                assert(t[k] == c);
            } else {
                assert(t[k + 1] == c);
            }
        }
    }
}

/// The elbow of the curve.
fn choose_k(samples: &Vec<Rgb>, p: &QuantizeParams) -> (r: usize)
    requires
        0 < samples@.len() <= MAX_CROP_PIXELS,
    ensures
        r == elbow(curve(samples@, p.iters as int, k_cap(*p, samples@.len() as int))),
        r > 0,
{
    let k: usize = if p.k_max < 1 {
        1
    } else if p.k_max > K_LIMIT {
        32
    } else {
        p.k_max as usize
    };
    let cap: usize = if samples.len() < k {
        samples.len()
    } else {
        k
    };
    let mut v: Vec<u64> = Vec::new();
    while v.len() < cap
        invariant
            0 < samples@.len() <= MAX_CROP_PIXELS,
            0 < cap <= K_LIMIT,
            v@.len() <= cap,
            forall|j: int|
                0 <= j < v@.len() ==> #[trigger] v@[j] == spread(
                    samples@,
                    centres_for(samples@, j + 1, p.iters as int),
                    samples@.len() as int,
                ) && v@[j] <= 0x2_0000_0000_0000,
        decreases cap - v@.len(),
    {
        let centres = kmeans(samples, v.len() + 1, p.iters);
        v.push(inertia(samples, &centres));
    }
    assert(v@ =~= curve(samples@, p.iters as int, cap as int));
    pick_elbow(&v)
}

/// Quantizes a crop into paint layers, the largest first.
pub fn quantize_crop(rgba: &[u8], w: u32, h: u32, p: &QuantizeParams) -> (r: Vec<Layer>)
    requires
        w * h <= mask::MAX_PIXELS,
        rgba@.len() <= 4 * MAX_CROP_PIXELS,
        p.sample_cap > 0,
    ensures
        is_quantized(rgba@, w, h, *p, r@),
{
    let mut out: Vec<Layer> = Vec::new();
    let n: usize = (w as u64 * h as u64) as usize;
    if n == 0 || rgba.len() / 4 < n {
        return out;
    }
    let opaque: usize = count_opaque(rgba, p.alpha_min);
    if opaque == 0 {
        return out;
    }
    let whole: usize = opaque / p.sample_cap as usize;
    let stride: usize = if whole == 0 {
        1
    } else {
        whole
    };
    let samples = take_samples(rgba, p.alpha_min, stride);
    proof {
        sampled_bounds(rgba@, p.alpha_min, stride as int, (rgba@.len() / 4) as int);
        assert(samples@ == samples_of(rgba@, *p));
    }
    let k: usize = choose_k(&samples, p);
    let colours = kmeans(&samples, k, p.iters);
    assert(colours@ == colours_of(rgba@, *p));
    let labels = label_pixels(rgba, n, p.alpha_min, &colours);
    let ghost mut tags: Seq<int> = Seq::empty();
    let mut c: usize = 0;
    while c < colours.len()
        invariant
            0 < w * h <= mask::MAX_PIXELS,
            labels@.len() == w * h,
            4 * labels@.len() <= rgba@.len(),
            forall|q: int, i: int|
                0 <= i < labels@.len() && 0 <= q < colours@.len() ==> (#[trigger] labels@[i] == q)
                    == #[trigger] painted(rgba@, p.alpha_min, colours@, q, i),
            c <= colours@.len(),
            are_layers(rgba@, w, h, *p, colours@, c as int, tags, out@),
        decreases colours@.len() - c,
    {
        let l = make_layer(rgba, &labels, w, h, p.alpha_min, &colours, c);
        let least: u64 = if p.layer_min_px == 0 {
            1
        } else {
            p.layer_min_px as u64
        };
        let ghost before = out@;
        if l.area >= least {
            let at: usize = place(&out, &l);
            proof {
                placed(rgba@, w, h, *p, colours@, c as int, tags, before, l, at as int);
                tags = tags.insert(at as int, c as int);
            }
            out.insert(at, l);
        } else {
            proof {
                assert forall|q: int|
                    0 <= q < c + 1 && #[trigger] layer_area(
                        rgba@,
                        w as int,
                        h as int,
                        p.alpha_min,
                        colours@,
                        q,
                    ) >= least_area(*p) implies tags.contains(q) by {
                    assert(q != c);
                }
            }
        }
        c = c + 1;
    }
    out
}

/// Two layers share no pixel.
pub proof fn layers_share_no_pixel(
    rgba: Seq<u8>,
    w: u32,
    h: u32,
    p: QuantizeParams,
    out: Seq<Layer>,
    i: int,
    j: int,
    x: int,
    y: int,
)
    requires
        is_quantized(rgba, w, h, p, out),
        0 <= i < j < out.len(),
    ensures
        !(out[i].mask.ink(x, y) && out[j].mask.ink(x, y)),
{
    let colours = colours_of(rgba, p);
    let tags = choose|tags: Seq<int>| #[trigger]
        are_layers(rgba, w, h, p, colours, colours.len() as int, tags, out);
    let wi = w as int;
    let hi = h as int;
    assert(tags[i] != tags[j]);
    let a = colour_plane(rgba, wi, hi, p.alpha_min, colours, tags[i]);
    let b = colour_plane(rgba, wi, hi, p.alpha_min, colours, tags[j]);
    clean::opening_only_removes(wi, hi, a, x, y);
    clean::opening_only_removes(wi, hi, b, x, y);
    assert(out[i].mask.ink(x, y) == clean::opened(wi, hi, a)(x, y));
    assert(out[j].mask.ink(x, y) == clean::opened(wi, hi, b)(x, y));
}

/// Layers come in paint order: none has more ink than one before it.
pub proof fn layers_shrink(rgba: Seq<u8>, w: u32, h: u32, p: QuantizeParams, out: Seq<Layer>, i: int, j: int)
    requires
        is_quantized(rgba, w, h, p, out),
        0 <= i < j < out.len(),
    ensures
        out[i].area >= out[j].area,
        out[j].area >= least_area(p),
{
    let colours = colours_of(rgba, p);
    let tags = choose|tags: Seq<int>| #[trigger]
        are_layers(rgba, w, h, p, colours, colours.len() as int, tags, out);
    assert(paints_before(out[i], tags[i], out[j], tags[j]));
    assert(0 <= tags[j]);
}

/// A crop has no more layers than the parameters allow colours.
pub proof fn layers_are_bounded(rgba: Seq<u8>, w: u32, h: u32, p: QuantizeParams, out: Seq<Layer>)
    requires
        is_quantized(rgba, w, h, p, out),
        p.sample_cap > 0,
    ensures
        out.len() <= k_cap(p, samples_of(rgba, p).len() as int),
        out.len() <= K_LIMIT,
{
    if is_blank(rgba, w, h, p) {
        return;
    }
    let n = (rgba.len() / 4) as int;
    let opaque = opaque_upto(rgba, p.alpha_min, n);
    counting::count_bounds(|i: int| opaque_at(rgba, p.alpha_min, i), n);
    let stride = stride_of(opaque, p.sample_cap as int);
    assert(opaque / p.sample_cap as int >= 0) by (nonlinear_arith)
        requires
            opaque >= 0,
            p.sample_cap > 0,
    ;
    sampled_bounds(rgba, p.alpha_min, stride, n);
    let s = samples_of(rgba, p);
    let cap = k_cap(p, s.len() as int);
    let v = curve(s, p.iters as int, cap);
    if v.len() >= 3 {
        elbow_is_sharpest(v, v.len() - 2);
    }
    let k = elbow(v);
    assert(1 <= k <= cap);
    let colours = colours_of(rgba, p);
    seeds_len(s, k);
    settled_len(s, seeds(s, k), p.iters as int);
    let tags = choose|tags: Seq<int>| #[trigger]
        are_layers(rgba, w, h, p, colours, colours.len() as int, tags, out);
    distinct_below(tags, colours.len() as int);
}

proof fn seeds_len(samples: Seq<Rgb>, n: int)
    requires
        n >= 1,
    ensures
        seeds(samples, n).len() == n,
    decreases n,
{
    if n > 1 {
        seeds_len(samples, n - 1);
    }
}

proof fn settled_len(samples: Seq<Rgb>, centres: Seq<Rgb>, n: int)
    ensures
        settled(samples, centres, n).len() == centres.len(),
    decreases n,
{
    reveal(settled);
    reveal(step);
    if n > 0 {
        settled_len(samples, step(samples, centres), n - 1);
    }
}

proof fn distinct_below(s: Seq<int>, n: int)
    requires
        forall|i: int| 0 <= i < s.len() ==> 0 <= #[trigger] s[i] < n,
        forall|i: int, j: int| #![trigger s[i], s[j]] 0 <= i < j < s.len() ==> s[i] != s[j],
        n >= 0,
    ensures
        s.len() <= n,
    decreases n,
{
    if s.len() > 0 {
        assert(0 <= s[0] < n);
        if s.contains(n - 1) {
            let k = choose|k: int| 0 <= k < s.len() && s[k] == n - 1;
            let t = s.remove(k);
            assert forall|i: int| 0 <= i < t.len() implies 0 <= #[trigger] t[i] < n - 1 by {
                let o = if i < k {
                    i
                } else {
                    i + 1
                };
                assert(t[i] == s[o]);
                if o < k {
                    assert(s[o] != s[k]);
                } else {
                    assert(s[k] != s[o]);
                }
            }
            assert forall|i: int, j: int|
                #![trigger t[i], t[j]]
                0 <= i < j < t.len() implies t[i] != t[j] by {
                let a = if i < k {
                    i
                } else {
                    i + 1
                };
                let b = if j < k {
                    j
                } else {
                    j + 1
                };
                assert(t[i] == s[a] && t[j] == s[b]);
            }
            distinct_below(t, n - 1);
        } else {
            assert forall|i: int| 0 <= i < s.len() implies 0 <= #[trigger] s[i] < n - 1 by {
                assert(s.contains(s[i]));
            }
            distinct_below(s, n - 1);
        }
    }
}

proof fn layer_again(
    rgba: Seq<u8>,
    w: u32,
    h: u32,
    p: QuantizeParams,
    tags1: Seq<int>,
    a: Seq<Layer>,
    tags2: Seq<int>,
    b: Seq<Layer>,
    i: int,
) -> (j: int)
    requires
        are_layers(rgba, w, h, p, colours_of(rgba, p), colours_of(rgba, p).len() as int, tags1, a),
        are_layers(rgba, w, h, p, colours_of(rgba, p), colours_of(rgba, p).len() as int, tags2, b),
        0 <= i < a.len(),
    ensures
        0 <= j < b.len(),
        tags2[j] == tags1[i],
        a[i].area == b[j].area,
        a[i].rgba@ == b[j].rgba@,
        a[i].mask.width == b[j].mask.width,
        a[i].mask.height == b[j].mask.height,
        a[i].mask.bits@ == b[j].mask.bits@,
{
    let colours = colours_of(rgba, p);
    let c = tags1[i];
    assert(is_layer(rgba, w, h, p.alpha_min, colours, c, a[i]));
    assert(layer_area(rgba, w as int, h as int, p.alpha_min, colours, c) >= least_area(p));
    let j = choose|j: int| 0 <= j < tags2.len() && tags2[j] == c;
    assert(is_layer(rgba, w, h, p.alpha_min, colours, tags2[j], b[j]));
    assert forall|ch: int| 0 <= ch < 4 implies a[i].rgba@[ch] == b[j].rgba@[ch] by {
        assert(a[i].rgba@[ch] == paint_mean(rgba, p.alpha_min, colours, c, ch, w * h));
    }
    assert(a[i].rgba@ =~= b[j].rgba@);
    mask::same_ink_same_mask(a[i].mask, b[j].mask);
    j
}

proof fn tags_prefix(
    rgba: Seq<u8>,
    w: u32,
    h: u32,
    p: QuantizeParams,
    tags1: Seq<int>,
    a: Seq<Layer>,
    tags2: Seq<int>,
    b: Seq<Layer>,
    n: int,
)
    requires
        are_layers(rgba, w, h, p, colours_of(rgba, p), colours_of(rgba, p).len() as int, tags1, a),
        are_layers(rgba, w, h, p, colours_of(rgba, p), colours_of(rgba, p).len() as int, tags2, b),
        0 <= n <= a.len(),
    ensures
        n <= b.len(),
        forall|i: int| 0 <= i < n ==> tags1[i] == tags2[i],
    decreases n,
{
    if n > 0 {
        let k = n - 1;
        tags_prefix(rgba, w, h, p, tags1, a, tags2, b, k);
        let j = layer_again(rgba, w, h, p, tags1, a, tags2, b, k);
        if j < k {
            assert(tags1[j] == tags2[j]);
            assert(tags1[j] != tags1[k]);
        }
        let l = layer_again(rgba, w, h, p, tags2, b, tags1, a, k);
        if l < k {
            assert(tags1[l] == tags2[l]);
            assert(tags2[l] != tags2[k]);
        }
        if j > k && l > k {
            assert(paints_before(b[k], tags2[k], b[j], tags2[j]));
            assert(paints_before(a[k], tags1[k], a[l], tags1[l]));
        }
    }
}

/// A crop has one list of layers under given parameters.
pub proof fn quantization_is_determined(
    rgba: Seq<u8>,
    w: u32,
    h: u32,
    p: QuantizeParams,
    a: Seq<Layer>,
    b: Seq<Layer>,
)
    requires
        is_quantized(rgba, w, h, p, a),
        is_quantized(rgba, w, h, p, b),
    ensures
        a.len() == b.len(),
        forall|i: int|
            0 <= i < a.len() ==> (#[trigger] a[i]).area == b[i].area && a[i].rgba@ == b[i].rgba@
                && a[i].mask.bits@ == b[i].mask.bits@,
{
    if !is_blank(rgba, w, h, p) {
        let colours = colours_of(rgba, p);
        let t1 = choose|tags: Seq<int>| #[trigger]
            are_layers(rgba, w, h, p, colours, colours.len() as int, tags, a);
        let t2 = choose|tags: Seq<int>| #[trigger]
            are_layers(rgba, w, h, p, colours, colours.len() as int, tags, b);
        tags_prefix(rgba, w, h, p, t1, a, t2, b, a.len() as int);
        tags_prefix(rgba, w, h, p, t2, b, t1, a, b.len() as int);
        assert forall|i: int| 0 <= i < a.len() implies (#[trigger] a[i]).area == b[i].area && a[i].rgba@
            == b[i].rgba@ && a[i].mask.bits@ == b[i].mask.bits@ by {
            let j = layer_again(rgba, w, h, p, t1, a, t2, b, i);
            assert(t1[i] == t2[i]);
            if j != i {
                assert(t2[j] != t2[i]);
            }
        }
    }
}

// ---- what a layer is ----------------------------------------------------------------

/// `class` says which of the first `n` pixels a layer stands for: opaque ones,
/// each with all others of its own colour, and at least all that the layer
/// paints. Its colour is their mean, channel by channel, rounded down.
pub open spec fn stands_for(rgba: Seq<u8>, w: int, n: int, alpha_min: u8, l: Layer, class: spec_fn(int) -> bool) -> bool {
    &&& forall|k: int| 0 <= k < n && #[trigger] class(k) ==> rgba[4 * k + 3] >= alpha_min
    &&& forall|j: int, k: int|
        0 <= j < n && 0 <= k < n && rgba[4 * j] == rgba[4 * k] && rgba[4 * j + 1] == rgba[4 * k + 1]
            && rgba[4 * j + 2] == rgba[4 * k + 2] && rgba[4 * j + 3] >= alpha_min && rgba[4 * k + 3]
            >= alpha_min ==> #[trigger] class(j) == #[trigger] class(k)
    &&& forall|x: int, y: int| #[trigger] l.mask.ink(x, y) ==> class(y * w + x)
    &&& counting::count_below(class, n) > 0
    &&& forall|ch: int|
        0 <= ch < 4 ==> (#[trigger] l.rgba@[ch]) * counting::count_below(class, n)
            <= counting::sum_below(
            |k: int|
                if class(k) {
                    rgba[4 * k + ch] as int
                } else {
                    0int
                },
            n,
        ) < (l.rgba@[ch] + 1) * counting::count_below(class, n)
}

/// The pixels that layer `i` stands for.
pub open spec fn class_of_layer(rgba: Seq<u8>, p: QuantizeParams, tags: Seq<int>, i: int) -> spec_fn(int) -> bool {
    |k: int| painted(rgba, p.alpha_min, colours_of(rgba, p), tags[i], k)
}

proof fn some_pixel(w: int, h: int, f: Plane)
    requires
        plane_area(w, h, f) > 0,
    ensures
        exists|x: int, y: int| #[trigger] f(x, y),
{
    let g = |k: int| f(k % w, k / w);
    counting::count_some(g, w * h);
    let k = choose|k: int| 0 <= k < w * h && #[trigger] g(k);
    assert(f(k % w, k / w));
}

/// Every layer is a part of a class of pixels and has the mean colour of that
/// class. Classes of different layers share no pixel.
pub proof fn layers_have_their_own_colour(rgba: Seq<u8>, w: u32, h: u32, p: QuantizeParams, out: Seq<Layer>) -> (classes:
    Seq<spec_fn(int) -> bool>)
    requires
        is_quantized(rgba, w, h, p, out),
    ensures
        classes.len() == out.len(),
        forall|i: int|
            0 <= i < out.len() ==> stands_for(
                rgba,
                w as int,
                w * h,
                p.alpha_min,
                #[trigger] out[i],
                classes[i],
            ),
        forall|i: int, j: int, k: int|
            0 <= i < j < out.len() && 0 <= k < w * h ==> !(#[trigger] classes[i](k) && #[trigger] classes[j](k)),
{
    let n = w * h;
    let wi = w as int;
    let hi = h as int;
    let colours = colours_of(rgba, p);
    if is_blank(rgba, w, h, p) {
        return Seq::empty();
    }
    let tags = choose|tags: Seq<int>| #[trigger]
        are_layers(rgba, w, h, p, colours, colours.len() as int, tags, out);
    let classes = Seq::new(out.len(), |i: int| class_of_layer(rgba, p, tags, i));
    assert forall|i: int| 0 <= i < out.len() implies stands_for(
        rgba,
        wi,
        n,
        p.alpha_min,
        #[trigger] out[i],
        classes[i],
    ) by {
        let c = tags[i];
        let l = out[i];
        let class = classes[i];
        let plane = colour_plane(rgba, wi, hi, p.alpha_min, colours, c);
        let opened = clean::opened(wi, hi, plane);
        assert(is_layer(rgba, w, h, p.alpha_min, colours, c, l));
        some_pixel(wi, hi, opened);
        let (x, y) = choose|x: int, y: int| #[trigger] opened(x, y);
        clean::opening_only_removes(wi, hi, plane, x, y);
        mask::lemma_pixel_in(wi, hi, x, y);
        assert(class(y * wi + x));
        counting::count_positive(class, n, y * wi + x);
        assert forall|x: int, y: int| #[trigger] l.mask.ink(x, y) implies class(y * wi + x) by {
            assert(opened(x, y));
            clean::opening_only_removes(wi, hi, plane, x, y);
        }
        let count = counting::count_below(class, n);
        counting::count_ext(class, |k: int| painted(rgba, p.alpha_min, colours, c, k), n);
        assert forall|ch: int| 0 <= ch < 4 implies (#[trigger] l.rgba@[ch]) * count <= counting::sum_below(
            |k: int|
                if class(k) {
                    rgba[4 * k + ch] as int
                } else {
                    0int
                },
            n,
        ) < (l.rgba@[ch] + 1) * count by {
            let s = |k: int|
                if class(k) {
                    rgba[4 * k + ch] as int
                } else {
                    0int
                };
            counting::sum_ext(
                s,
                |k: int|
                    if painted(rgba, p.alpha_min, colours, c, k) {
                        rgba[4 * k + ch] as int
                    } else {
                        0
                    },
                n,
            );
            assert(paint_count(rgba, p.alpha_min, colours, c, n) == count);
            assert(paint_sum(rgba, p.alpha_min, colours, c, ch, n) == counting::sum_below(s, n));
            counting::quotient_sides(paint_sum(rgba, p.alpha_min, colours, c, ch, n), count);
        }
    }
    assert forall|i: int, j: int, k: int| 0 <= i < j < out.len() && 0 <= k < n implies !(
    #[trigger] classes[i](k) && #[trigger] classes[j](k)) by {
        assert(tags[i] != tags[j]);
    }
    classes
}

/// A layer whose pixels, and those of its class, all have one colour is painted
/// in that colour.
pub proof fn plain_layers_keep_their_colour(
    rgba: Seq<u8>,
    w: int,
    n: int,
    alpha_min: u8,
    l: Layer,
    class: spec_fn(int) -> bool,
    ch: int,
    lo: u8,
    hi: u8,
)
    requires
        stands_for(rgba, w, n, alpha_min, l, class),
        0 <= ch < 4,
        forall|k: int| 0 <= k < n && #[trigger] class(k) ==> lo <= rgba[4 * k + ch] <= hi,
    ensures
        lo <= l.rgba@[ch] <= hi,
{
    let g = |k: int| rgba[4 * k + ch] as int;
    counting::picked_between(class, g, lo as int, hi as int, n);
    counting::sum_ext(
        |k: int|
            if class(k) {
                rgba[4 * k + ch] as int
            } else {
                0int
            },
        |k: int|
            if class(k) {
                g(k)
            } else {
                0int
            },
        n,
    );
    let count = counting::count_below(class, n);
    let v = l.rgba@[ch] as int;
    assert(lo <= v <= hi) by (nonlinear_arith)
        requires
            count > 0,
            v * count <= hi * count,
            lo * count < (v + 1) * count,
    ;
}

// ---- what the colour search finds ---------------------------------------------------

/// A pixel is painted with the colour that is nearest to it, by the squares of all
/// three channel differences; of equally near ones the first.
pub proof fn pixels_take_the_nearest_colour(rgba: Seq<u8>, alpha_min: u8, colours: Seq<Rgb>, c: int, i: int, d: int)
    requires
        painted(rgba, alpha_min, colours, c, i),
        0 < colours.len(),
        0 <= d < colours.len(),
    ensures
        0 <= c < colours.len(),
        rgba[4 * i + 3] >= alpha_min,
        ({
            let near = (rgba[4 * i] - colours[c].r) * (rgba[4 * i] - colours[c].r) + (rgba[4 * i + 1] - colours[c].g) * (
            rgba[4 * i + 1] - colours[c].g) + (rgba[4 * i + 2] - colours[c].b) * (rgba[4 * i + 2] - colours[c].b);
            let other = (rgba[4 * i] - colours[d].r) * (rgba[4 * i] - colours[d].r) + (rgba[4 * i + 1] - colours[d].g) * (
            rgba[4 * i + 1] - colours[d].g) + (rgba[4 * i + 2] - colours[d].b) * (rgba[4 * i + 2] - colours[d].b);
            near < other || (near == other && c <= d)
        }),
{
    nearest_is_least(colour_at(rgba, i), colours, colours.len() as int);
    let s = colour_at(rgba, i);
    assert(distance(s, colours[c]) <= distance(s, colours[d]));
    if d < c {
        assert(distance(s, colours[c]) < distance(s, colours[d]));
    }
}

/// The channel's value, and nothing outside the class.
pub open spec fn channel_in_class(samples: Seq<Rgb>, centres: Seq<Rgb>, c: int, channel: int) -> spec_fn(int) -> int {
    |i: int|
        if nearest(samples[i], centres, centres.len() as int) != c {
            0int
        } else if channel == 0 {
            samples[i].r as int
        } else if channel == 1 {
            samples[i].g as int
        } else {
            samples[i].b as int
        }
}

proof fn class_sums_are_bounded(samples: Seq<Rgb>, centres: Seq<Rgb>, c: int, f: spec_fn(Rgb) -> u8, m: int)
    requires
        0 <= m,
    ensures
        0 <= class_sum(samples, centres, c, f, m) <= 255 * class_size(samples, centres, c, m),
    decreases m,
{
    if m > 0 {
        class_sums_are_bounded(samples, centres, c, f, m - 1);
    }
}

proof fn class_mean_is(samples: Seq<Rgb>, centres: Seq<Rgb>, c: int, f: spec_fn(Rgb) -> u8, channel: int)
    requires
        class_size(samples, centres, c, samples.len() as int) > 0,
        forall|s: Rgb| #[trigger]
            f(s) == (if channel == 0 {
                s.r
            } else if channel == 1 {
                s.g
            } else {
                s.b
            }),
    ensures
        ({
            let m = samples.len() as int;
            let n = class_size(samples, centres, c, m);
            let sum = counting::sum_below(channel_in_class(samples, centres, c, channel), m);
            let v = class_mean(samples, centres, c, f) as int;
            v * n <= sum < (v + 1) * n
        }),
{
    let m = samples.len() as int;
    let n = class_size(samples, centres, c, m);
    let sum = class_sum(samples, centres, c, f, m);
    class_sums_are_bounded(samples, centres, c, f, m);
    let g = |i: int|
        if belongs(samples, centres, c, i) {
            f(samples[i]) as int
        } else {
            0
        };
    counting::sum_ext(g, channel_in_class(samples, centres, c, channel), m);
    counting::quotient_sides(sum, n);
    assert(0 <= sum / n <= 255) by (nonlinear_arith)
        requires
            0 <= sum <= 255 * n,
            n > 0,
    ;
}

/// A step moves each centre to the mean of the samples that are nearest to it,
/// channel by channel and rounded down, and leaves a centre without samples.
pub proof fn centres_move_to_the_mean(samples: Seq<Rgb>, centres: Seq<Rgb>, c: int)
    requires
        0 <= c < centres.len(),
    ensures
        ({
            let m = samples.len() as int;
            let n = counting::count_below(|i: int| nearest(samples[i], centres, centres.len() as int) == c, m);
            let t = step(samples, centres)[c];
            if n == 0 {
                t == centres[c]
            } else {
                &&& t.r * n <= counting::sum_below(channel_in_class(samples, centres, c, 0), m) < (t.r + 1) * n
                &&& t.g * n <= counting::sum_below(channel_in_class(samples, centres, c, 1), m) < (t.g + 1) * n
                &&& t.b * n <= counting::sum_below(channel_in_class(samples, centres, c, 2), m) < (t.b + 1) * n
            }
        }),
{
    let m = samples.len() as int;
    let f = |i: int| nearest(samples[i], centres, centres.len() as int) == c;
    counting::count_ext(f, |i: int| belongs(samples, centres, c, i), m);
    counting::count_bounds(f, m);
    reveal(step);
    if class_size(samples, centres, c, m) > 0 {
        class_mean_is(samples, centres, c, |s: Rgb| s.r, 0);
        class_mean_is(samples, centres, c, |s: Rgb| s.g, 1);
        class_mean_is(samples, centres, c, |s: Rgb| s.b, 2);
    }
}

proof fn samples_are_opaque(rgba: Seq<u8>, alpha_min: u8, stride: int, n: int)
    requires
        0 <= n,
        stride > 0,
    ensures
        forall|k: int|
            0 <= k < sampled(rgba, alpha_min, stride, n).len() ==> exists|i: int|
                0 <= i < n && rgba[4 * i + 3] >= alpha_min && #[trigger] sampled(rgba, alpha_min, stride, n)[k]
                    == #[trigger] colour_at(rgba, i),
        ({
            let all = opaque_upto(rgba, alpha_min, n);
            let k = sampled(rgba, alpha_min, stride, n).len() as int;
            (k - 1) * stride < all <= k * stride
        }),
    decreases n,
{
    if n > 0 {
        samples_are_opaque(rgba, alpha_min, stride, n - 1);
        let before = sampled(rgba, alpha_min, stride, n - 1);
        let now = sampled(rgba, alpha_min, stride, n);
        let all = opaque_upto(rgba, alpha_min, n - 1);
        let k = before.len() as int;
        counting::count_bounds(|i: int| opaque_at(rgba, alpha_min, i), n - 1);
        if opaque_at(rgba, alpha_min, n - 1) {
            if all % stride == 0 {
                assert(all == k * stride) by (nonlinear_arith)
                    requires
                        all % stride == 0,
                        (k - 1) * stride < all <= k * stride,
                        stride > 0,
                ;
                assert((k + 1) * stride == k * stride + stride) by (nonlinear_arith);
            } else {
                assert(all < k * stride) by (nonlinear_arith)
                    requires
                        all % stride != 0,
                        all <= k * stride,
                        stride > 0,
                ;
            }
        }
        assert forall|t: int| 0 <= t < now.len() implies exists|i: int|
            0 <= i < n && rgba[4 * i + 3] >= alpha_min && #[trigger] now[t] == #[trigger] colour_at(rgba, i) by {
            if t < k {
                assert(now[t] == before[t]);
                let i = choose|i: int|
                    0 <= i < n - 1 && rgba[4 * i + 3] >= alpha_min && #[trigger] before[t] == #[trigger] colour_at(
                        rgba,
                        i,
                    );
                assert(now[t] == colour_at(rgba, i));
            } else {
                assert(now[t] == colour_at(rgba, n - 1));
            }
        }
    } else {
        assert((0 - 1) * stride < 0 && 0 * stride == 0) by (nonlinear_arith)
            requires
                stride > 0,
        ;
    }
}

/// The search looks at colours of opaque pixels, one for every so many of them: all
/// of them where they are fewer than twice the limit, and never as many as twice
/// the limit and one.
pub proof fn samples_thin_out_opaque_pixels(rgba: Seq<u8>, p: QuantizeParams)
    requires
        p.sample_cap > 0,
    ensures
        ({
            let s = samples_of(rgba, p);
            let n = rgba.len() as int / 4;
            let all = counting::count_below(|i: int| rgba[4 * i + 3] >= p.alpha_min, n);
            &&& forall|k: int|
                0 <= k < s.len() ==> exists|i: int|
                    0 <= i < n && rgba[4 * i + 3] >= p.alpha_min && #[trigger] s[k] == #[trigger] colour_at(rgba, i)
            &&& all < 2 * p.sample_cap ==> s.len() == all
            &&& s.len() <= 2 * p.sample_cap
        }),
{
    let n = rgba.len() as int / 4;
    let all = opaque_upto(rgba, p.alpha_min, n);
    counting::count_ext(
        |i: int| rgba[4 * i + 3] >= p.alpha_min,
        |i: int| opaque_at(rgba, p.alpha_min, i),
        n,
    );
    counting::count_bounds(|i: int| opaque_at(rgba, p.alpha_min, i), n);
    let cap = p.sample_cap as int;
    let stride = stride_of(all, cap);
    counting::quotient_sides(all, cap);
    let q = all / cap;
    assert(q >= 0) by (nonlinear_arith)
        requires
            q == all / cap,
            all >= 0,
            cap > 0,
    ;
    samples_are_opaque(rgba, p.alpha_min, stride, n);
    let k = samples_of(rgba, p).len() as int;
    if all < 2 * cap {
        assert(q < 2) by (nonlinear_arith)
            requires
                q * cap <= all,
                all < 2 * cap,
                cap > 0,
        ;
        assert(stride == 1);
        assert(k * stride == k && (k - 1) * stride == k - 1) by (nonlinear_arith)
            requires
                stride == 1,
        ;
    } else {
        assert(q >= 2) by (nonlinear_arith)
            requires
                all < (q + 1) * cap,
                all >= 2 * cap,
                cap > 0,
        ;
        assert((q + 1) * cap <= 2 * cap * q) by (nonlinear_arith)
            requires
                q >= 2,
                cap > 0,
        ;
        assert(k - 1 < 2 * cap) by (nonlinear_arith)
            requires
                (k - 1) * q < 2 * cap * q,
                q >= 2,
        ;
    }
}

/// Layers are painted largest first; equally large ones by their colours. Each has
/// at least the least ink, and at least one pixel of it.
pub proof fn large_layers_are_painted_first(rgba: Seq<u8>, w: u32, h: u32, p: QuantizeParams, out: Seq<Layer>, i: int, j: int)
    requires
        is_quantized(rgba, w, h, p, out),
        0 <= i < j < out.len(),
    ensures
        out[i].area >= out[j].area,
        out[j].area >= p.layer_min_px,
        out[j].area >= 1,
        out[i].area == out[j].area ==> {
            let a = out[i].rgba@;
            let b = out[j].rgba@;
            ||| a[0] < b[0]
            ||| a[0] == b[0] && a[1] < b[1]
            ||| a[0] == b[0] && a[1] == b[1] && a[2] < b[2]
            ||| a[0] == b[0] && a[1] == b[1] && a[2] == b[2] && a[3] <= b[3]
        },
{
    let colours = colours_of(rgba, p);
    let tags = choose|tags: Seq<int>| #[trigger]
        are_layers(rgba, w, h, p, colours, colours.len() as int, tags, out);
    assert(paints_before(out[i], tags[i], out[j], tags[j]));
    assert(out[j].area >= least_area(p));
}

proof fn seeds_are_samples(samples: Seq<Rgb>, n: int)
    requires
        0 < samples.len(),
        n >= 1,
    ensures
        seeds(samples, n).len() == n,
        forall|i: int| 0 <= i < n ==> samples.contains(#[trigger] seeds(samples, n)[i]),
    decreases n,
{
    let m = samples.len() as int;
    let state = lcg_state(n as nat) as int;
    assert(0 <= state * m / 0x1_0000_0000_0000_0000 < m) by (nonlinear_arith)
        requires
            0 <= state < 0x1_0000_0000_0000_0000,
            m > 0,
    ;
    if n > 1 {
        seeds_are_samples(samples, n - 1);
        let c = seeds(samples, n - 1);
        let total = spread(samples, c, m);
        reached_in_range(samples, c, scaled_below(state, total), 0);
        let now = seeds(samples, n);
        assert forall|i: int| 0 <= i < n implies samples.contains(#[trigger] now[i]) by {
            if i < n - 1 {
                assert(now[i] == c[i]);
            }
        }
    }
}

proof fn reached_in_range(samples: Seq<Rgb>, centres: Seq<Rgb>, target: int, i: int)
    requires
        0 <= i,
        0 < samples.len(),
    ensures
        0 <= reached(samples, centres, target, i) < samples.len(),
    decreases samples.len() - i,
{
    if i < samples.len() - 1 && spread(samples, centres, i + 1) <= target {
        reached_in_range(samples, centres, target, i + 1);
    }
}

/// The search starts from colours that occur.
pub proof fn searches_start_from_samples(samples: Seq<Rgb>, n: int, i: int)
    requires
        0 < samples.len(),
        0 <= i < n,
    ensures
        seeds(samples, n).len() == n,
        samples.contains(seeds(samples, n)[i]),
{
    seeds_are_samples(samples, n);
}

/// The number of colours is where the curve of what is left over bends most: two
/// more than the first place with the greatest bend. With no bend it is two, and a
/// curve of less than three places counts them all.
pub proof fn colours_stop_at_the_greatest_bend(v: Seq<u64>, r: int, j: int)
    requires
        r == elbow(v),
        v.len() >= 3,
        0 <= j < v.len() - 2,
    ensures
        2 <= r < v.len(),
        ({
            let here = v[r - 2] - 2 * v[r - 1] + v[r];
            let there = v[j] - 2 * v[j + 1] + v[j + 2];
            &&& here > 0 ==> there <= here
            &&& here > 0 && j < r - 2 ==> there < here
            &&& here <= 0 ==> r == 2 && there <= 0
        }),
{
    elbow_is_sharpest(v, v.len() - 2);
    assert(bend(v, j) == v[j] - 2 * v[j + 1] + v[j + 2]);
    assert(bend(v, r - 2) == v[r - 2] - 2 * v[r - 1] + v[r]);
}

} // verus!
