//! Outliers: icons that disagree with the norm of their sheet.
//!
//! Measured numbers are compared by modified z-score, about the median and in
//! units of the median absolute deviation; palette and style are compared with
//! the sheet's mode. Lengths and shares are in thousandths, medians are carried
//! doubled, and every z-score is an exact fraction.
use std::collections::HashMap;
use vstd::prelude::*;
use crate::counting;
use crate::median as med;
use crate::ratio::Ratio;
use crate::sorting;
use crate::sorting::SortKey;
use crate::split::Milli;
use crate::text;

verus! {

/// The z-score above which a value is an outlier, in thousandths.
pub const OUTLIER_Z: Milli = 3500;

/// Turns a median absolute deviation into a standard deviation, in
/// ten-thousandths.
pub const MAD_SCALE: u32 = 6745;

/// The same for a mean absolute deviation.
pub const MEAN_AD_SCALE: u32 = 7979;

/// Ink share of the box, in thousandths, from which an icon reads as filled.
pub const FILLED_RATIO: Milli = 500;

/// How an icon deviates from its sheet.
#[derive(Clone, Copy, Debug, PartialEq, Eq, PartialOrd, Ord, Hash, Structural)]
pub enum OutlierKind {
    /// Root of the ink area.
    InkSize,
    /// Stroke weight.
    Stroke,
    /// Traced node count.
    NodeCount,
    /// Distinct colours.
    Colours,
    /// Ink area over hull area.
    Solidity,
    /// Another colour set than the sheet's.
    Palette,
    /// Filled among outlines, or the reverse.
    Style,
}

/// The stable name of a kind.
pub open spec fn kind_name(k: OutlierKind) -> Seq<char> {
    match k {
        OutlierKind::InkSize => "ink-size"@,
        OutlierKind::Stroke => "stroke"@,
        OutlierKind::NodeCount => "node-count"@,
        OutlierKind::Colours => "colours"@,
        OutlierKind::Solidity => "solidity"@,
        OutlierKind::Palette => "palette"@,
        OutlierKind::Style => "style"@,
    }
}

/// The kind with a name.
pub open spec fn kind_named(name: Seq<char>) -> Option<OutlierKind> {
    if name == "ink-size"@ {
        Some(OutlierKind::InkSize)
    } else if name == "stroke"@ {
        Some(OutlierKind::Stroke)
    } else if name == "node-count"@ {
        Some(OutlierKind::NodeCount)
    } else if name == "colours"@ {
        Some(OutlierKind::Colours)
    } else if name == "solidity"@ {
        Some(OutlierKind::Solidity)
    } else if name == "palette"@ {
        Some(OutlierKind::Palette)
    } else if name == "style"@ {
        Some(OutlierKind::Style)
    } else {
        None
    }
}

/// The place of a kind in the reporting order.
pub open spec fn kind_rank(k: OutlierKind) -> int {
    match k {
        OutlierKind::InkSize => 0,
        OutlierKind::Stroke => 1,
        OutlierKind::NodeCount => 2,
        OutlierKind::Colours => 3,
        OutlierKind::Solidity => 4,
        OutlierKind::Palette => 5,
        OutlierKind::Style => 6,
    }
}

impl OutlierKind {
    /// The stable name.
    pub fn as_str(self) -> (r: &'static str)
        ensures
            r@ == kind_name(self),
    {
        match self {
            OutlierKind::InkSize => "ink-size",
            OutlierKind::Stroke => "stroke",
            OutlierKind::NodeCount => "node-count",
            OutlierKind::Colours => "colours",
            OutlierKind::Solidity => "solidity",
            OutlierKind::Palette => "palette",
            OutlierKind::Style => "style",
        }
    }

    /// The kind with a name.
    pub fn parse(name: &str) -> (r: Option<OutlierKind>)
        ensures
            r == kind_named(name@),
    {
        let s = text::chars_of(name);
        if text::same(&s, &text::chars_of("ink-size")) {
            Some(OutlierKind::InkSize)
        } else if text::same(&s, &text::chars_of("stroke")) {
            Some(OutlierKind::Stroke)
        } else if text::same(&s, &text::chars_of("node-count")) {
            Some(OutlierKind::NodeCount)
        } else if text::same(&s, &text::chars_of("colours")) {
            Some(OutlierKind::Colours)
        } else if text::same(&s, &text::chars_of("solidity")) {
            Some(OutlierKind::Solidity)
        } else if text::same(&s, &text::chars_of("palette")) {
            Some(OutlierKind::Palette)
        } else if text::same(&s, &text::chars_of("style")) {
            Some(OutlierKind::Style)
        } else {
            None
        }
    }

    /// The place in the reporting order.
    pub fn rank(self) -> (r: u64)
        ensures
            r == kind_rank(self),
    {
        match self {
            OutlierKind::InkSize => 0,
            OutlierKind::Stroke => 1,
            OutlierKind::NodeCount => 2,
            OutlierKind::Colours => 3,
            OutlierKind::Solidity => 4,
            OutlierKind::Palette => 5,
            OutlierKind::Style => 6,
        }
    }
}

/// Names read back as the kind they name.
pub proof fn names_round_trip(k: OutlierKind)
    ensures
        kind_named(kind_name(k)) == Some(k),
{
    reveal_strlit("ink-size");
    reveal_strlit("stroke");
    reveal_strlit("node-count");
    reveal_strlit("colours");
    reveal_strlit("solidity");
    reveal_strlit("palette");
    reveal_strlit("style");
    assert("ink-size"@.len() == 8 && "stroke"@.len() == 6 && "node-count"@.len() == 10 && "colours"@.len()
        == 7 && "solidity"@.len() == 8 && "palette"@.len() == 7 && "style"@.len() == 5);
    assert("ink-size"@[0] == 'i' && "solidity"@[0] == 's' && "colours"@[0] == 'c' && "palette"@[0]
        == 'p');
}

/// Filled or outline.
#[derive(Clone, Copy, Debug, PartialEq, Eq, PartialOrd, Ord, Hash, Structural)]
pub enum StyleClass {
    /// The ink fills at least half of the box.
    Filled,
    /// It does not.
    Outline,
}

/// The class of an ink share.
pub open spec fn class_of(fill: Milli) -> StyleClass {
    if fill >= FILLED_RATIO {
        StyleClass::Filled
    } else {
        StyleClass::Outline
    }
}

impl StyleClass {
    /// The stable name.
    pub fn as_str(self) -> (r: &'static str)
        ensures
            r@ == (match self {
                StyleClass::Filled => "filled"@,
                StyleClass::Outline => "outline"@,
            }),
    {
        match self {
            StyleClass::Filled => "filled",
            StyleClass::Outline => "outline",
        }
    }

    /// The class of an ink share, in thousandths.
    pub fn of(fill_ratio: Milli) -> (r: StyleClass)
        ensures
            r == class_of(fill_ratio),
    {
        if fill_ratio >= FILLED_RATIO {
            StyleClass::Filled
        } else {
            StyleClass::Outline
        }
    }
}

/// What the detector reads of one icon; lengths and shares in thousandths.
#[derive(Clone, Copy, Debug, PartialEq, Eq, Structural)]
pub struct IconStat {
    /// The icon's id.
    pub id: u32,
    /// Root of the ink area, in thousandths of a pixel.
    pub ink_size: u32,
    /// Stroke weight, in thousandths of a pixel.
    pub stroke: u32,
    /// Traced node count.
    pub node_count: u32,
    /// Distinct colours.
    pub colours: u32,
    /// Solidity, in thousandths.
    pub solidity: Milli,
    /// Ink area over box area, in thousandths.
    pub fill_ratio: Milli,
    /// Hash of the colour set.
    pub palette: u64,
}

/// A signed fraction.
#[derive(Clone, Copy, Debug, PartialEq, Eq, Structural)]
pub struct ZScore {
    /// Numerator.
    pub num: i128,
    /// Denominator, never zero.
    pub den: u128,
}

/// One deviation, with the numbers that produced it.
#[derive(Clone, Copy, Debug, PartialEq, Eq, Structural)]
pub struct OutlierFlag {
    /// Which icon.
    pub id: u32,
    /// Which metric.
    pub kind: OutlierKind,
    /// The modified z-score; zero for a mismatch of palette or style.
    pub z: ZScore,
    /// The icon's value.
    pub value: u64,
    /// Twice the sheet's median, or the sheet's palette, or zero for style.
    pub median2: u64,
}

/// The spread of one metric.
#[derive(Clone, Copy, Debug, PartialEq, Eq, Structural)]
pub struct Spread {
    /// Twice the median.
    pub median2: u64,
    /// Four times the median absolute deviation.
    pub mad4: u64,
    /// Twice the sum of absolute deviations.
    pub sum2: u128,
    /// How many values there are.
    pub count: u64,
}

// ---- spread -------------------------------------------------------------------------

/// Twice the distance of a value from half of `about2`.
pub open spec fn twice_off(v: u64, about2: int) -> int {
    if 2 * v < about2 {
        about2 - 2 * v
    } else {
        2 * v - about2
    }
}

/// Twice the distances of all values.
pub open spec fn deviations(values: Seq<u64>, about2: int) -> Seq<u64> {
    Seq::new(values.len(), |i: int| twice_off(values[i], about2) as u64)
}

/// Twice the sum of the distances.
pub open spec fn deviation_sum(values: Seq<u64>, about2: int) -> int {
    counting::sum_below(|i: int| twice_off(values[i], about2), values.len() as int)
}

/// `s` is the spread of `values`.
pub open spec fn is_spread(values: Seq<u64>, s: Spread) -> bool {
    &&& med::is_median2(values, s.median2 as int)
    &&& med::is_median2(deviations(values, s.median2 as int), s.mad4 as int)
    &&& s.sum2 == deviation_sum(values, s.median2 as int)
    &&& s.count == values.len()
}

/// Values have one spread.
pub proof fn spread_is_unique(values: Seq<u64>, s: Spread, t: Spread)
    requires
        values.len() <= usize::MAX,
        is_spread(values, s),
        is_spread(values, t),
    ensures
        s == t,
{
    med::median_is_unique(values, s.median2 as int, t.median2 as int);
    med::median_is_unique(deviations(values, s.median2 as int), s.mad4 as int, t.mad4 as int);
}

/// No value exceeds `u32::MAX`.
pub open spec fn small_values(values: Seq<u64>) -> bool {
    forall|i: int| 0 <= i < values.len() ==> #[trigger] values[i] <= u32::MAX
}

/// Twice the median; zero for an empty list.
pub fn median(values: &Vec<u64>) -> (r: u64)
    requires
        small_values(values@),
    ensures
        med::is_median2(values@, r as int),
        r <= 2 * u32::MAX,
{
    let r: u64 = med::median2(values);
    assert(med::all_at_most(values@, u32::MAX as u64));
    r
}

/// Twice the distances of all values from half of `about2`.
fn distances(values: &Vec<u64>, about2: u64) -> (r: Vec<u64>)
    requires
        small_values(values@),
        about2 <= 2 * u32::MAX,
    ensures
        r@ == deviations(values@, about2 as int),
        med::all_at_most(r@, 0x2_0000_0000),
{
    let mut out: Vec<u64> = Vec::new();
    let mut i: usize = 0;
    while i < values.len()
        invariant
            i <= values@.len(),
            small_values(values@),
            about2 <= 2 * u32::MAX,
            out@.len() == i,
            forall|k: int| 0 <= k < i ==> #[trigger] out@[k] == twice_off(values@[k], about2 as int),
            forall|k: int| 0 <= k < i ==> #[trigger] out@[k] <= 0x2_0000_0000,
        decreases values@.len() - i,
    {
        assert(values@[i as int] <= u32::MAX);
        let v: u64 = 2 * values[i];
        out.push(
            if v < about2 {
                about2 - v
            } else {
                v - about2
            },
        );
        i = i + 1;
    }
    assert(out@ =~= deviations(values@, about2 as int));
    out
}

/// Four times the median absolute deviation about half of `about2`.
pub fn mad(values: &Vec<u64>, about2: u64) -> (r: u64)
    requires
        small_values(values@),
        about2 <= 2 * u32::MAX,
    ensures
        med::is_median2(deviations(values@, about2 as int), r as int),
        r <= 0x4_0000_0000,
{
    let d = distances(values, about2);
    let r: u64 = med::median2(&d);
    assert(med::all_at_most(d@, 0x2_0000_0000u64));
    r
}

/// Twice the sum of the distances.
fn off_sum(values: &Vec<u64>, about2: u64) -> (r: u128)
    requires
        small_values(values@),
        about2 <= 2 * u32::MAX,
    ensures
        r == deviation_sum(values@, about2 as int),
        r <= 0x2_0000_0000 * values@.len(),
{
    let d = distances(values, about2);
    let ghost f = |i: int| twice_off(values@[i], about2 as int);
    let n: usize = d.len();
    let mut sum: u128 = 0;
    let mut i: usize = 0;
    while i < n
        invariant
            i <= n,
            n == d@.len(),
            d@ == deviations(values@, about2 as int),
            med::all_at_most(d@, 0x2_0000_0000),
            small_values(values@),
            about2 <= 2 * u32::MAX,
            f == (|i: int| twice_off(values@[i], about2 as int)),
            sum == counting::sum_below(f, i as int),
            sum <= 0x2_0000_0000 * i,
        decreases n - i,
    {
        proof {
            assert(values@[i as int] <= u32::MAX);
            assert(d@[i as int] == twice_off(values@[i as int], about2 as int) as u64);
            assert(f(i as int) == d@[i as int]);
        }
        sum = sum + d[i] as u128;
        i = i + 1;
    }
    sum
}

/// The mean absolute deviation about half of `about2`; zero for no values.
pub fn mean_ad(values: &Vec<u64>, about2: u64) -> (r: Ratio)
    requires
        small_values(values@),
        about2 <= 2 * u32::MAX,
    ensures
        r == (if values@.len() == 0 {
            Ratio { num: 0, den: 1 }
        } else {
            Ratio { num: deviation_sum(values@, about2 as int) as u128, den: (2 * values@.len()) as u128 }
        }),
{
    let n: usize = values.len();
    if n == 0 {
        return Ratio { num: 0, den: 1 };
    }
    let num: u128 = off_sum(values, about2);
    Ratio { num, den: 2 * n as u128 }
}

/// The spread of a metric.
pub fn spread(values: &Vec<u64>) -> (r: Spread)
    requires
        small_values(values@),
        values@.len() <= u32::MAX,
    ensures
        is_spread(values@, r),
        r.median2 <= 2 * u32::MAX,
        r.mad4 <= 0x4_0000_0000,
        r.sum2 <= 0x2_0000_0000 * values@.len(),
{
    let median2: u64 = median(values);
    let mad4: u64 = mad(values, median2);
    let sum2: u128 = off_sum(values, median2);
    Spread { median2, mad4, sum2, count: values.len() as u64 }
}

/// The modified z-score of a value: `0.6745 · (value - median) / MAD`, or
/// `0.7979 · (value - median)` over the mean absolute deviation where the MAD is
/// zero, or zero where there is no spread at all.
pub open spec fn z_of(value: u64, s: Spread) -> ZScore {
    let off = 2 * value - s.median2;
    if s.mad4 > 0 {
        ZScore { num: (13490 * off) as i128, den: (10000 * s.mad4) as u128 }
    } else if s.sum2 > 0 {
        ZScore { num: (7979 * (s.count * off)) as i128, den: (10000 * s.sum2) as u128 }
    } else {
        ZScore { num: 0, den: 1 }
    }
}

/// The spread came from no more than `u32::MAX` small values.
pub open spec fn spread_fits(s: Spread) -> bool {
    s.median2 <= 2 * u32::MAX && s.mad4 <= 0x4_0000_0000 && s.count <= u32::MAX && s.sum2
        <= 0x2_0000_0000 * 0xffff_ffff
}

/// The modified z-score of a value against a metric's spread.
pub fn modified_z(value: u64, spread: &Spread) -> (r: ZScore)
    requires
        value <= u32::MAX,
        spread_fits(*spread),
    ensures
        r == z_of(value, *spread),
        r.den > 0,
        -0x1_0000_0000_0000_0000_0000 <= r.num <= 0x1_0000_0000_0000_0000_0000,
        r.den <= 0x1_0000_0000_0000_0000_0000,
{
    let off: i128 = 2 * value as i128 - spread.median2 as i128;
    if spread.mad4 > 0 {
        ZScore { num: 13490 * off, den: 10000 * spread.mad4 as u128 }
    } else if spread.sum2 > 0 {
        proof {
            let c = spread.count as int;
            let o = off as int;
            assert(-0x1_ffff_ffff * 0xffff_ffff <= c * o <= 0x1_ffff_ffff * 0xffff_ffff) by (nonlinear_arith)
                requires
                    0 <= c <= 0xffff_ffff,
                    -0x1_ffff_ffff <= o <= 0x1_ffff_ffff,
            ;
        }
        ZScore { num: 7979 * (spread.count as i128 * off), den: 10000 * spread.sum2 }
    } else {
        ZScore { num: 0, den: 1 }
    }
}

/// The score is further from zero than `limit` thousandths.
pub open spec fn exceeds(z: ZScore, limit: int) -> bool {
    let size = if z.num < 0 {
        -z.num
    } else {
        z.num as int
    };
    1000 * size > limit * z.den
}

/// Whether the score is further from zero than `limit` thousandths.
fn is_far(z: &ZScore, limit: Milli) -> (r: bool)
    requires
        z.den > 0,
        -0x1_0000_0000_0000_0000_0000 <= z.num <= 0x1_0000_0000_0000_0000_0000,
        z.den <= 0x1_0000_0000_0000_0000_0000,
    ensures
        r == exceeds(*z, limit as int),
{
    let size: u128 = if z.num < 0 {
        (-z.num) as u128
    } else {
        z.num as u128
    };
    proof {
        let l = limit as int;
        let d = z.den as int;
        assert(0 <= l * d <= 0x1_0000_0000_0000_0000_0000_0000_0000) by (nonlinear_arith)
            requires
                0 <= l <= 0xffff_ffff,
                0 <= d <= 0x1_0000_0000_0000_0000_0000,
        ;
    }
    1000 * size > limit as u128 * z.den
}

/// A uniform metric has no outliers: without spread every score is zero.
pub proof fn no_spread_no_outlier(value: u64, s: Spread, limit: int)
    requires
        s.mad4 == 0,
        s.sum2 == 0,
        limit >= 0,
    ensures
        !exceeds(z_of(value, s), limit),
{
}

// ---- modes --------------------------------------------------------------------------

/// The entries equal to `v`.
pub open spec fn equals(keys: Seq<u64>, v: u64) -> spec_fn(int) -> bool {
    |i: int| keys[i] == v
}

/// How often `v` occurs.
pub open spec fn occurrences(keys: Seq<u64>, v: u64, n: int) -> int {
    counting::count_below(equals(keys, v), n)
}

/// `v` occurs more often than `u`, or as often and is no greater.
pub open spec fn leads(keys: Seq<u64>, v: u64, u: u64) -> bool {
    let n = keys.len() as int;
    occurrences(keys, u, n) < occurrences(keys, v, n) || (occurrences(keys, u, n) == occurrences(
        keys,
        v,
        n,
    ) && v <= u)
}

/// `m` is the most common key where it covers at least half of the list; ties
/// go to the smaller key.
pub open spec fn is_mode(keys: Seq<u64>, m: Option<u64>) -> bool {
    let n = keys.len() as int;
    match m {
        Some(v) => keys.contains(v) && 2 * occurrences(keys, v, n) >= n && forall|i: int|
            0 <= i < n ==> leads(keys, v, #[trigger] keys[i]),
        None => forall|i: int| 0 <= i < n ==> 2 * occurrences(keys, #[trigger] keys[i], n) < n,
    }
}

/// A list has one mode.
pub proof fn mode_is_unique(keys: Seq<u64>, a: Option<u64>, b: Option<u64>)
    requires
        is_mode(keys, a),
        is_mode(keys, b),
    ensures
        a == b,
{
    if a is Some {
        let i = choose|i: int| 0 <= i < keys.len() && keys[i] == a->0;
        assert(keys[i] == a->0);
        if b is Some {
            let j = choose|j: int| 0 <= j < keys.len() && keys[j] == b->0;
            assert(keys[j] == b->0);
            assert(leads(keys, a->0, keys[j]) && leads(keys, b->0, keys[i]));
        }
    } else if b is Some {
        let j = choose|j: int| 0 <= j < keys.len() && keys[j] == b->0;
        assert(keys[j] == b->0);
    }
}

/// The most common key where it covers at least half of the list.
fn mode(keys: &Vec<u64>) -> (r: Option<u64>)
    ensures
        is_mode(keys@, r),
{
    broadcast use vstd::std_specs::hash::group_hash_axioms;

    let n: usize = keys.len();
    if n == 0 {
        return None;
    }
    let ghost ks = keys@;
    let mut counts: HashMap<u64, u64> = HashMap::new();
    let mut i: usize = 0;
    while i < n
        invariant
            i <= n,
            n == ks.len(),
            ks == keys@,
            forall|v: u64| #[trigger]
                counts@.contains_key(v) ==> counts@[v] == occurrences(ks, v, i as int) && counts@[v] <= i,
            forall|v: u64| !#[trigger] counts@.contains_key(v) ==> occurrences(ks, v, i as int) == 0,
            forall|k: int| 0 <= k < i ==> counts@.contains_key(#[trigger] ks[k]),
        decreases n - i,
    {
        let key: u64 = keys[i];
        let before: u64 = match counts.get(&key) {
            Some(c) => *c,
            None => 0,
        };
        let ghost m0 = counts@;
        counts.insert(key, before + 1);
        proof {
            assert forall|v: u64| #[trigger] counts@.contains_key(v) implies counts@[v] == occurrences(
                ks,
                v,
                i + 1,
            ) && counts@[v] <= i + 1 by {
                assert(equals(ks, v)(i as int) == (ks[i as int] == v));
                if v != key {
                    assert(m0.contains_key(v));
                } else if !m0.contains_key(v) {
                    assert(occurrences(ks, v, i as int) == 0);
                }
            }
            assert forall|v: u64| !#[trigger] counts@.contains_key(v) implies occurrences(ks, v, i + 1)
                == 0 by {
                assert(!m0.contains_key(v));
                assert(equals(ks, v)(i as int) == (ks[i as int] == v));
            }
            assert forall|k: int| 0 <= k < i + 1 implies counts@.contains_key(#[trigger] ks[k]) by {
                if k < i {
                    assert(m0.contains_key(ks[k]));
                }
            }
        }
        i = i + 1;
    }
    let mut best: u64 = keys[0];
    assert(counts@.contains_key(ks[0]));
    let mut most: u64 = match counts.get(&best) {
        Some(c) => *c,
        None => 0,
    };
    let mut j: usize = 1;
    while j < n
        invariant
            1 <= j <= n,
            n == ks.len(),
            ks == keys@,
            forall|v: u64| #[trigger]
                counts@.contains_key(v) ==> counts@[v] == occurrences(ks, v, n as int),
            forall|k: int| 0 <= k < n ==> counts@.contains_key(#[trigger] ks[k]),
            ks.contains(best),
            most == occurrences(ks, best, n as int),
            forall|k: int| 0 <= k < j ==> leads(ks, best, #[trigger] ks[k]),
        decreases n - j,
    {
        let key: u64 = keys[j];
        assert(counts@.contains_key(ks[j as int]));
        let c: u64 = match counts.get(&key) {
            Some(c) => *c,
            None => 0,
        };
        if c > most || (c == most && key < best) {
            best = key;
            most = c;
        }
        j = j + 1;
    }
    proof {
        counting::count_bounds(equals(ks, best), n as int);
    }
    if most as u128 * 2 >= n as u128 {
        Some(best)
    } else {
        None
    }
}

/// The palettes of all icons.
pub open spec fn palettes(stats: Seq<IconStat>) -> Seq<u64> {
    Seq::new(stats.len(), |i: int| stats[i].palette)
}

/// The styles of all icons: zero for filled, one for outline.
pub open spec fn styles(stats: Seq<IconStat>) -> Seq<u64> {
    Seq::new(
        stats.len(),
        |i: int|
            if class_of(stats[i].fill_ratio) == StyleClass::Filled {
                0u64
            } else {
                1u64
            },
    )
}

/// `m` is the most common style where it covers at least half of the sheet.
pub open spec fn is_style_mode(stats: Seq<IconStat>, m: Option<StyleClass>) -> bool {
    is_mode(
        styles(stats),
        match m {
            Some(StyleClass::Filled) => Some(0u64),
            Some(StyleClass::Outline) => Some(1u64),
            None => None,
        },
    )
}

/// The sheet's most common palette, where it covers at least half of it.
pub fn modal_palette(stats: &[IconStat]) -> (r: Option<u64>)
    ensures
        is_mode(palettes(stats@), r),
{
    let mut keys: Vec<u64> = Vec::new();
    let mut i: usize = 0;
    while i < stats.len()
        invariant
            i <= stats@.len(),
            keys@.len() == i,
            forall|k: int| 0 <= k < i ==> #[trigger] keys@[k] == stats@[k].palette,
        decreases stats@.len() - i,
    {
        keys.push(stats[i].palette);
        i = i + 1;
    }
    assert(keys@ =~= palettes(stats@));
    mode(&keys)
}

/// The sheet's most common style, where it covers at least half of it.
pub fn modal_style(stats: &[IconStat]) -> (r: Option<StyleClass>)
    ensures
        is_style_mode(stats@, r),
{
    let mut keys: Vec<u64> = Vec::new();
    let mut i: usize = 0;
    while i < stats.len()
        invariant
            i <= stats@.len(),
            keys@.len() == i,
            forall|k: int| 0 <= k < i ==> #[trigger] keys@[k] == styles(stats@)[k],
        decreases stats@.len() - i,
    {
        keys.push(
            match StyleClass::of(stats[i].fill_ratio) {
                StyleClass::Filled => 0,
                StyleClass::Outline => 1,
            },
        );
        i = i + 1;
    }
    assert(keys@ =~= styles(stats@));
    match mode(&keys) {
        Some(v) => {
            proof {
                let k = choose|k: int| 0 <= k < keys@.len() && keys@[k] == v;
                assert(keys@[k] == v && (v == 0 || v == 1));
            }
            if v == 0 {
                Some(StyleClass::Filled)
            } else {
                Some(StyleClass::Outline)
            }
        },
        None => None,
    }
}

// ---- scan ---------------------------------------------------------------------------

/// The kind of the `m`-th metric.
pub open spec fn metric_kind(m: int) -> OutlierKind {
    if m == 0 {
        OutlierKind::InkSize
    } else if m == 1 {
        OutlierKind::Stroke
    } else if m == 2 {
        OutlierKind::NodeCount
    } else if m == 3 {
        OutlierKind::Colours
    } else {
        OutlierKind::Solidity
    }
}

/// The `m`-th metric of an icon.
pub open spec fn metric_of(s: IconStat, m: int) -> u64 {
    if m == 0 {
        s.ink_size as u64
    } else if m == 1 {
        s.stroke as u64
    } else if m == 2 {
        s.node_count as u64
    } else if m == 3 {
        s.colours as u64
    } else {
        s.solidity as u64
    }
}

/// The `m`-th metric of all icons.
pub open spec fn metric_values(stats: Seq<IconStat>, m: int) -> Seq<u64> {
    Seq::new(stats.len(), |i: int| metric_of(stats[i], m))
}

/// The deviations of the first `n` icons in one metric.
pub open spec fn metric_flags(stats: Seq<IconStat>, m: int, s: Spread, limit: int, n: int) -> Seq<
    OutlierFlag,
>
    decreases n,
{
    if n <= 0 {
        Seq::empty()
    } else {
        let before = metric_flags(stats, m, s, limit, n - 1);
        let v = metric_of(stats[n - 1], m);
        if exceeds(z_of(v, s), limit) {
            before.push(
                OutlierFlag {
                    id: stats[n - 1].id,
                    kind: metric_kind(m),
                    z: z_of(v, s),
                    value: v,
                    median2: s.median2,
                },
            )
        } else {
            before
        }
    }
}

/// The deviations in the first `m` metrics.
pub open spec fn number_flags(stats: Seq<IconStat>, sp: Seq<Spread>, limit: int, m: int) -> Seq<
    OutlierFlag,
>
    decreases m,
{
    if m <= 0 {
        Seq::empty()
    } else {
        number_flags(stats, sp, limit, m - 1) + metric_flags(
            stats,
            m - 1,
            sp[m - 1],
            limit,
            stats.len() as int,
        )
    }
}

/// No z-score.
pub open spec fn no_score() -> ZScore {
    ZScore { num: 0, den: 1 }
}

/// The mismatches of one icon.
pub open spec fn mismatches(s: IconStat, palette: Option<u64>, style: Option<StyleClass>) -> Seq<
    OutlierFlag,
> {
    let a = if palette is Some && s.palette != palette->0 {
        seq![
            OutlierFlag {
                id: s.id,
                kind: OutlierKind::Palette,
                z: no_score(),
                value: s.palette,
                median2: palette->0,
            },
        ]
    } else {
        Seq::empty()
    };
    let b = if style is Some && class_of(s.fill_ratio) != style->0 {
        seq![
            OutlierFlag {
                id: s.id,
                kind: OutlierKind::Style,
                z: no_score(),
                value: s.fill_ratio as u64,
                median2: 0,
            },
        ]
    } else {
        Seq::empty()
    };
    a + b
}

/// The mismatches of the first `n` icons.
pub open spec fn mismatch_flags(
    stats: Seq<IconStat>,
    palette: Option<u64>,
    style: Option<StyleClass>,
    n: int,
) -> Seq<OutlierFlag>
    decreases n,
{
    if n <= 0 {
        Seq::empty()
    } else {
        mismatch_flags(stats, palette, style, n - 1) + mismatches(stats[n - 1], palette, style)
    }
}

/// The sort keys of flags: icon, then kind.
pub open spec fn flag_keys(fs: Seq<OutlierFlag>) -> Seq<SortKey> {
    Seq::new(fs.len(), |i: int| (fs[i].id as u64, kind_rank(fs[i].kind) as u64, 0u64, 0u64))
}

/// The flags in the order `o`.
pub open spec fn in_order(fs: Seq<OutlierFlag>, o: Seq<usize>) -> Seq<OutlierFlag> {
    Seq::new(o.len(), |i: int| fs[o[i] as int])
}

/// `r` is `fs` sorted by icon, then by kind.
pub open spec fn is_sorted_flags(fs: Seq<OutlierFlag>, r: Seq<OutlierFlag>) -> bool {
    exists|o: Seq<usize>| #[trigger]
        sorting::is_order(flag_keys(fs), o, 0, fs.len() as int) && r == in_order(fs, o)
}

/// The five spreads of a sheet.
pub open spec fn are_spreads(stats: Seq<IconStat>, sp: Seq<Spread>) -> bool {
    sp.len() == 5 && forall|m: int| 0 <= m < 5 ==> is_spread(metric_values(stats, m), #[trigger] sp[m])
}

/// `r` are the outliers for these spreads and modes.
pub open spec fn is_scan_with(
    stats: Seq<IconStat>,
    limit: int,
    sp: Seq<Spread>,
    palette: Option<u64>,
    style: Option<StyleClass>,
    r: Seq<OutlierFlag>,
) -> bool {
    &&& are_spreads(stats, sp)
    &&& is_mode(palettes(stats), palette)
    &&& is_style_mode(stats, style)
    &&& is_sorted_flags(
        number_flags(stats, sp, limit, 5) + mismatch_flags(stats, palette, style, stats.len() as int),
        r,
    )
}

/// `r` are the outliers of a sheet.
pub open spec fn is_scan(stats: Seq<IconStat>, limit: int, r: Seq<OutlierFlag>) -> bool {
    exists|sp: Seq<Spread>, palette: Option<u64>, style: Option<StyleClass>| #[trigger]
        is_scan_with(stats, limit, sp, palette, style, r)
}

/// A sheet has one list of outliers.
pub proof fn scan_is_determined(stats: Seq<IconStat>, limit: int, a: Seq<OutlierFlag>, b: Seq<OutlierFlag>)
    requires
        stats.len() <= usize::MAX,
        a.len() <= usize::MAX,
        is_scan(stats, limit, a),
        is_scan(stats, limit, b),
    ensures
        a == b,
{
    let (s, p, c) = choose|sp: Seq<Spread>, palette: Option<u64>, style: Option<StyleClass>| #[trigger]
        is_scan_with(stats, limit, sp, palette, style, a);
    let (t, q, d) = choose|sp: Seq<Spread>, palette: Option<u64>, style: Option<StyleClass>| #[trigger]
        is_scan_with(stats, limit, sp, palette, style, b);
    assert forall|m: int| 0 <= m < 5 implies s[m] == t[m] by {
        spread_is_unique(metric_values(stats, m), s[m], t[m]);
    }
    assert(s =~= t);
    mode_is_unique(palettes(stats), p, q);
    let cm = match c {
        Some(StyleClass::Filled) => Some(0u64),
        Some(StyleClass::Outline) => Some(1u64),
        None => None,
    };
    let dm = match d {
        Some(StyleClass::Filled) => Some(0u64),
        Some(StyleClass::Outline) => Some(1u64),
        None => None,
    };
    mode_is_unique(styles(stats), cm, dm);
    let fs = number_flags(stats, s, limit, 5) + mismatch_flags(stats, p, c, stats.len() as int);
    let o = choose|o: Seq<usize>| #[trigger]
        sorting::is_order(flag_keys(fs), o, 0, fs.len() as int) && a == in_order(fs, o);
    let u = choose|o: Seq<usize>| #[trigger]
        sorting::is_order(flag_keys(fs), o, 0, fs.len() as int) && b == in_order(fs, o);
    sorting::order_is_unique(flag_keys(fs), o, u, 0, fs.len() as int);
}

fn metric_value(s: &IconStat, m: usize) -> (r: u64)
    requires
        m < 5,
    ensures
        r == metric_of(*s, m as int),
        r <= u32::MAX,
{
    if m == 0 {
        s.ink_size as u64
    } else if m == 1 {
        s.stroke as u64
    } else if m == 2 {
        s.node_count as u64
    } else if m == 3 {
        s.colours as u64
    } else {
        s.solidity as u64
    }
}

fn kind_of_metric(m: usize) -> (r: OutlierKind)
    requires
        m < 5,
    ensures
        r == metric_kind(m as int),
{
    if m == 0 {
        OutlierKind::InkSize
    } else if m == 1 {
        OutlierKind::Stroke
    } else if m == 2 {
        OutlierKind::NodeCount
    } else if m == 3 {
        OutlierKind::Colours
    } else {
        OutlierKind::Solidity
    }
}

/// Adds the deviations in one metric, and gives its spread.
fn scan_metric(stats: &[IconStat], m: usize, z_max: Milli, out: &mut Vec<OutlierFlag>) -> (r: Spread)
    requires
        m < 5,
        stats@.len() <= u32::MAX,
    ensures
        is_spread(metric_values(stats@, m as int), r),
        final(out)@ == old(out)@ + metric_flags(
            stats@,
            m as int,
            r,
            z_max as int,
            stats@.len() as int,
        ),
{
    let mut values: Vec<u64> = Vec::new();
    let mut i: usize = 0;
    while i < stats.len()
        invariant
            i <= stats@.len(),
            m < 5,
            values@.len() == i,
            forall|k: int| 0 <= k < i ==> #[trigger] values@[k] == metric_of(stats@[k], m as int),
            forall|k: int| 0 <= k < i ==> #[trigger] values@[k] <= u32::MAX,
        decreases stats@.len() - i,
    {
        values.push(metric_value(&stats[i], m));
        i = i + 1;
    }
    assert(values@ =~= metric_values(stats@, m as int));
    let s: Spread = spread(&values);
    let ghost o0 = out@;
    let mut j: usize = 0;
    assert(out@ =~= o0 + metric_flags(stats@, m as int, s, z_max as int, 0));
    while j < stats.len()
        invariant
            j <= stats@.len(),
            m < 5,
            spread_fits(s),
            out@ == o0 + metric_flags(stats@, m as int, s, z_max as int, j as int),
        decreases stats@.len() - j,
    {
        let value: u64 = metric_value(&stats[j], m);
        let z: ZScore = modified_z(value, &s);
        if is_far(&z, z_max) {
            out.push(
                OutlierFlag {
                    id: stats[j].id,
                    kind: kind_of_metric(m),
                    z,
                    value,
                    median2: s.median2,
                },
            );
        }
        assert(out@ =~= o0 + metric_flags(stats@, m as int, s, z_max as int, j + 1));
        j = j + 1;
    }
    s
}

/// Every outlier of a sheet, sorted by icon, then by kind.
pub fn scan(stats: &[IconStat], z_max: Milli) -> (r: Vec<OutlierFlag>)
    requires
        stats@.len() <= u32::MAX,
    ensures
        is_scan(stats@, z_max as int, r@),
{
    let mut found: Vec<OutlierFlag> = Vec::new();
    let ghost mut sp: Seq<Spread> = Seq::empty();
    let mut m: usize = 0;
    assert(found@ =~= number_flags(stats@, sp, z_max as int, 0));
    while m < 5
        invariant
            m <= 5,
            stats@.len() <= u32::MAX,
            sp.len() == m,
            forall|k: int| 0 <= k < m ==> is_spread(metric_values(stats@, k), #[trigger] sp[k]),
            found@ == number_flags(stats@, sp, z_max as int, m as int),
        decreases 5 - m,
    {
        let s: Spread = scan_metric(stats, m, z_max, &mut found);
        proof {
            let sp0 = sp;
            sp = sp.push(s);
            number_prefix(stats@, sp0, sp, z_max as int, m as int);
        }
        m = m + 1;
    }
    let palette: Option<u64> = modal_palette(stats);
    let style: Option<StyleClass> = modal_style(stats);
    let ghost numbers = found@;
    let mut i: usize = 0;
    assert(found@ =~= numbers + mismatch_flags(stats@, palette, style, 0));
    while i < stats.len()
        invariant
            i <= stats@.len(),
            found@ == numbers + mismatch_flags(stats@, palette, style, i as int),
        decreases stats@.len() - i,
    {
        let s: IconStat = stats[i];
        let ghost f0 = found@;
        if let Some(modal) = palette {
            if s.palette != modal {
                found.push(
                    OutlierFlag {
                        id: s.id,
                        kind: OutlierKind::Palette,
                        z: ZScore { num: 0, den: 1 },
                        value: s.palette,
                        median2: modal,
                    },
                );
            }
        }
        if let Some(modal) = style {
            if StyleClass::of(s.fill_ratio) != modal {
                found.push(
                    OutlierFlag {
                        id: s.id,
                        kind: OutlierKind::Style,
                        z: ZScore { num: 0, den: 1 },
                        value: s.fill_ratio as u64,
                        median2: 0,
                    },
                );
            }
        }
        assert(found@ =~= f0 + mismatches(s, palette, style));
        assert(found@ =~= numbers + mismatch_flags(stats@, palette, style, i + 1));
        i = i + 1;
    }
    let ghost fs = found@;
    let mut keys: Vec<SortKey> = Vec::new();
    let mut k: usize = 0;
    while k < found.len()
        invariant
            k <= found@.len(),
            fs == found@,
            keys@.len() == k,
            forall|t: int| 0 <= t < k ==> #[trigger] keys@[t] == flag_keys(fs)[t],
        decreases found@.len() - k,
    {
        keys.push((found[k].id as u64, found[k].kind.rank(), 0, 0));
        k = k + 1;
    }
    assert(keys@ =~= flag_keys(fs));
    let order = sorting::sort_order(&keys);
    let mut out: Vec<OutlierFlag> = Vec::new();
    let mut t: usize = 0;
    while t < order.len()
        invariant
            t <= order@.len(),
            fs == found@,
            sorting::is_order(flag_keys(fs), order@, 0, fs.len() as int),
            out@.len() == t,
            forall|x: int| 0 <= x < t ==> #[trigger] out@[x] == in_order(fs, order@)[x],
        decreases order@.len() - t,
    {
        out.push(found[order[t]]);
        t = t + 1;
    }
    proof {
        assert(out@ =~= in_order(fs, order@));
        assert(is_sorted_flags(fs, out@));
        assert(are_spreads(stats@, sp));
        assert(is_scan_with(stats@, z_max as int, sp, palette, style, out@));
    }
    out
}

/// More spreads behind the first ones change no earlier flag.
proof fn number_prefix(stats: Seq<IconStat>, a: Seq<Spread>, b: Seq<Spread>, limit: int, m: int)
    requires
        0 <= m <= a.len() <= b.len(),
        forall|k: int| 0 <= k < m ==> #[trigger] a[k] == b[k],
    ensures
        number_flags(stats, a, limit, m) == number_flags(stats, b, limit, m),
    decreases m,
{
    if m > 0 {
        number_prefix(stats, a, b, limit, m - 1);
        assert(a[m - 1] == b[m - 1]);
    }
}

// ---- what is flagged ----------------------------------------------------------------

/// The list holds a flag of this kind for an icon with this id and value.
pub open spec fn is_flagged(r: Seq<OutlierFlag>, id: u32, kind: OutlierKind, value: u64) -> bool {
    exists|j: int| 0 <= j < r.len() && (#[trigger] r[j]).id == id && r[j].kind == kind && r[j].value == value
}

/// The distance of a value from the median of its metric, scaled by the median of
/// all such distances, exceeds the limit. Where that median is zero, the mean of
/// the distances scales. `m2` is twice the median, `d4` four times the median
/// distance, `sum2` twice the sum of the distances of `n` values.
pub open spec fn is_distant(v: int, m2: int, d4: int, sum2: int, n: int, limit: int) -> bool {
    let off = 2 * v - m2;
    if d4 > 0 {
        1000 * (13490 * off) > limit * (10000 * d4) || 1000 * (13490 * (0 - off)) > limit * (10000 * d4)
    } else {
        sum2 > 0 && (1000 * (7979 * (n * off)) > limit * (10000 * sum2) || 1000 * (7979 * (n * (0 - off)))
            > limit * (10000 * sum2))
    }
}

proof fn in_metric(stats: Seq<IconStat>, m: int, s: Spread, limit: int, n: int, id: u32, v: u64)
    requires
        0 <= n <= stats.len(),
    ensures
        is_flagged(metric_flags(stats, m, s, limit, n), id, metric_kind(m), v) == (exceeds(
            z_of(v, s),
            limit,
        ) && exists|i: int| 0 <= i < n && (#[trigger] stats[i]).id == id && metric_of(stats[i], m) == v),
        forall|j: int|
            0 <= j < metric_flags(stats, m, s, limit, n).len() ==> (#[trigger] metric_flags(
                stats,
                m,
                s,
                limit,
                n,
            )[j]).kind == metric_kind(m),
    decreases n,
{
    let fs = metric_flags(stats, m, s, limit, n);
    if n > 0 {
        in_metric(stats, m, s, limit, n - 1, id, v);
        let before = metric_flags(stats, m, s, limit, n - 1);
        let u = metric_of(stats[n - 1], m);
        if is_flagged(before, id, metric_kind(m), v) {
            let j = choose|j: int|
                0 <= j < before.len() && (#[trigger] before[j]).id == id && before[j].kind == metric_kind(m)
                    && before[j].value == v;
            assert(fs[j] == before[j]);
        }
        if exceeds(z_of(u, s), limit) {
            assert(fs[before.len() as int].value == u);
            if is_flagged(fs, id, metric_kind(m), v) {
                let j = choose|j: int|
                    0 <= j < fs.len() && (#[trigger] fs[j]).id == id && fs[j].kind == metric_kind(m)
                        && fs[j].value == v;
                if j < before.len() {
                    assert(before[j] == fs[j]);
                    assert(is_flagged(before, id, metric_kind(m), v));
                } else {
                    assert(stats[n - 1].id == id);
                }
            }
        }
    }
}

proof fn in_numbers(stats: Seq<IconStat>, sp: Seq<Spread>, limit: int, k: int, m: int, id: u32, v: u64)
    requires
        0 <= k <= 5,
        0 <= m < 5,
    ensures
        is_flagged(number_flags(stats, sp, limit, k), id, metric_kind(m), v) == (m < k && is_flagged(
            metric_flags(stats, m, sp[m], limit, stats.len() as int),
            id,
            metric_kind(m),
            v,
        )),
    decreases k,
{
    let fs = number_flags(stats, sp, limit, k);
    if k > 0 {
        in_numbers(stats, sp, limit, k - 1, m, id, v);
        let before = number_flags(stats, sp, limit, k - 1);
        let here = metric_flags(stats, k - 1, sp[k - 1], limit, stats.len() as int);
        in_metric(stats, k - 1, sp[k - 1], limit, stats.len() as int, id, v);
        flagged_in_parts(before, here, id, metric_kind(m), v);
        if m != k - 1 {
            assert(metric_kind(m) != metric_kind(k - 1));
        }
    }
}

proof fn flagged_in_parts(a: Seq<OutlierFlag>, b: Seq<OutlierFlag>, id: u32, kind: OutlierKind, v: u64)
    ensures
        is_flagged(a + b, id, kind, v) == (is_flagged(a, id, kind, v) || is_flagged(b, id, kind, v)),
{
    let s = a + b;
    if is_flagged(a, id, kind, v) {
        let j = choose|j: int| 0 <= j < a.len() && (#[trigger] a[j]).id == id && a[j].kind == kind && a[j].value == v;
        assert(s[j] == a[j]);
    }
    if is_flagged(b, id, kind, v) {
        let j = choose|j: int| 0 <= j < b.len() && (#[trigger] b[j]).id == id && b[j].kind == kind && b[j].value == v;
        assert(s[a.len() + j] == b[j]);
    }
    if is_flagged(s, id, kind, v) {
        let j = choose|j: int| 0 <= j < s.len() && (#[trigger] s[j]).id == id && s[j].kind == kind && s[j].value == v;
        if j < a.len() {
            assert(a[j] == s[j]);
        } else {
            assert(b[j - a.len()] == s[j]);
        }
    }
}

proof fn in_mismatches(stats: Seq<IconStat>, palette: Option<u64>, style: Option<StyleClass>, n: int, id: u32, kind: OutlierKind, v: u64)
    requires
        0 <= n <= stats.len(),
    ensures
        is_flagged(mismatch_flags(stats, palette, style, n), id, kind, v) == exists|i: int|
            0 <= i < n && (#[trigger] stats[i]).id == id && ((kind == OutlierKind::Palette && v
                == stats[i].palette && palette is Some && palette->0 != v) || (kind == OutlierKind::Style
                && v == stats[i].fill_ratio && style is Some && class_of(stats[i].fill_ratio) != style->0)),
    decreases n,
{
    if n > 0 {
        in_mismatches(stats, palette, style, n - 1, id, kind, v);
        let s = stats[n - 1];
        let here = mismatches(s, palette, style);
        flagged_in_parts(mismatch_flags(stats, palette, style, n - 1), here, id, kind, v);
        let off = palette is Some && s.palette != palette->0;
        let odd = style is Some && class_of(s.fill_ratio) != style->0;
        if off {
            assert(here[0].kind == OutlierKind::Palette);
        }
        if odd {
            assert(here[here.len() - 1].kind == OutlierKind::Style);
        }
        assert(here.len() == (if off {
            1int
        } else {
            0
        }) + (if odd {
            1int
        } else {
            0
        }));
        assert(is_flagged(here, id, kind, v) == (s.id == id && ((kind == OutlierKind::Palette && v == s.palette
            && off) || (kind == OutlierKind::Style && v == s.fill_ratio && odd))));
    }
}

/// Sorting keeps what is flagged.
proof fn flagged_when_sorted(fs: Seq<OutlierFlag>, r: Seq<OutlierFlag>, id: u32, kind: OutlierKind, v: u64)
    requires
        is_sorted_flags(fs, r),
        r.len() <= usize::MAX,
    ensures
        is_flagged(fs, id, kind, v) == is_flagged(r, id, kind, v),
{
    let o = choose|o: Seq<usize>| #[trigger]
        sorting::is_order(flag_keys(fs), o, 0, fs.len() as int) && r == in_order(fs, o);
    if is_flagged(fs, id, kind, v) {
        let j = choose|j: int| 0 <= j < fs.len() && (#[trigger] fs[j]).id == id && fs[j].kind == kind && fs[j].value == v;
        assert(o.contains(j as usize));
        let k = choose|k: int| 0 <= k < o.len() && o[k] == j as usize;
        assert(r[k] == fs[j]);
    }
    if is_flagged(r, id, kind, v) {
        let j = choose|j: int| 0 <= j < r.len() && (#[trigger] r[j]).id == id && r[j].kind == kind && r[j].value == v;
        assert(r[j] == fs[o[j] as int]);
    }
}

proof fn flagged_metric(stats: Seq<IconStat>, limit: int, sp: Seq<Spread>, palette: Option<u64>, style: Option<StyleClass>, r: Seq<OutlierFlag>, i: int, m: int)
    requires
        is_scan_with(stats, limit, sp, palette, style, r),
        r.len() <= usize::MAX,
        0 <= i < stats.len(),
        0 <= m < 5,
    ensures
        is_flagged(r, stats[i].id, metric_kind(m), metric_of(stats[i], m)) == exceeds(
            z_of(metric_of(stats[i], m), sp[m]),
            limit,
        ),
{
    let id = stats[i].id;
    let v = metric_of(stats[i], m);
    let numbers = number_flags(stats, sp, limit, 5);
    let rest = mismatch_flags(stats, palette, style, stats.len() as int);
    flagged_when_sorted(numbers + rest, r, id, metric_kind(m), v);
    flagged_in_parts(numbers, rest, id, metric_kind(m), v);
    in_mismatches(stats, palette, style, stats.len() as int, id, metric_kind(m), v);
    in_numbers(stats, sp, limit, 5, m, id, v);
    in_metric(stats, m, sp[m], limit, stats.len() as int, id, v);
}

proof fn distant_is_exceeding(v: u64, s: Spread, limit: int)
    requires
        v <= u32::MAX,
        spread_fits(s),
        limit >= 0,
    ensures
        exceeds(z_of(v, s), limit) == is_distant(
            v as int,
            s.median2 as int,
            s.mad4 as int,
            s.sum2 as int,
            s.count as int,
            limit,
        ),
{
    let off = 2 * v - s.median2;
    let c = s.count as int;
    assert(c * (0 - off) == -(c * off)) by (nonlinear_arith);
    assert(-0x1_ffff_ffff * 0xffff_ffff <= c * off <= 0x1_ffff_ffff * 0xffff_ffff) by (nonlinear_arith)
        requires
            0 <= c <= 0xffff_ffff,
            -0x1_ffff_ffff <= off <= 0x1_ffff_ffff,
    ;
    let d = if s.mad4 > 0 {
        10000 * s.mad4
    } else {
        10000 * s.sum2
    };
    assert(limit * d >= 0) by (nonlinear_arith)
        requires
            limit >= 0,
            d >= 0,
    ;
}

proof fn spreads_are_small(stats: Seq<IconStat>, sp: Seq<Spread>, m: int)
    requires
        are_spreads(stats, sp),
        0 <= m < 5,
        stats.len() <= u32::MAX,
    ensures
        spread_fits(sp[m]),
{
    let vs = metric_values(stats, m);
    let s = sp[m];
    let n = vs.len() as int;
    assert(is_spread(vs, s));
    if n == 0 {
        assert(deviations(vs, s.median2 as int).len() == 0);
    } else {
        med::median_halves(vs, s.median2 as int);
        assert(s.median2 <= 2 * u32::MAX);
        let ds = deviations(vs, s.median2 as int);
        assert forall|i: int| 0 <= i < n implies 0 <= #[trigger] ds[i] <= 0x1_ffff_fffe by {
            assert(vs[i] <= u32::MAX);
        }
        med::median_halves(ds, s.mad4 as int);
    }
    sums_are_small(vs, s.median2 as int, n);
    assert(s.sum2 <= 0x2_0000_0000 * 0xffff_ffff) by (nonlinear_arith)
        requires
            s.sum2 <= 0x2_0000_0000 * n,
            n <= 0xffff_ffff,
    ;
}

proof fn sums_are_small(vs: Seq<u64>, about2: int, n: int)
    requires
        0 <= n <= vs.len(),
        forall|i: int| 0 <= i < vs.len() ==> #[trigger] vs[i] <= u32::MAX,
        0 <= about2 <= 2 * u32::MAX,
    ensures
        0 <= counting::sum_below(|i: int| twice_off(vs[i], about2), n) <= 0x2_0000_0000 * n,
    decreases n,
{
    if n > 0 {
        sums_are_small(vs, about2, n - 1);
        assert(vs[n - 1] <= u32::MAX);
    }
}

/// A measure of an icon is flagged exactly where it is far from the sheet's
/// median, above it or below it. `vs` holds the measure of all icons.
pub proof fn far_measures_are_flagged(
    stats: Seq<IconStat>,
    limit: int,
    r: Seq<OutlierFlag>,
    kind: OutlierKind,
    vs: Seq<u64>,
    m2: int,
    ds: Seq<u64>,
    d4: int,
    i: int,
)
    requires
        stats.len() <= u32::MAX,
        limit >= 0,
        is_scan(stats, limit, r),
        r.len() <= usize::MAX,
        0 <= i < stats.len(),
        vs.len() == stats.len(),
        ds.len() == stats.len(),
        forall|k: int|
            0 <= k < vs.len() ==> #[trigger] vs[k] == (match kind {
                OutlierKind::InkSize => stats[k].ink_size,
                OutlierKind::Stroke => stats[k].stroke,
                OutlierKind::NodeCount => stats[k].node_count,
                OutlierKind::Colours => stats[k].colours,
                _ => stats[k].solidity,
            }),
        kind != OutlierKind::Palette,
        kind != OutlierKind::Style,
        med::is_median2(vs, m2),
        forall|k: int|
            0 <= k < vs.len() ==> #[trigger] ds[k] == (if 2 * vs[k] >= m2 {
                2 * vs[k] - m2
            } else {
                m2 - 2 * vs[k]
            }),
        med::is_median2(ds, d4),
    ensures
        is_flagged(r, stats[i].id, kind, vs[i]) == is_distant(
            vs[i] as int,
            m2,
            d4,
            counting::sum_below(|k: int| ds[k] as int, vs.len() as int),
            vs.len() as int,
            limit,
        ),
{
    let (sp, palette, style) = choose|sp: Seq<Spread>, palette: Option<u64>, style: Option<StyleClass>| #[trigger]
        is_scan_with(stats, limit, sp, palette, style, r);
    let m = match kind {
        OutlierKind::InkSize => 0int,
        OutlierKind::Stroke => 1int,
        OutlierKind::NodeCount => 2int,
        OutlierKind::Colours => 3int,
        _ => 4int,
    };
    assert(metric_kind(m) == kind);
    assert forall|k: int| 0 <= k < vs.len() implies #[trigger] vs[k] == metric_of(stats[k], m) by {}
    assert(vs =~= metric_values(stats, m));
    let s = sp[m];
    assert(is_spread(vs, s));
    med::median_is_unique(vs, m2, s.median2 as int);
    assert forall|k: int| 0 <= k < vs.len() implies #[trigger] ds[k] == twice_off(vs[k], m2) by {}
    assert(ds =~= deviations(vs, m2));
    med::median_is_unique(ds, d4, s.mad4 as int);
    counting::sum_ext(|k: int| ds[k] as int, |k: int| twice_off(vs[k], m2), vs.len() as int);
    spreads_are_small(stats, sp, m);
    flagged_metric(stats, limit, sp, palette, style, r, i, m);
    assert(vs[i] <= u32::MAX);
    distant_is_exceeding(vs[i], s, limit);
}

/// Mirroring the strokes of a sheet, so that the thin become thick and the thick
/// thin, changes nothing about which strokes are flagged.
pub proof fn mirrored_strokes_are_flagged_alike(
    a: Seq<IconStat>,
    b: Seq<IconStat>,
    sum: u64,
    limit: int,
    x: Seq<OutlierFlag>,
    y: Seq<OutlierFlag>,
    i: int,
)
    requires
        a.len() == b.len() <= u32::MAX,
        limit >= 0,
        forall|k: int| 0 <= k < a.len() ==> (#[trigger] a[k]).stroke + b[k].stroke == sum,
        x.len() <= usize::MAX,
        y.len() <= usize::MAX,
        is_scan(a, limit, x),
        is_scan(b, limit, y),
        0 <= i < a.len(),
    ensures
        is_flagged(x, a[i].id, OutlierKind::Stroke, a[i].stroke as u64) == is_flagged(
            y,
            b[i].id,
            OutlierKind::Stroke,
            b[i].stroke as u64,
        ),
{
    let n = a.len() as int;
    let (sa, pa, ca) = choose|sp: Seq<Spread>, palette: Option<u64>, style: Option<StyleClass>| #[trigger]
        is_scan_with(a, limit, sp, palette, style, x);
    let (sb, pb, cb) = choose|sp: Seq<Spread>, palette: Option<u64>, style: Option<StyleClass>| #[trigger]
        is_scan_with(b, limit, sp, palette, style, y);
    let va = metric_values(a, 1);
    let vb = metric_values(b, 1);
    let s = sa[1];
    let t = sb[1];
    assert(is_spread(va, s) && is_spread(vb, t));
    assert forall|k: int| 0 <= k < n implies #[trigger] va[k] + vb[k] == sum by {
        assert(a[k].stroke + b[k].stroke == sum);
    }
    med::mirrored_median(va, vb, sum, s.median2 as int, t.median2 as int);
    assert forall|k: int| 0 <= k < n implies #[trigger] twice_off(va[k], s.median2 as int) == twice_off(
        vb[k],
        t.median2 as int,
    ) by {
        assert(va[k] + vb[k] == sum);
    }
    let da = deviations(va, s.median2 as int);
    let db = deviations(vb, t.median2 as int);
    assert(da =~= db);
    med::median_is_unique(da, s.mad4 as int, t.mad4 as int);
    counting::sum_ext(
        |k: int| twice_off(va[k], s.median2 as int),
        |k: int| twice_off(vb[k], t.median2 as int),
        n,
    );
    spreads_are_small(a, sa, 1);
    spreads_are_small(b, sb, 1);
    flagged_metric(a, limit, sa, pa, ca, x, i, 1);
    flagged_metric(b, limit, sb, pb, cb, y, i, 1);
    distant_is_exceeding(va[i], s, limit);
    distant_is_exceeding(vb[i], t, limit);
    assert(va[i] + vb[i] == sum);
    let off = 2 * va[i] - s.median2;
    assert(2 * vb[i] - t.median2 == 0 - off);
    assert(n * (0 - off) == -(n * off)) by (nonlinear_arith);
}

/// An icon's palette is flagged exactly where at least half of the sheet shares
/// another palette. Where two palettes have half of it each, the lesser number
/// counts.
pub proof fn odd_palettes_are_flagged(stats: Seq<IconStat>, limit: int, r: Seq<OutlierFlag>, i: int, q: u64)
    requires
        is_scan(stats, limit, r),
        r.len() <= usize::MAX,
        0 <= i < stats.len(),
        2 * counting::count_below(|k: int| stats[k].palette == q, stats.len() as int) > stats.len(),
    ensures
        is_flagged(r, stats[i].id, OutlierKind::Palette, stats[i].palette) == (stats[i].palette != q),
{
    let (sp, palette, style) = choose|sp: Seq<Spread>, palette: Option<u64>, style: Option<StyleClass>| #[trigger]
        is_scan_with(stats, limit, sp, palette, style, r);
    let n = stats.len() as int;
    let ps = palettes(stats);
    most_is_mode(ps, palette, q, |k: int| stats[k].palette == q);
    let id = stats[i].id;
    let v = stats[i].palette;
    let numbers = number_flags(stats, sp, limit, 5);
    let rest = mismatch_flags(stats, palette, style, n);
    flagged_when_sorted(numbers + rest, r, id, OutlierKind::Palette, v);
    flagged_in_parts(numbers, rest, id, OutlierKind::Palette, v);
    numbers_are_no_mismatch(stats, sp, limit, 5, id, OutlierKind::Palette, v);
    in_mismatches(stats, palette, style, n, id, OutlierKind::Palette, v);
}

proof fn most_is_mode(keys: Seq<u64>, m: Option<u64>, q: u64, f: spec_fn(int) -> bool)
    requires
        is_mode(keys, m),
        forall|k: int| 0 <= k < keys.len() ==> #[trigger] f(k) == (keys[k] == q),
        2 * counting::count_below(f, keys.len() as int) > keys.len(),
    ensures
        m == Some(q),
{
    let n = keys.len() as int;
    counting::count_ext(f, equals(keys, q), n);
    counting::count_some(f, n);
    let k = choose|k: int| 0 <= k < n && #[trigger] f(k);
    assert(keys[k] == q);
    match m {
        None => {
            assert(2 * occurrences(keys, keys[k], n) < n);
        },
        Some(v) => {
            assert(leads(keys, v, keys[k]));
            if v != q {
                let either = |i: int| keys[i] == v || keys[i] == q;
                counting::count_disjoint(equals(keys, v), equals(keys, q), either, n);
                counting::count_bounds(either, n);
            }
        },
    }
}

proof fn numbers_are_no_mismatch(stats: Seq<IconStat>, sp: Seq<Spread>, limit: int, k: int, id: u32, kind: OutlierKind, v: u64)
    requires
        0 <= k <= 5,
        kind == OutlierKind::Palette || kind == OutlierKind::Style,
    ensures
        !is_flagged(number_flags(stats, sp, limit, k), id, kind, v),
    decreases k,
{
    if k > 0 {
        numbers_are_no_mismatch(stats, sp, limit, k - 1, id, kind, v);
        let here = metric_flags(stats, k - 1, sp[k - 1], limit, stats.len() as int);
        in_metric(stats, k - 1, sp[k - 1], limit, stats.len() as int, id, v);
        flagged_in_parts(number_flags(stats, sp, limit, k - 1), here, id, kind, v);
    }
}

/// An icon's style is flagged exactly where more than half of the sheet has the
/// other one: filled where at least half of the box is ink.
pub proof fn odd_styles_are_flagged(stats: Seq<IconStat>, limit: int, r: Seq<OutlierFlag>, i: int, filled: bool)
    requires
        is_scan(stats, limit, r),
        r.len() <= usize::MAX,
        0 <= i < stats.len(),
        2 * counting::count_below(
            |k: int| (stats[k].fill_ratio >= 500) == filled,
            stats.len() as int,
        ) > stats.len(),
    ensures
        is_flagged(r, stats[i].id, OutlierKind::Style, stats[i].fill_ratio as u64) == ((stats[i].fill_ratio
            >= 500) != filled),
{
    let (sp, palette, style) = choose|sp: Seq<Spread>, palette: Option<u64>, style: Option<StyleClass>| #[trigger]
        is_scan_with(stats, limit, sp, palette, style, r);
    let n = stats.len() as int;
    let q = if filled {
        0u64
    } else {
        1u64
    };
    let m = match style {
        Some(StyleClass::Filled) => Some(0u64),
        Some(StyleClass::Outline) => Some(1u64),
        None => None,
    };
    most_is_mode(styles(stats), m, q, |k: int| (stats[k].fill_ratio >= 500) == filled);
    let id = stats[i].id;
    let v = stats[i].fill_ratio as u64;
    let numbers = number_flags(stats, sp, limit, 5);
    let rest = mismatch_flags(stats, palette, style, n);
    flagged_when_sorted(numbers + rest, r, id, OutlierKind::Style, v);
    flagged_in_parts(numbers, rest, id, OutlierKind::Style, v);
    numbers_are_no_mismatch(stats, sp, limit, 5, id, OutlierKind::Style, v);
    in_mismatches(stats, palette, style, n, id, OutlierKind::Style, v);
}

} // verus!
