//! The four knobs with which a user tunes the grouping.
//!
//! Each maps onto exactly one parameter of the refine chain. A value outside
//! its envelope is rejected, never clamped, and then nothing is written.
use vstd::prelude::*;
use crate::merge::RefineParams;
use crate::text;

verus! {

/// The envelope of the knobs; fractions in thousandths.
#[derive(Clone, Copy, Debug, PartialEq, Eq, Structural)]
pub struct Envelope {
    /// Least accepted value.
    pub min: i64,
    /// Largest accepted value.
    pub max: i64,
}

impl Envelope {
    /// The value lies within.
    pub open spec fn admits(&self, v: int) -> bool {
        self.min <= v <= self.max
    }
}

/// The envelopes of all the knobs.
#[derive(Clone, Copy, Debug, PartialEq, Eq, Structural)]
pub struct SensitivityRanges {
    /// Merge distance as a fraction of the median height.
    pub merge_gap_frac: Envelope,
    /// Largest combined area as a multiple of the median area.
    pub merge_area_ratio: Envelope,
    /// Largest accepted speckle area.
    pub noise_min_area: u32,
    /// Least regularity of a lattice.
    pub grid_regularity_min: Envelope,
}

/// The knobs; fractions in thousandths.
#[derive(Clone, Copy, Debug, PartialEq, Eq, Structural)]
pub struct SensitivityParams {
    /// Merge distance as a fraction of the median height.
    pub merge_gap_frac: i64,
    /// Largest combined area as a multiple of the median area.
    pub merge_area_ratio: i64,
    /// Components with less ink are speckle.
    pub noise_min_area: u32,
    /// Least regularity of a lattice.
    pub grid_regularity_min: i64,
}

/// Why a knob's value was rejected.
#[derive(Clone, Debug, PartialEq, Eq)]
pub struct SensitivityError {
    /// The field, the value and the envelope.
    pub message: String,
}

/// The envelope that the knobs may move within.
pub open spec fn envelope() -> SensitivityRanges {
    SensitivityRanges {
        merge_gap_frac: Envelope { min: 50, max: 1000 },
        merge_area_ratio: Envelope { min: 1000, max: 8000 },
        noise_min_area: 512,
        grid_regularity_min: Envelope { min: 0, max: 1000 },
    }
}

/// The absolute value.
pub open spec fn magnitude(v: int) -> int {
    if v < 0 {
        -v
    } else {
        v
    }
}

/// The digits behind the point, without trailing zeros.
pub open spec fn fraction_text(f: int) -> Seq<char> {
    if f == 0 {
        Seq::empty()
    } else if f % 100 == 0 {
        seq!['.', text::digit_char(f / 100)]
    } else if f % 10 == 0 {
        seq!['.', text::digit_char(f / 100), text::digit_char(f / 10 % 10)]
    } else {
        seq!['.', text::digit_char(f / 100), text::digit_char(f / 10 % 10), text::digit_char(f % 10)]
    }
}

/// A number of thousandths as a decimal fraction.
pub open spec fn milli_text(v: int) -> Seq<char> {
    (if v < 0 {
        seq!['-']
    } else {
        Seq::empty()
    }) + text::decimal((magnitude(v) / 1000) as nat) + fraction_text(magnitude(v) % 1000)
}

/// What is said of a fraction outside its envelope.
pub open spec fn range_text(name: Seq<char>, v: int, e: Envelope) -> Seq<char> {
    name + " "@ + milli_text(v) + " outside ["@ + milli_text(e.min as int) + ", "@ + milli_text(
        e.max as int,
    ) + "]"@
}

/// What is said of a speckle area that is too large.
pub open spec fn area_text(v: int) -> Seq<char> {
    "noiseMinArea "@ + text::decimal(v as nat) + " outside [0, 512]"@
}

/// The first objection to the knobs, if there is one.
pub open spec fn objection(s: SensitivityParams) -> Option<Seq<char>> {
    let r = envelope();
    if !r.merge_gap_frac.admits(s.merge_gap_frac as int) {
        Some(range_text("mergeGapFrac"@, s.merge_gap_frac as int, r.merge_gap_frac))
    } else if !r.merge_area_ratio.admits(s.merge_area_ratio as int) {
        Some(range_text("mergeAreaRatio"@, s.merge_area_ratio as int, r.merge_area_ratio))
    } else if !r.grid_regularity_min.admits(s.grid_regularity_min as int) {
        Some(range_text("gridRegularityMin"@, s.grid_regularity_min as int, r.grid_regularity_min))
    } else if s.noise_min_area > r.noise_min_area {
        Some(area_text(s.noise_min_area as int))
    } else {
        None
    }
}

/// The knobs that a parameter set stands for.
pub open spec fn knobs_of(p: RefineParams) -> SensitivityParams {
    SensitivityParams {
        merge_gap_frac: p.gap_frac as i64,
        merge_area_ratio: p.rule5_max_area_ratio as i64,
        noise_min_area: p.noise_min_area,
        grid_regularity_min: p.grid.regularity_min as i64,
    }
}

/// The parameter set with the knobs written into it.
pub open spec fn tuned(p: RefineParams, s: SensitivityParams) -> RefineParams {
    RefineParams {
        gap_frac: s.merge_gap_frac as u32,
        rule5_max_area_ratio: s.merge_area_ratio as u32,
        noise_min_area: s.noise_min_area,
        grid: crate::grid::GridParams { regularity_min: s.grid_regularity_min as u32, ..p.grid },
        ..p
    }
}

/// Appends a number of thousandths as a decimal fraction.
fn push_milli(s: &mut String, v: i64)
    ensures
        final(s)@ == old(s)@ + milli_text(v as int),
{
    let ghost s0 = s@;
    let m: u64 = if v < 0 {
        (-(v + 1)) as u64 + 1
    } else {
        v as u64
    };
    if v < 0 {
        s.append("-");
        proof {
            reveal_strlit("-");
        }
        assert(s@ =~= s0 + seq!['-']);
    }
    assert(m == magnitude(v as int));
    text::push_decimal(s, m / 1000);
    let ghost s1 = s@;
    let f: u64 = m % 1000;
    if f != 0 {
        s.append(".");
        proof {
            reveal_strlit(".");
        }
        text::push_digit(s, (f / 100) as u8);
        if f % 100 != 0 {
            text::push_digit(s, (f / 10 % 10) as u8);
            if f % 10 != 0 {
                text::push_digit(s, (f % 10) as u8);
            }
        }
    }
    assert(s@ =~= s1 + fraction_text(f as int));
    assert(s@ =~= s0 + milli_text(v as int));
}

fn check_range(name: &str, v: i64, e: Envelope) -> (r: Result<(), SensitivityError>)
    ensures
        match r {
            Ok(_) => e.admits(v as int),
            Err(x) => !e.admits(v as int) && x.message@ == range_text(name@, v as int, e),
        },
{
    if v < e.min || v > e.max {
        let mut s = String::from_str(name);
        s.append(" ");
        push_milli(&mut s, v);
        s.append(" outside [");
        push_milli(&mut s, e.min);
        s.append(", ");
        push_milli(&mut s, e.max);
        s.append("]");
        return Err(SensitivityError { message: s });
    }
    Ok(())
}

impl SensitivityParams {
    /// The envelope that the knobs may move within.
    pub fn ranges() -> (r: SensitivityRanges)
        ensures
            r == envelope(),
    {
        SensitivityRanges {
            merge_gap_frac: Envelope { min: 50, max: 1000 },
            merge_area_ratio: Envelope { min: 1000, max: 8000 },
            noise_min_area: 512,
            grid_regularity_min: Envelope { min: 0, max: 1000 },
        }
    }

    /// Reads the knobs out of a parameter set.
    pub fn from_refine(p: &RefineParams) -> (r: SensitivityParams)
        ensures
            r == knobs_of(*p),
    {
        SensitivityParams {
            merge_gap_frac: p.gap_frac as i64,
            merge_area_ratio: p.rule5_max_area_ratio as i64,
            noise_min_area: p.noise_min_area,
            grid_regularity_min: p.grid.regularity_min as i64,
        }
    }

    /// Writes the knobs into `p`, or names the first one outside its envelope
    /// and leaves `p` as it was.
    pub fn apply(&self, p: &mut RefineParams) -> (r: Result<(), SensitivityError>)
        ensures
            match r {
                Ok(_) => objection(*self) is None && *final(p) == tuned(*old(p), *self),
                Err(e) => objection(*self) == Some(e.message@) && *final(p) == *old(p),
            },
    {
        let r = SensitivityParams::ranges();
        if let Err(e) = check_range("mergeGapFrac", self.merge_gap_frac, r.merge_gap_frac) {
            return Err(e);
        }
        if let Err(e) = check_range("mergeAreaRatio", self.merge_area_ratio, r.merge_area_ratio) {
            return Err(e);
        }
        if let Err(e) = check_range(
            "gridRegularityMin",
            self.grid_regularity_min,
            r.grid_regularity_min,
        ) {
            return Err(e);
        }
        if self.noise_min_area > r.noise_min_area {
            let mut s = String::from_str("noiseMinArea ");
            text::push_decimal(&mut s, self.noise_min_area as u64);
            s.append(" outside [0, 512]");
            return Err(SensitivityError { message: s });
        }
        p.gap_frac = self.merge_gap_frac as u32;
        p.rule5_max_area_ratio = self.merge_area_ratio as u32;
        p.noise_min_area = self.noise_min_area;
        p.grid.regularity_min = self.grid_regularity_min as u32;
        Ok(())
    }
}

/// Knobs that are accepted read back as they were written, and writing them
/// again changes nothing.
pub proof fn knobs_read_back(p: RefineParams, s: SensitivityParams)
    requires
        objection(s) is None,
    ensures
        knobs_of(tuned(p, s)) == s,
        tuned(tuned(p, s), s) == tuned(p, s),
{
}

/// Settings are accepted exactly where each lies in its range: the merge distance
/// from a twentieth to one, the area ratio from one to eight, the regularity from
/// nothing to one, and the speckle area up to 512; and then only the four knobs
/// that they name change.
pub proof fn settings_apply_within_their_ranges(p: RefineParams, s: SensitivityParams)
    ensures
        (objection(s) is None) == (50 <= s.merge_gap_frac <= 1000 && 1000 <= s.merge_area_ratio <= 8000 && 0
            <= s.grid_regularity_min <= 1000 && s.noise_min_area <= 512),
        objection(s) is None ==> {
            let t = tuned(p, s);
            &&& t.gap_frac == s.merge_gap_frac
            &&& t.rule5_max_area_ratio == s.merge_area_ratio
            &&& t.noise_min_area == s.noise_min_area
            &&& t.grid.regularity_min == s.grid_regularity_min
            &&& t == (RefineParams {
                gap_frac: t.gap_frac,
                rule5_max_area_ratio: t.rule5_max_area_ratio,
                noise_min_area: t.noise_min_area,
                grid: t.grid,
                ..p
            })
            &&& t.grid == (crate::grid::GridParams { regularity_min: t.grid.regularity_min, ..p.grid })
        },
{
}

} // verus!
