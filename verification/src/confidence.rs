//! The confidence score: weighted deductions over what the grouping chain
//! measured.
//!
//! Every signal is an exact share or ramp in `0..=1`. Deductions and the score
//! are in billionths, rounded down, so a score is exact to nine digits.
use vstd::prelude::*;
use vstd::string::StringExecFns;
use crate::background::{BackgroundKind, BackgroundModel};
use crate::counting;
use crate::geometry::{Bbox, IconGroup};
use crate::grid;
use crate::grid::{GridFit, GridHint, Pitch};
use crate::mask::ForegroundMask;
use crate::median;
use crate::ratio;
use crate::ratio::Ratio;
use crate::split::Milli;
use crate::text;

verus! {

/// Version of the scoring rules.
pub const CONFIDENCE_VERSION: u32 = 1;

/// Number of signals.
pub const SIGNAL_COUNT: usize = 6;

/// A score of one, in billionths.
pub const FULL_SCORE: u64 = 1_000_000_000;

/// The signals, in order.
#[derive(Clone, Copy, Debug, PartialEq, Eq, Structural)]
pub enum SignalKind {
    /// Groups that the lattice check flagged.
    SpansMultipleCells,
    /// A large share of the components was merged away.
    HighMergeRatio,
    /// Sizes are spread far from the median.
    SizeMad,
    /// Groups sit on the sheet border.
    BorderTouch,
    /// Valleys exist, but their pitch is irregular.
    WeakGrid,
    /// A weak background detector won.
    UncertainBackground,
}

/// The place of a signal in the order.
pub open spec fn signal_index(k: SignalKind) -> int {
    match k {
        SignalKind::SpansMultipleCells => 0,
        SignalKind::HighMergeRatio => 1,
        SignalKind::SizeMad => 2,
        SignalKind::BorderTouch => 3,
        SignalKind::WeakGrid => 4,
        SignalKind::UncertainBackground => 5,
    }
}

/// The label of a signal.
pub open spec fn signal_label(k: SignalKind) -> Seq<char> {
    match k {
        SignalKind::SpansMultipleCells => "spans multiple cells"@,
        SignalKind::HighMergeRatio => "high merge ratio"@,
        SignalKind::SizeMad => "size spread"@,
        SignalKind::BorderTouch => "touches the sheet border"@,
        SignalKind::WeakGrid => "weak grid"@,
        SignalKind::UncertainBackground => "uncertain background"@,
    }
}

impl SignalKind {
    /// Every signal, in order.
    pub fn all() -> (r: [SignalKind; 6])
        ensures
            forall|i: int| 0 <= i < 6 ==> signal_index(#[trigger] r@[i]) == i,
    {
        [
            SignalKind::SpansMultipleCells,
            SignalKind::HighMergeRatio,
            SignalKind::SizeMad,
            SignalKind::BorderTouch,
            SignalKind::WeakGrid,
            SignalKind::UncertainBackground,
        ]
    }

    /// Index into the deductions.
    pub fn index(self) -> (r: usize)
        ensures
            r == signal_index(self),
            r < SIGNAL_COUNT,
    {
        match self {
            SignalKind::SpansMultipleCells => 0,
            SignalKind::HighMergeRatio => 1,
            SignalKind::SizeMad => 2,
            SignalKind::BorderTouch => 3,
            SignalKind::WeakGrid => 4,
            SignalKind::UncertainBackground => 5,
        }
    }

    /// Human-readable label.
    pub fn label(self) -> (r: &'static str)
        ensures
            r@ == signal_label(self),
    {
        match self {
            SignalKind::SpansMultipleCells => "spans multiple cells",
            SignalKind::HighMergeRatio => "high merge ratio",
            SignalKind::SizeMad => "size spread",
            SignalKind::BorderTouch => "touches the sheet border",
            SignalKind::WeakGrid => "weak grid",
            SignalKind::UncertainBackground => "uncertain background",
        }
    }
}

/// What is wrong with one group.
#[derive(Clone, Copy, Debug, PartialEq, Eq, Structural)]
pub enum WarningKind {
    /// The box straddles a valley centre.
    SpansMultipleCells,
    /// The group was restored from a merge that crossed a valley.
    RestoredFromMerge,
}

impl WarningKind {
    /// Human-readable label.
    pub fn label(self) -> (r: &'static str)
        ensures
            r@ == (match self {
                WarningKind::SpansMultipleCells => "spans multiple cells"@,
                WarningKind::RestoredFromMerge => "restored from a merge across a valley"@,
            }),
    {
        match self {
            WarningKind::SpansMultipleCells => "spans multiple cells",
            WarningKind::RestoredFromMerge => "restored from a merge across a valley",
        }
    }
}

/// One group that needs review.
#[derive(Clone, Copy, Debug, PartialEq, Eq, Structural)]
pub struct GroupWarning {
    /// Index into the scored list.
    pub group: u32,
    /// What is wrong with it.
    pub kind: WarningKind,
}

/// The measured signals, each at most one.
#[derive(Clone, Copy, Debug, PartialEq, Eq, Structural)]
pub struct ConfidenceSignals {
    /// Share of groups with a warning.
    pub spans: Ratio,
    /// Ramp of the share of components merged away.
    pub merge_ratio: Ratio,
    /// Ramp of the relative spread of group sizes.
    pub size_mad: Ratio,
    /// Share of groups within the border margin.
    pub border_touch: Ratio,
    /// Share of axes with an irregular pitch.
    pub weak_grid: Ratio,
    /// Doubt about the background.
    pub uncertain_background: Ratio,
}

/// No signal at all.
pub open spec fn silent() -> ConfidenceSignals {
    ConfidenceSignals {
        spans: ratio::zero(),
        merge_ratio: ratio::zero(),
        size_mad: ratio::zero(),
        border_touch: ratio::zero(),
        weak_grid: ratio::zero(),
        uncertain_background: ratio::zero(),
    }
}

impl Default for ConfidenceSignals {
    fn default() -> (r: Self)
        ensures
            r == silent(),
    {
        let z = Ratio { num: 0, den: 1 };
        ConfidenceSignals {
            spans: z,
            merge_ratio: z,
            size_mad: z,
            border_touch: z,
            weak_grid: z,
            uncertain_background: z,
        }
    }
}

/// Weights and ramp endpoints, in thousandths.
#[derive(Clone, Copy, Debug, PartialEq, Eq, Structural)]
pub struct ConfidenceParams {
    /// Master switch; off gives a full score and no warnings.
    pub enabled: bool,
    /// Valley tolerance, in pixels.
    pub span_tolerance: u32,
    /// Weight of flagged groups.
    pub w_spans: Milli,
    /// Weight of merges.
    pub w_merge: Milli,
    /// Weight of the size spread.
    pub w_size_mad: Milli,
    /// Weight of the border.
    pub w_border: Milli,
    /// Weight of a weak grid.
    pub w_weak_grid: Milli,
    /// Weight of the background.
    pub w_background: Milli,
    /// Merge ratio at which the deduction starts.
    pub merge_ratio_lo: Milli,
    /// Merge ratio at which the deduction is full.
    pub merge_ratio_hi: Milli,
    /// Relative spread at which the deduction starts.
    pub size_mad_lo: Milli,
    /// Relative spread at which the deduction is full.
    pub size_mad_hi: Milli,
    /// Regularity from which an irregular axis counts.
    pub weak_grid_lo: Milli,
    /// Regularity up to which it counts.
    pub weak_grid_hi: Milli,
    /// Border margin as a fraction of the smaller sheet side.
    pub border_margin_frac: Milli,
    /// Consensus below which a background is uncertain.
    pub background_consensus_min: Milli,
}

/// The standard parameters.
pub open spec fn default_confidence_params() -> ConfidenceParams {
    ConfidenceParams {
        enabled: true,
        span_tolerance: 2,
        w_spans: 300,
        w_merge: 200,
        w_size_mad: 150,
        w_border: 150,
        w_weak_grid: 100,
        w_background: 100,
        merge_ratio_lo: 250,
        merge_ratio_hi: 750,
        size_mad_lo: 350,
        size_mad_hi: 700,
        weak_grid_lo: 350,
        weak_grid_hi: 750,
        border_margin_frac: 20,
        background_consensus_min: 850,
    }
}

impl Default for ConfidenceParams {
    fn default() -> (r: Self)
        ensures
            r == default_confidence_params(),
    {
        ConfidenceParams {
            enabled: true,
            span_tolerance: 2,
            w_spans: 300,
            w_merge: 200,
            w_size_mad: 150,
            w_border: 150,
            w_weak_grid: 100,
            w_background: 100,
            merge_ratio_lo: 250,
            merge_ratio_hi: 750,
            size_mad_lo: 350,
            size_mad_hi: 700,
            weak_grid_lo: 350,
            weak_grid_hi: 750,
            border_margin_frac: 20,
            background_consensus_min: 850,
        }
    }
}

/// The weight of a signal.
pub open spec fn weight_of(p: ConfidenceParams, k: SignalKind) -> Milli {
    match k {
        SignalKind::SpansMultipleCells => p.w_spans,
        SignalKind::HighMergeRatio => p.w_merge,
        SignalKind::SizeMad => p.w_size_mad,
        SignalKind::BorderTouch => p.w_border,
        SignalKind::WeakGrid => p.w_weak_grid,
        SignalKind::UncertainBackground => p.w_background,
    }
}

/// The value of a signal.
pub open spec fn signal_of(s: ConfidenceSignals, k: SignalKind) -> Ratio {
    match k {
        SignalKind::SpansMultipleCells => s.spans,
        SignalKind::HighMergeRatio => s.merge_ratio,
        SignalKind::SizeMad => s.size_mad,
        SignalKind::BorderTouch => s.border_touch,
        SignalKind::WeakGrid => s.weak_grid,
        SignalKind::UncertainBackground => s.uncertain_background,
    }
}

impl ConfidenceParams {
    /// Weight of one signal.
    pub fn weight(&self, kind: SignalKind) -> (r: Milli)
        ensures
            r == weight_of(*self, kind),
    {
        match kind {
            SignalKind::SpansMultipleCells => self.w_spans,
            SignalKind::HighMergeRatio => self.w_merge,
            SignalKind::SizeMad => self.w_size_mad,
            SignalKind::BorderTouch => self.w_border,
            SignalKind::WeakGrid => self.w_weak_grid,
            SignalKind::UncertainBackground => self.w_background,
        }
    }

    /// Value of one signal.
    pub fn signal(&self, signals: &ConfidenceSignals, kind: SignalKind) -> (r: Ratio)
        ensures
            r == signal_of(*signals, kind),
    {
        match kind {
            SignalKind::SpansMultipleCells => signals.spans,
            SignalKind::HighMergeRatio => signals.merge_ratio,
            SignalKind::SizeMad => signals.size_mad,
            SignalKind::BorderTouch => signals.border_touch,
            SignalKind::WeakGrid => signals.weak_grid,
            SignalKind::UncertainBackground => signals.uncertain_background,
        }
    }
}

/// The scored result.
#[derive(Clone, Debug, PartialEq, Eq)]
pub struct ConfidenceReport {
    /// One less all deductions, at least zero, in billionths.
    pub score: u64,
    /// Measured signals.
    pub signals: ConfidenceSignals,
    /// Weight times signal in billionths, by signal index.
    pub deductions: [u64; 6],
    /// Groups that need review, ascending.
    pub warnings: Vec<GroupWarning>,
    /// How many there are.
    pub review_groups: u32,
}

/// The report of a stage that measured nothing.
pub open spec fn is_perfect(r: ConfidenceReport) -> bool {
    &&& r.score == FULL_SCORE
    &&& r.signals == silent()
    &&& forall|i: int| 0 <= i < 6 ==> #[trigger] r.deductions@[i] == 0
    &&& r.warnings@.len() == 0
    &&& r.review_groups == 0
}

impl Default for ConfidenceReport {
    fn default() -> (r: Self)
        ensures
            is_perfect(r),
    {
        ConfidenceReport {
            score: FULL_SCORE,
            signals: ConfidenceSignals::default(),
            deductions: [0, 0, 0, 0, 0, 0],
            warnings: Vec::new(),
            review_groups: 0,
        }
    }
}

/// A score as a whole percentage, halves rounded up.
pub open spec fn percent_of(score: int) -> int {
    if score >= FULL_SCORE {
        100
    } else {
        (score + 5_000_000) / 10_000_000
    }
}

impl ConfidenceReport {
    /// Deduction of one signal, in billionths.
    pub fn deduction(&self, kind: SignalKind) -> (r: u64)
        ensures
            r == self.deductions@[signal_index(kind)],
    {
        self.deductions[kind.index()]
    }

    /// Whole-percent score for display.
    pub fn percent(&self) -> (r: u32)
        ensures
            r == percent_of(self.score as int),
    {
        if self.score >= FULL_SCORE {
            100
        } else {
            ((self.score + 5_000_000) / 10_000_000) as u32
        }
    }
}

/// The review half of the status line.
pub open spec fn review_text(n: u32) -> Seq<char> {
    if n == 0 {
        "no groups need review"@
    } else if n == 1 {
        "1 group needs review"@
    } else {
        text::decimal(n as nat) + " groups need review"@
    }
}

/// Hundredths of a second, as seconds with two decimals.
pub open spec fn seconds_text(hundredths: int) -> Seq<char> {
    text::decimal((hundredths / 100) as nat) + "."@ + seq![
        text::digit_char(hundredths / 10 % 10),
        text::digit_char(hundredths % 10),
    ]
}

/// The status line.
pub open spec fn line_of(icons: int, hundredths: int, report: ConfidenceReport) -> Seq<char> {
    "Grouped "@ + text::decimal(icons as nat) + " icons in "@ + seconds_text(hundredths)
        + " s · confidence "@ + text::decimal(percent_of(report.score as int) as nat) + "% · "@
        + review_text(report.review_groups)
}

/// The status line: what was grouped, how long it took in hundredths of a
/// second, the confidence and what needs review.
pub fn summary_line(icons: u32, hundredths: u64, report: &ConfidenceReport) -> (r: String)
    ensures
        r@ == line_of(icons as int, hundredths as int, *report),
{
    let mut s = String::from_str("Grouped ");
    text::push_decimal(&mut s, icons as u64);
    s.append(" icons in ");
    let ghost s0 = s@;
    text::push_decimal(&mut s, hundredths / 100);
    s.append(".");
    text::push_digit(&mut s, (hundredths / 10 % 10) as u8);
    text::push_digit(&mut s, (hundredths % 10) as u8);
    assert(s@ =~= s0 + seconds_text(hundredths as int));
    s.append(" s · confidence ");
    text::push_decimal(&mut s, report.percent() as u64);
    s.append("% · ");
    let ghost s1 = s@;
    if report.review_groups == 0 {
        s.append("no groups need review");
    } else if report.review_groups == 1 {
        s.append("1 group needs review");
    } else {
        text::push_decimal(&mut s, report.review_groups as u64);
        s.append(" groups need review");
        assert(s@ =~= s1 + review_text(report.review_groups));
    }
    s
}

// ---- scoring -------------------------------------------------------------------------

/// What the score reads.
#[derive(Clone, Copy, Debug)]
pub struct ScoreInput<'a> {
    /// Final groups.
    pub groups: &'a Vec<IconGroup>,
    /// The mask they were measured against.
    pub mask: &'a ForegroundMask,
    /// Components merged away that stayed merged.
    pub merges: u32,
    /// Components restored from merges that crossed a valley.
    pub restored: &'a Vec<IconGroup>,
    /// The lattice.
    pub hint: &'a GridHint,
    /// The background model, when there is one.
    pub background: Option<&'a BackgroundModel>,
}

/// Some group of `list` has box `b`.
pub open spec fn has_box(list: Seq<IconGroup>, b: Bbox) -> bool {
    exists|i: int| 0 <= i < list.len() && (#[trigger] list[i]).bbox == b
}

/// The warning that a group earns.
pub open spec fn warning_of(g: IconGroup, restored: Seq<IconGroup>, h: GridHint, tol: int) -> Option<WarningKind> {
    if grid::spans_cells(g.bbox, h, tol) {
        Some(WarningKind::SpansMultipleCells)
    } else if has_box(restored, g.bbox) {
        Some(WarningKind::RestoredFromMerge)
    } else {
        None
    }
}

/// The warnings of the first `n` groups, in order.
pub open spec fn warnings_upto(groups: Seq<IconGroup>, restored: Seq<IconGroup>, h: GridHint, tol: int, n: int) -> Seq<GroupWarning>
    decreases n,
{
    if n <= 0 {
        Seq::empty()
    } else {
        let before = warnings_upto(groups, restored, h, tol, n - 1);
        match warning_of(groups[n - 1], restored, h, tol) {
            Some(kind) => before.push(GroupWarning { group: (n - 1) as u32, kind }),
            None => before,
        }
    }
}

/// The smaller side of every group.
pub open spec fn sizes_of(groups: Seq<IconGroup>) -> Seq<u64> {
    Seq::new(
        groups.len(),
        |i: int|
            if groups[i].bbox.w <= groups[i].bbox.h {
                groups[i].bbox.w as u64
            } else {
                groups[i].bbox.h as u64
            },
    )
}

/// Twice the distance of each value from the median, given doubled.
pub open spec fn spread_of(s: Seq<u64>, m2: int) -> Seq<u64> {
    Seq::new(
        s.len(),
        |i: int|
            if 2 * s[i] >= m2 {
                (2 * s[i] - m2) as u64
            } else {
                (m2 - 2 * s[i]) as u64
            },
    )
}

/// `r` is the ramp of the median deviation over the median of the sizes.
pub open spec fn is_size_spread(groups: Seq<IconGroup>, p: ConfidenceParams, r: Ratio) -> bool {
    exists|m2: int, d4: int|
        #![trigger median::is_median2(sizes_of(groups), m2),
            median::is_median2(spread_of(sizes_of(groups), m2), d4)]
        median::is_median2(sizes_of(groups), m2) && median::is_median2(
            spread_of(sizes_of(groups), m2),
            d4,
        ) && r == (if groups.len() == 0 || m2 == 0 {
            ratio::zero()
        } else {
            ratio::ramp_of(d4, 2 * m2, p.size_mad_lo as int, p.size_mad_hi as int)
        })
}

/// The border margin in thousandths of a pixel.
pub open spec fn margin_of(m: ForegroundMask, p: ConfidenceParams) -> int {
    let side = if m.width <= m.height {
        m.width as int
    } else {
        m.height as int
    };
    if p.border_margin_frac * side <= 1000 {
        1000
    } else {
        p.border_margin_frac * side
    }
}

/// A box within the border margin.
pub open spec fn touches_border(m: ForegroundMask, p: ConfidenceParams, b: Bbox) -> bool {
    let margin = margin_of(m, p);
    ||| b.x * 1000 <= margin
    ||| b.y * 1000 <= margin
    ||| b.right() * 1000 >= m.width * 1000 - margin
    ||| b.bottom() * 1000 >= m.height * 1000 - margin
}

/// Which groups touch the border.
pub open spec fn bordering(m: ForegroundMask, p: ConfidenceParams, groups: Seq<IconGroup>) -> spec_fn(int) -> bool {
    |i: int| touches_border(m, p, groups[i].bbox)
}

/// An axis with valleys whose regularity lies in the weak band.
pub open spec fn is_weak_axis(valleys: int, pitch: Pitch, on_grid: bool, p: ConfidenceParams) -> bool {
    &&& !on_grid
    &&& valleys >= 2
    &&& if pitch.median == 0 {
        p.weak_grid_lo == 0
    } else {
        p.weak_grid_lo * pitch.median <= (pitch.median - pitch.mad) * 1000 <= p.weak_grid_hi
            * pitch.median
    }
}

/// How many axes are weak.
pub open spec fn weak_axes(h: GridHint, p: ConfidenceParams) -> int {
    (if is_weak_axis(h.valley_x@.len() as int, h.pitch_x, h.grid_x, p) {
        1int
    } else {
        0
    }) + (if is_weak_axis(h.valley_y@.len() as int, h.pitch_y, h.grid_y, p) {
        1int
    } else {
        0
    })
}

/// Doubt about a background: full for the weak detectors, else a ramp below the
/// least consensus.
pub open spec fn doubt_of(b: BackgroundModel, p: ConfidenceParams) -> Ratio {
    let least = p.background_consensus_min as int;
    let den = b.consensus.den as int;
    let short = least * den - 1000 * b.consensus.num;
    if b.kind == BackgroundKind::KMeans || b.kind == BackgroundKind::Otsu {
        ratio::one()
    } else if least == 0 {
        if b.consensus.num == 0 {
            ratio::one()
        } else {
            ratio::zero()
        }
    } else if short <= 0 {
        ratio::zero()
    } else {
        Ratio { num: short as u128, den: (least * den) as u128 }
    }
}

/// The signals of an input.
pub open spec fn are_signals(i: ScoreInput, p: ConfidenceParams, s: ConfidenceSignals) -> bool {
    let n = i.groups@.len() as int;
    let w = warnings_upto(i.groups@, i.restored@, *i.hint, p.span_tolerance as int, n);
    let merged = ratio::share_of(i.merges as int, n + i.merges);
    &&& s.spans == ratio::share_of(w.len() as int, n)
    &&& s.merge_ratio == ratio::ramp_of(
        merged.num as int,
        merged.den as int,
        p.merge_ratio_lo as int,
        p.merge_ratio_hi as int,
    )
    &&& is_size_spread(i.groups@, p, s.size_mad)
    &&& s.border_touch == ratio::share_of(
        counting::count_below(bordering(*i.mask, p, i.groups@), n),
        n,
    )
    &&& s.weak_grid == (Ratio { num: weak_axes(*i.hint, p) as u128, den: 2 })
    &&& s.uncertain_background == (match i.background {
        Some(b) => doubt_of(*b, p),
        None => ratio::zero(),
    })
}

/// Weight times signal, in billionths, rounded down.
pub open spec fn deduction_of(w: int, s: Ratio) -> int {
    w * 1_000_000 * s.num / (s.den as int)
}

/// All deductions of a set of signals.
pub open spec fn total_deduction(p: ConfidenceParams, s: ConfidenceSignals) -> int {
    deduction_of(p.w_spans as int, s.spans) + deduction_of(p.w_merge as int, s.merge_ratio)
        + deduction_of(p.w_size_mad as int, s.size_mad) + deduction_of(
        p.w_border as int,
        s.border_touch,
    ) + deduction_of(p.w_weak_grid as int, s.weak_grid) + deduction_of(
        p.w_background as int,
        s.uncertain_background,
    )
}

/// `r` is the report of an input.
pub open spec fn is_report(i: ScoreInput, p: ConfidenceParams, r: ConfidenceReport) -> bool {
    if !p.enabled {
        is_perfect(r)
    } else {
        let n = i.groups@.len() as int;
        &&& r.warnings@ == warnings_upto(i.groups@, i.restored@, *i.hint, p.span_tolerance as int, n)
        &&& r.review_groups == r.warnings@.len()
        &&& are_signals(i, p, r.signals)
        &&& forall|k: SignalKind|
            #![trigger signal_index(k)]
            r.deductions@[signal_index(k)] == deduction_of(
                weight_of(p, k) as int,
                signal_of(r.signals, k),
            )
        &&& r.score == (if total_deduction(p, r.signals) >= FULL_SCORE {
            0
        } else {
            FULL_SCORE - total_deduction(p, r.signals)
        })
    }
}

/// The input is well formed.
pub open spec fn input_ok(i: ScoreInput) -> bool {
    &&& i.groups@.len() <= u32::MAX
    &&& i.hint.valley_x@.len() <= u32::MAX
    &&& i.hint.valley_y@.len() <= u32::MAX
    &&& match i.background {
        Some(b) => crate::background::model_ok(*b),
        None => true,
    }
}

fn list_has_box(list: &Vec<IconGroup>, b: Bbox) -> (r: bool)
    ensures
        r == has_box(list@, b),
{
    let mut i: usize = 0;
    while i < list.len()
        invariant
            i <= list@.len(),
            forall|k: int| 0 <= k < i ==> (#[trigger] list@[k]).bbox != b,
        decreases list@.len() - i,
    {
        if list[i].bbox == b {
            return true;
        }
        i = i + 1;
    }
    false
}

proof fn warnings_bound(groups: Seq<IconGroup>, restored: Seq<IconGroup>, h: GridHint, tol: int, n: int)
    requires
        0 <= n,
    ensures
        warnings_upto(groups, restored, h, tol, n).len() <= n,
    decreases n,
{
    if n > 0 {
        warnings_bound(groups, restored, h, tol, n - 1);
    }
}

/// The groups that need review.
pub fn warnings(groups: &Vec<IconGroup>, restored: &Vec<IconGroup>, hint: &GridHint, span_tolerance: u32) -> (r: Vec<GroupWarning>)
    requires
        groups@.len() <= u32::MAX,
        hint.valley_x@.len() <= u32::MAX,
        hint.valley_y@.len() <= u32::MAX,
    ensures
        r@ == warnings_upto(groups@, restored@, *hint, span_tolerance as int, groups@.len() as int),
        r@.len() <= groups@.len(),
{
    let mut out: Vec<GroupWarning> = Vec::new();
    let mut i: usize = 0;
    while i < groups.len()
        invariant
            i <= groups@.len(),
            groups@.len() <= u32::MAX,
            hint.valley_x@.len() <= u32::MAX,
            hint.valley_y@.len() <= u32::MAX,
            out@ == warnings_upto(groups@, restored@, *hint, span_tolerance as int, i as int),
        decreases groups@.len() - i,
    {
        let b = groups[i].bbox;
        let spans: bool = match grid::classify(&b, hint, span_tolerance) {
            GridFit::SpansMultipleCells { axes: _ } => true,
            _ => false,
        };
        if spans {
            out.push(GroupWarning { group: i as u32, kind: WarningKind::SpansMultipleCells });
        } else if list_has_box(restored, b) {
            out.push(GroupWarning { group: i as u32, kind: WarningKind::RestoredFromMerge });
        }
        i = i + 1;
    }
    proof {
        warnings_bound(groups@, restored@, *hint, span_tolerance as int, groups@.len() as int);
    }
    out
}

/// The size-spread signal.
pub fn size_spread(groups: &Vec<IconGroup>, params: &ConfidenceParams) -> (r: Ratio)
    ensures
        is_size_spread(groups@, *params, r),
        0 < r.den <= 0x10_0000_0000 * 0xffff_ffff,
        r.num <= r.den,
{
    let mut sizes: Vec<u64> = Vec::new();
    let mut i: usize = 0;
    while i < groups.len()
        invariant
            i <= groups@.len(),
            sizes@.len() == i,
            forall|k: int| 0 <= k < i ==> #[trigger] sizes@[k] == sizes_of(groups@)[k],
            median::all_at_most(sizes@, 0xffff_ffff),
        decreases groups@.len() - i,
    {
        let b = groups[i].bbox;
        sizes.push(
            if b.w <= b.h {
                b.w as u64
            } else {
                b.h as u64
            },
        );
        i = i + 1;
    }
    assert(sizes@ =~= sizes_of(groups@));
    let m2: u64 = median::median2(&sizes);
    assert(m2 <= 2 * 0xffff_ffff) by {
        assert(median::all_at_most(sizes@, 0xffff_ffff));
    }
    let mut dev: Vec<u64> = Vec::new();
    let mut i: usize = 0;
    while i < sizes.len()
        invariant
            i <= sizes@.len(),
            dev@.len() == i,
            m2 <= 2 * 0xffff_ffff,
            median::all_at_most(sizes@, 0xffff_ffff),
            forall|k: int| 0 <= k < i ==> #[trigger] dev@[k] == spread_of(sizes@, m2 as int)[k],
            median::all_at_most(dev@, 0x1_ffff_fffe),
        decreases sizes@.len() - i,
    {
        let s: u64 = sizes[i];
        assert(s <= 0xffff_ffff);
        dev.push(
            if 2 * s >= m2 {
                2 * s - m2
            } else {
                m2 - 2 * s
            },
        );
        i = i + 1;
    }
    assert(dev@ =~= spread_of(sizes@, m2 as int));
    let d4: u64 = median::median2(&dev);
    assert(d4 <= 2 * 0x1_ffff_fffe) by {
        assert(median::all_at_most(dev@, 0x1_ffff_fffe));
    }
    if groups.len() == 0 || m2 == 0 {
        Ratio { num: 0, den: 1 }
    } else {
        ratio::ramp(d4 as u128, 2 * m2 as u128, params.size_mad_lo, params.size_mad_hi)
    }
}

fn in_margin(mask: &ForegroundMask, params: &ConfidenceParams, b: Bbox) -> (r: bool)
    ensures
        r == touches_border(*mask, *params, b),
{
    let side: u32 = if mask.width <= mask.height {
        mask.width
    } else {
        mask.height
    };
    assert(params.border_margin_frac * side <= 0xffff_ffff * 0xffff_ffff) by (nonlinear_arith)
        requires
            params.border_margin_frac <= 0xffff_ffff,
            side <= 0xffff_ffff,
    ;
    let scaled: u128 = params.border_margin_frac as u128 * side as u128;
    let margin: u128 = if scaled <= 1000 {
        1000
    } else {
        scaled
    };
    let x: u128 = b.x as u128;
    let y: u128 = b.y as u128;
    x * 1000 <= margin || y * 1000 <= margin || (x + b.w as u128) * 1000 + margin
        >= mask.width as u128 * 1000 || (y + b.h as u128) * 1000 + margin >= mask.height as u128
        * 1000
}

/// The border signal.
pub fn border_share(groups: &Vec<IconGroup>, mask: &ForegroundMask, params: &ConfidenceParams) -> (r: Ratio)
    requires
        groups@.len() <= u32::MAX,
    ensures
        r == ratio::share_of(
            counting::count_below(bordering(*mask, *params, groups@), groups@.len() as int),
            groups@.len() as int,
        ),
        0 < r.den <= 0xffff_ffff,
        r.num <= r.den,
{
    let mut touched: u64 = 0;
    let mut i: usize = 0;
    while i < groups.len()
        invariant
            i <= groups@.len(),
            touched <= i,
            groups@.len() <= u32::MAX,
            touched == counting::count_below(bordering(*mask, *params, groups@), i as int),
        decreases groups@.len() - i,
    {
        if in_margin(mask, params, groups[i].bbox) {
            touched = touched + 1;
        }
        i = i + 1;
    }
    ratio::share(touched, groups.len() as u64)
}

fn weak_axis(valleys: usize, pitch: Pitch, on_grid: bool, params: &ConfidenceParams) -> (r: bool)
    ensures
        r == is_weak_axis(valleys as int, pitch, on_grid, *params),
{
    if on_grid || valleys < 2 {
        return false;
    }
    if pitch.median == 0 {
        return params.weak_grid_lo == 0;
    }
    let m: u128 = pitch.median as u128;
    assert(params.weak_grid_lo * m <= 0xffff_ffff * 0xffff_ffff_ffff_ffff && params.weak_grid_hi * m
        <= 0xffff_ffff * 0xffff_ffff_ffff_ffff && params.weak_grid_lo * m >= 0) by (nonlinear_arith)
        requires
            params.weak_grid_lo <= 0xffff_ffff,
            params.weak_grid_hi <= 0xffff_ffff,
            m <= 0xffff_ffff_ffff_ffff,
    ;
    if pitch.mad > pitch.median {
        return false;
    }
    let reg: u128 = (pitch.median - pitch.mad) as u128 * 1000;
    params.weak_grid_lo as u128 * m <= reg && reg <= params.weak_grid_hi as u128 * m
}

/// The weak-grid signal.
pub fn weak_grid_share(hint: &GridHint, params: &ConfidenceParams) -> (r: Ratio)
    ensures
        r == (Ratio { num: weak_axes(*hint, *params) as u128, den: 2 }),
        r.num <= 2,
{
    let mut weak: u128 = 0;
    if weak_axis(hint.valley_x.len(), hint.pitch_x, hint.grid_x, params) {
        weak = weak + 1;
    }
    if weak_axis(hint.valley_y.len(), hint.pitch_y, hint.grid_y, params) {
        weak = weak + 1;
    }
    Ratio { num: weak, den: 2 }
}

/// The background signal.
pub fn background_doubt(b: &BackgroundModel, params: &ConfidenceParams) -> (r: Ratio)
    requires
        crate::background::model_ok(*b),
    ensures
        r == doubt_of(*b, *params),
        0 < r.den <= 0xffff_ffff * 0xffff_ffff,
        r.num <= r.den,
{
    match b.kind {
        BackgroundKind::KMeans | BackgroundKind::Otsu => {
            return Ratio { num: 1, den: 1 };
        },
        _ => {},
    }
    let least: u128 = params.background_consensus_min as u128;
    if least == 0 {
        return if b.consensus.num == 0 {
            Ratio { num: 1, den: 1 }
        } else {
            Ratio { num: 0, den: 1 }
        };
    }
    assert(least <= least * b.consensus.den <= 0xffff_ffff * 0xffff_ffff) by (nonlinear_arith)
        requires
            least <= 0xffff_ffff,
            1 <= b.consensus.den <= 0xffff_ffff,
    ;
    let full: u128 = least * b.consensus.den;
    if full <= 1000 * b.consensus.num {
        Ratio { num: 0, den: 1 }
    } else {
        Ratio { num: full - 1000 * b.consensus.num, den: full }
    }
}

/// Weight times signal, in billionths.
pub fn deduct(w: Milli, s: Ratio) -> (r: u64)
    requires
        0 < s.den <= 0x10_0000_0000 * 0xffff_ffff,
        s.num <= s.den,
    ensures
        r == deduction_of(w as int, s),
        r <= w * 1_000_000,
{
    let scaled: u128 = w as u128 * 1_000_000;
    assert(scaled * s.num <= scaled * s.den && scaled * s.den <= 0xffff_ffff * 1_000_000 * (
    0x10_0000_0000 * 0xffff_ffff)) by (nonlinear_arith)
        requires
            scaled <= 0xffff_ffff * 1_000_000,
            s.num <= s.den,
            s.den <= 0x10_0000_0000 * 0xffff_ffff,
    ;
    assert((scaled * s.num) / (s.den as int) <= scaled && (scaled * s.num) / (s.den as int) >= 0)
        by (nonlinear_arith)
        requires
            scaled * s.num <= scaled * s.den,
            scaled * s.num >= 0,
            s.den > 0,
    ;
    assert(scaled * s.num >= 0) by (nonlinear_arith);
    ((scaled * s.num) / s.den) as u64
}

/// Scores a final group list.
pub fn score_groups(input: ScoreInput<'_>, params: &ConfidenceParams) -> (r: ConfidenceReport)
    requires
        input_ok(input),
    ensures
        is_report(input, *params, r),
{
    if !params.enabled {
        return ConfidenceReport::default();
    }
    let warned = warnings(input.groups, input.restored, input.hint, params.span_tolerance);
    let n: u64 = input.groups.len() as u64;
    let merged = ratio::share(input.merges as u64, n + input.merges as u64);
    let signals = ConfidenceSignals {
        spans: ratio::share(warned.len() as u64, n),
        merge_ratio: ratio::ramp(
            merged.num,
            merged.den,
            params.merge_ratio_lo,
            params.merge_ratio_hi,
        ),
        size_mad: size_spread(input.groups, params),
        border_touch: border_share(input.groups, input.mask, params),
        weak_grid: weak_grid_share(input.hint, params),
        uncertain_background: match input.background {
            Some(b) => background_doubt(b, params),
            None => Ratio { num: 0, den: 1 },
        },
    };
    let deductions: [u64; 6] = [
        deduct(params.w_spans, signals.spans),
        deduct(params.w_merge, signals.merge_ratio),
        deduct(params.w_size_mad, signals.size_mad),
        deduct(params.w_border, signals.border_touch),
        deduct(params.w_weak_grid, signals.weak_grid),
        deduct(params.w_background, signals.uncertain_background),
    ];
    let total: u64 = deductions[0] + deductions[1] + deductions[2] + deductions[3] + deductions[4]
        + deductions[5];
    let score: u64 = if total >= FULL_SCORE {
        0
    } else {
        FULL_SCORE - total
    };
    let review_groups: u32 = warned.len() as u32;
    ConfidenceReport { score, signals, deductions, warnings: warned, review_groups }
}

/// A score never leaves `0..=1`, and with the standard weights and no signal it
/// is one.
pub proof fn score_is_bounded(i: ScoreInput, p: ConfidenceParams, r: ConfidenceReport)
    requires
        is_report(i, p, r),
    ensures
        r.score <= FULL_SCORE,
        p.enabled && total_deduction(p, r.signals) == 0 ==> r.score == FULL_SCORE,
        total_deduction(p, r.signals) > 0 && p.enabled ==> r.score < FULL_SCORE,
{
    if p.enabled && total_deduction(p, r.signals) < 0 {
        assert(r.deductions@[signal_index(SignalKind::SpansMultipleCells)] >= 0);
        assert(r.deductions@[signal_index(SignalKind::HighMergeRatio)] >= 0);
        assert(r.deductions@[signal_index(SignalKind::SizeMad)] >= 0);
        assert(r.deductions@[signal_index(SignalKind::BorderTouch)] >= 0);
        assert(r.deductions@[signal_index(SignalKind::WeakGrid)] >= 0);
        assert(r.deductions@[signal_index(SignalKind::UncertainBackground)] >= 0);
    }
}

/// Two reports are the same.
pub open spec fn same_report(a: ConfidenceReport, b: ConfidenceReport) -> bool {
    &&& a.score == b.score
    &&& a.signals == b.signals
    &&& a.deductions@ == b.deductions@
    &&& a.warnings@ == b.warnings@
    &&& a.review_groups == b.review_groups
}

/// Two inputs are the same.
pub open spec fn same_input(a: ScoreInput, b: ScoreInput) -> bool {
    &&& a.groups@ == b.groups@
    &&& *a.mask == *b.mask
    &&& a.merges == b.merges
    &&& a.restored@ == b.restored@
    &&& grid::same_hint(*a.hint, *b.hint)
    &&& match (a.background, b.background) {
        (Some(x), Some(y)) => *x == *y,
        (None, None) => true,
        _ => false,
    }
}

proof fn warnings_agree(
    groups: Seq<IconGroup>,
    restored: Seq<IconGroup>,
    a: GridHint,
    b: GridHint,
    tol: int,
    n: int,
)
    requires
        grid::same_hint(a, b),
    ensures
        warnings_upto(groups, restored, a, tol, n) == warnings_upto(groups, restored, b, tol, n),
    decreases n,
{
    if n > 0 {
        warnings_agree(groups, restored, a, b, tol, n - 1);
    }
}

/// Reports that measured nothing are the same.
pub proof fn perfect_reports_are_same(a: ConfidenceReport, b: ConfidenceReport)
    requires
        is_perfect(a),
        is_perfect(b),
    ensures
        same_report(a, b),
{
    assert(a.deductions@ =~= b.deductions@);
    assert(a.warnings@ =~= b.warnings@);
}

/// An input has one report under given parameters.
pub proof fn report_is_determined(
    i: ScoreInput,
    j: ScoreInput,
    p: ConfidenceParams,
    a: ConfidenceReport,
    b: ConfidenceReport,
)
    requires
        same_input(i, j),
        is_report(i, p, a),
        is_report(j, p, b),
    ensures
        same_report(a, b),
{
    if !p.enabled {
        perfect_reports_are_same(a, b);
    } else {
        let gs = i.groups@;
        let n = gs.len() as int;
        warnings_agree(gs, i.restored@, *i.hint, *j.hint, p.span_tolerance as int, n);
        let (m1, d1) = choose|m2: int, d4: int|
            #![trigger median::is_median2(sizes_of(gs), m2),
                median::is_median2(spread_of(sizes_of(gs), m2), d4)]
            median::is_median2(sizes_of(gs), m2) && median::is_median2(
                spread_of(sizes_of(gs), m2),
                d4,
            ) && a.signals.size_mad == (if gs.len() == 0 || m2 == 0 {
                ratio::zero()
            } else {
                ratio::ramp_of(d4, 2 * m2, p.size_mad_lo as int, p.size_mad_hi as int)
            });
        let (m2, d2) = choose|m2: int, d4: int|
            #![trigger median::is_median2(sizes_of(gs), m2),
                median::is_median2(spread_of(sizes_of(gs), m2), d4)]
            median::is_median2(sizes_of(gs), m2) && median::is_median2(
                spread_of(sizes_of(gs), m2),
                d4,
            ) && b.signals.size_mad == (if gs.len() == 0 || m2 == 0 {
                ratio::zero()
            } else {
                ratio::ramp_of(d4, 2 * m2, p.size_mad_lo as int, p.size_mad_hi as int)
            });
        median::median_is_unique(sizes_of(gs), m1, m2);
        median::median_is_unique(spread_of(sizes_of(gs), m1), d1, d2);
        assert(a.signals == b.signals);
        assert forall|t: int| 0 <= t < 6 implies a.deductions@[t] == b.deductions@[t] by {
            let k = if t == 0 {
                SignalKind::SpansMultipleCells
            } else if t == 1 {
                SignalKind::HighMergeRatio
            } else if t == 2 {
                SignalKind::SizeMad
            } else if t == 3 {
                SignalKind::BorderTouch
            } else if t == 4 {
                SignalKind::WeakGrid
            } else {
                SignalKind::UncertainBackground
            };
            assert(signal_index(k) == t);
        }
        assert(a.deductions@ =~= b.deductions@);
    }
}

// ---- what a report says -------------------------------------------------------------

/// The deduction is the weight's share of the signal in billionths, rounded down.
pub open spec fn is_deducted(weight: u32, signal: Ratio, d: u64) -> bool {
    d * signal.den <= 1_000_000 * (weight * signal.num) < (d + 1) * signal.den
}

proof fn deduction_is_rounded(w: u32, s: Ratio, d: u64)
    requires
        s.den > 0,
        d == deduction_of(w as int, s),
    ensures
        is_deducted(w, s, d),
{
    let p = w * 1_000_000 * s.num;
    let q = 1_000_000 * (w * s.num);
    assert(p == q) by (nonlinear_arith)
        requires
            p == w * 1_000_000 * s.num,
            q == 1_000_000 * (w * s.num),
    ;
    counting::quotient_sides(p, s.den as int);
}

/// Each deduction is its own weight's share of its own signal, in the order of the
/// signals, and the score is one billion less all six, or zero where they come to
/// more.
pub proof fn score_is_what_deductions_leave(i: ScoreInput, p: ConfidenceParams, r: ConfidenceReport)
    requires
        is_report(i, p, r),
        p.enabled,
        r.signals.spans.den > 0,
        r.signals.merge_ratio.den > 0,
        r.signals.size_mad.den > 0,
        r.signals.border_touch.den > 0,
        r.signals.weak_grid.den > 0,
        r.signals.uncertain_background.den > 0,
    ensures
        is_deducted(p.w_spans, r.signals.spans, r.deductions@[0]),
        is_deducted(p.w_merge, r.signals.merge_ratio, r.deductions@[1]),
        is_deducted(p.w_size_mad, r.signals.size_mad, r.deductions@[2]),
        is_deducted(p.w_border, r.signals.border_touch, r.deductions@[3]),
        is_deducted(p.w_weak_grid, r.signals.weak_grid, r.deductions@[4]),
        is_deducted(p.w_background, r.signals.uncertain_background, r.deductions@[5]),
        ({
            let taken = r.deductions@[0] + r.deductions@[1] + r.deductions@[2] + r.deductions@[3]
                + r.deductions@[4] + r.deductions@[5];
            if taken <= 1_000_000_000 {
                r.score == 1_000_000_000 - taken
            } else {
                r.score == 0
            }
        }),
{
    assert(signal_index(SignalKind::SpansMultipleCells) == 0);
    assert(signal_index(SignalKind::HighMergeRatio) == 1);
    assert(signal_index(SignalKind::SizeMad) == 2);
    assert(signal_index(SignalKind::BorderTouch) == 3);
    assert(signal_index(SignalKind::WeakGrid) == 4);
    assert(signal_index(SignalKind::UncertainBackground) == 5);
    deduction_is_rounded(p.w_spans, r.signals.spans, r.deductions@[0]);
    deduction_is_rounded(p.w_merge, r.signals.merge_ratio, r.deductions@[1]);
    deduction_is_rounded(p.w_size_mad, r.signals.size_mad, r.deductions@[2]);
    deduction_is_rounded(p.w_border, r.signals.border_touch, r.deductions@[3]);
    deduction_is_rounded(p.w_weak_grid, r.signals.weak_grid, r.deductions@[4]);
    deduction_is_rounded(p.w_background, r.signals.uncertain_background, r.deductions@[5]);
}

/// The percentage is the score rounded to the nearest hundredth.
pub proof fn percent_is_nearest(score: int, r: int)
    requires
        0 <= score <= 1_000_000_000,
        r == percent_of(score),
    ensures
        10_000_000 * r - 5_000_000 <= score < 10_000_000 * r + 5_000_000,
{
}

/// Group `i` lies within the margin of some side of the sheet. The margin is the
/// given fraction of the sheet's shorter side, and at least one pixel.
pub open spec fn is_at_the_edge(m: ForegroundMask, frac: u32, b: Bbox) -> bool {
    let wide = (m.width <= m.height && 1000 * b.x <= frac * m.width) || (m.height <= m.width && 1000 * b.x <= frac
        * m.height);
    let high = (m.width <= m.height && 1000 * b.y <= frac * m.width) || (m.height <= m.width && 1000 * b.y <= frac
        * m.height);
    let right = m.width - (b.x + b.w);
    let below = m.height - (b.y + b.h);
    ||| b.x <= 1
    ||| b.y <= 1
    ||| right <= 1
    ||| below <= 1
    ||| wide
    ||| high
    ||| (m.width <= m.height && (1000 * right <= frac * m.width || 1000 * below <= frac * m.width))
    ||| (m.height <= m.width && (1000 * right <= frac * m.height || 1000 * below <= frac * m.height))
}

/// The border signal is the share of the groups that lie at an edge.
pub proof fn border_signal_counts_edge_groups(i: ScoreInput, p: ConfidenceParams, r: ConfidenceReport)
    requires
        is_report(i, p, r),
        p.enabled,
        0 < i.groups@.len() <= u32::MAX,
    ensures
        r.signals.border_touch.num == counting::count_below(
            |k: int| is_at_the_edge(*i.mask, p.border_margin_frac, i.groups@[k].bbox),
            i.groups@.len() as int,
        ),
        r.signals.border_touch.den == i.groups@.len(),
{
    let n = i.groups@.len() as int;
    let f = |k: int| is_at_the_edge(*i.mask, p.border_margin_frac, i.groups@[k].bbox);
    let g = bordering(*i.mask, p, i.groups@);
    assert forall|k: int| 0 <= k < n implies #[trigger] f(k) == g(k) by {
        let b = i.groups@[k].bbox;
        assert(touches_border(*i.mask, p, b) == is_at_the_edge(*i.mask, p.border_margin_frac, b));
    }
    counting::count_ext(f, g, n);
    counting::count_bounds(f, n);
}

/// The box reaches over a valley of a grid axis by at least the tolerance on both
/// sides.
pub open spec fn reaches_over_a_valley(b: Bbox, h: GridHint, tol: int) -> bool {
    ||| h.grid_x && exists|k: int|
        0 <= k < h.valley_x@.len() && b.x + tol <= #[trigger] h.valley_x@[k] && h.valley_x@[k] + tol < b.x + b.w
    ||| h.grid_y && exists|k: int|
        0 <= k < h.valley_y@.len() && b.y + tol <= #[trigger] h.valley_y@[k] && h.valley_y@[k] + tol < b.y + b.h
}

/// Warnings name, in ascending order, exactly the groups that reach over a valley
/// or that were restored from a merge; the first reason goes before the second.
pub proof fn warnings_name_what_needs_review(
    groups: Seq<IconGroup>,
    restored: Seq<IconGroup>,
    h: GridHint,
    tol: int,
    r: Seq<GroupWarning>,
    g: int,
)
    requires
        r == warnings_upto(groups, restored, h, tol, groups.len() as int),
        groups.len() <= u32::MAX,
        0 <= g < groups.len(),
        groups[g].bbox.w > 0,
        groups[g].bbox.h > 0,
        tol >= 0,
        forall|i: int, j: int|
            0 <= i < j < h.valley_x@.len() ==> #[trigger] h.valley_x@[i] < #[trigger] h.valley_x@[j],
        forall|i: int, j: int|
            0 <= i < j < h.valley_y@.len() ==> #[trigger] h.valley_y@[i] < #[trigger] h.valley_y@[j],
    ensures
        r.contains(GroupWarning { group: g as u32, kind: WarningKind::SpansMultipleCells })
            == reaches_over_a_valley(groups[g].bbox, h, tol),
        r.contains(GroupWarning { group: g as u32, kind: WarningKind::RestoredFromMerge }) == (
        !reaches_over_a_valley(groups[g].bbox, h, tol) && exists|i: int|
            0 <= i < restored.len() && (#[trigger] restored[i]).bbox == groups[g].bbox),
        forall|i: int, j: int| 0 <= i < j < r.len() ==> (#[trigger] r[i]).group < (#[trigger] r[j]).group,
{
    let n = groups.len() as int;
    listed_warnings(groups, restored, h, tol, n);
    spanning_is_reaching(groups[g].bbox, h, tol);
}

/// A box spans several cells exactly where it reaches over a valley.
pub proof fn spanning_is_reaching(b: Bbox, h: GridHint, tol: int)
    requires
        b.w > 0,
        b.h > 0,
        tol >= 0,
        forall|i: int, j: int|
            0 <= i < j < h.valley_x@.len() ==> #[trigger] h.valley_x@[i] < #[trigger] h.valley_x@[j],
        forall|i: int, j: int|
            0 <= i < j < h.valley_y@.len() ==> #[trigger] h.valley_y@[i] < #[trigger] h.valley_y@[j],
    ensures
        grid::spans_cells(b, h, tol) == reaches_over_a_valley(b, h, tol),
{
    crossing_is_reaching(b.x as int, b.right() - 1, h.valley_x@, tol);
    crossing_is_reaching(b.y as int, b.bottom() - 1, h.valley_y@, tol);
}

proof fn crossing_is_reaching(lo: int, hi: int, valleys: Seq<u32>, tol: int)
    requires
        tol >= 0,
        forall|i: int, j: int| 0 <= i < j < valleys.len() ==> #[trigger] valleys[i] < #[trigger] valleys[j],
    ensures
        grid::is_crossed(lo, hi, valleys, tol) == (exists|k: int|
            0 <= k < valleys.len() && lo + tol <= #[trigger] valleys[k] && valleys[k] + tol < hi + 1),
{
    if exists|k: int| 0 <= k < valleys.len() && lo + tol <= #[trigger] valleys[k] && valleys[k] + tol < hi + 1 {
        let k = choose|k: int|
            0 <= k < valleys.len() && lo + tol <= #[trigger] valleys[k] && valleys[k] + tol < hi + 1;
        assert forall|i: int| 0 <= i <= k implies #[trigger] valleys[i] <= hi by {
            if i < k {
                assert(valleys[i] < valleys[k]);
            }
        }
        assert(grid::crosses_at(lo, hi, valleys, tol, k));
    }
}

proof fn listed_warnings(groups: Seq<IconGroup>, restored: Seq<IconGroup>, h: GridHint, tol: int, n: int)
    requires
        0 <= n <= groups.len() <= u32::MAX,
    ensures
        forall|i: int|
            0 <= i < warnings_upto(groups, restored, h, tol, n).len() ==> 0 <= (#[trigger] warnings_upto(
                groups,
                restored,
                h,
                tol,
                n,
            )[i]).group < n,
        forall|i: int, j: int|
            0 <= i < j < warnings_upto(groups, restored, h, tol, n).len() ==> (#[trigger] warnings_upto(
                groups,
                restored,
                h,
                tol,
                n,
            )[i]).group < (#[trigger] warnings_upto(groups, restored, h, tol, n)[j]).group,
        forall|g: int, kind: WarningKind|
            0 <= g < n ==> #[trigger] warnings_upto(groups, restored, h, tol, n).contains(
                GroupWarning { group: g as u32, kind },
            ) == (warning_of(groups[g], restored, h, tol) == Some(kind)),
    decreases n,
{
    if n > 0 {
        listed_warnings(groups, restored, h, tol, n - 1);
        let before = warnings_upto(groups, restored, h, tol, n - 1);
        let now = warnings_upto(groups, restored, h, tol, n);
        assert forall|g: int, kind: WarningKind| 0 <= g < n implies #[trigger] now.contains(
            GroupWarning { group: g as u32, kind },
        ) == (warning_of(groups[g], restored, h, tol) == Some(kind)) by {
            let w = GroupWarning { group: g as u32, kind };
            if g < n - 1 {
                if before.contains(w) {
                    let i = choose|i: int| 0 <= i < before.len() && before[i] == w;
                    assert(now[i] == w);
                }
                if now.contains(w) {
                    let i = choose|i: int| 0 <= i < now.len() && now[i] == w;
                    assert(i < before.len());
                    assert(before[i] == w);
                }
            } else {
                if now.contains(w) {
                    let i = choose|i: int| 0 <= i < now.len() && now[i] == w;
                    if i < before.len() {
                        assert(before[i].group < n - 1);
                    }
                }
                if warning_of(groups[g], restored, h, tol) == Some(kind) {
                    assert(now[before.len() as int] == w);
                }
            }
        }
    }
}

/// How doubtful a background is: clustered and luma models wholly; any other by
/// how far its consensus falls short of the least accepted one.
pub proof fn doubt_is_the_missing_consensus(b: BackgroundModel, p: ConfidenceParams, r: Ratio)
    requires
        r == doubt_of(b, p),
        crate::background::model_ok(b),
        p.background_consensus_min > 0,
        b.consensus.den > 0,
        b.consensus.den <= u32::MAX,
    ensures
        b.kind == BackgroundKind::KMeans || b.kind == BackgroundKind::Otsu ==> r.num == r.den && r.den > 0,
        b.kind != BackgroundKind::KMeans && b.kind != BackgroundKind::Otsu ==> {
            &&& r.den > 0
            &&& 1000 * b.consensus.num >= p.background_consensus_min * b.consensus.den ==> r.num == 0
            &&& 1000 * b.consensus.num < p.background_consensus_min * b.consensus.den ==> r.num * (
            p.background_consensus_min * b.consensus.den) == (p.background_consensus_min * b.consensus.den - 1000
                * b.consensus.num) * r.den
        },
{
    let full = p.background_consensus_min * b.consensus.den;
    assert(0 < full <= 0xffff_ffff * 0xffff_ffff) by (nonlinear_arith)
        requires
            full == p.background_consensus_min * b.consensus.den,
            0 < p.background_consensus_min <= 0xffff_ffff,
            0 < b.consensus.den <= 0xffff_ffff,
    ;
    let short = full - 1000 * b.consensus.num;
    if b.kind != BackgroundKind::KMeans && b.kind != BackgroundKind::Otsu && short > 0 {
        assert(r.num == short && r.den == full);
        assert(r.num * full == short * r.den) by (nonlinear_arith)
            requires
                r.num == short,
                r.den == full,
        ;
    }
}

/// The merge signal ramps the merged components' share of all components.
pub proof fn merge_signal_ramps_the_merged_share(i: ScoreInput, p: ConfidenceParams, r: ConfidenceReport)
    requires
        is_report(i, p, r),
        p.enabled,
        i.groups@.len() <= u32::MAX,
        p.merge_ratio_lo < p.merge_ratio_hi,
        i.groups@.len() + i.merges > 0,
    ensures
        ({
            let all = i.groups@.len() + i.merges;
            let s = r.signals.merge_ratio;
            &&& s.den > 0
            &&& 1000 * i.merges <= p.merge_ratio_lo * all ==> s.num == 0
            &&& 1000 * i.merges >= p.merge_ratio_hi * all ==> s.num == s.den
            &&& p.merge_ratio_lo * all <= 1000 * i.merges <= p.merge_ratio_hi * all ==> s.num * ((
            p.merge_ratio_hi - p.merge_ratio_lo) * all) == (1000 * i.merges - p.merge_ratio_lo * all) * s.den
        }),
{
    ratio::ramp_measures_the_way(
        i.merges as int,
        i.groups@.len() + i.merges,
        p.merge_ratio_lo as int,
        p.merge_ratio_hi as int,
        r.signals.merge_ratio,
    );
}

/// The size signal ramps the median distance of the groups' shorter sides from
/// their median, as a part of that median. The doubled medians are returned.
pub proof fn size_signal_ramps_the_spread(i: ScoreInput, p: ConfidenceParams, r: ConfidenceReport) -> (m: (int, int))
    requires
        is_report(i, p, r),
        p.enabled,
        0 < i.groups@.len() <= u32::MAX,
        p.size_mad_lo < p.size_mad_hi,
    ensures
        median::is_median2(
            Seq::new(
                i.groups@.len(),
                |k: int|
                    if i.groups@[k].bbox.w <= i.groups@[k].bbox.h {
                        i.groups@[k].bbox.w as u64
                    } else {
                        i.groups@[k].bbox.h as u64
                    },
            ),
            m.0,
        ),
        median::is_median2(
            Seq::new(
                i.groups@.len(),
                |k: int|
                    {
                        let side = if i.groups@[k].bbox.w <= i.groups@[k].bbox.h {
                            i.groups@[k].bbox.w as int
                        } else {
                            i.groups@[k].bbox.h as int
                        };
                        if 2 * side >= m.0 {
                            (2 * side - m.0) as u64
                        } else {
                            (m.0 - 2 * side) as u64
                        }
                    },
            ),
            m.1,
        ),
        m.0 == 0 ==> r.signals.size_mad.num == 0,
        m.0 > 0 && 0 <= m.1 <= 0x10_0000_0000 && 2 * m.0 <= 0x10_0000_0000 ==> {
            let s = r.signals.size_mad;
            &&& s.den > 0
            &&& 1000 * m.1 <= p.size_mad_lo * (2 * m.0) ==> s.num == 0
            &&& 1000 * m.1 >= p.size_mad_hi * (2 * m.0) ==> s.num == s.den
            &&& p.size_mad_lo * (2 * m.0) <= 1000 * m.1 <= p.size_mad_hi * (2 * m.0) ==> s.num * ((p.size_mad_hi
                - p.size_mad_lo) * (2 * m.0)) == (1000 * m.1 - p.size_mad_lo * (2 * m.0)) * s.den
        },
{
    let groups = i.groups@;
    let (m2, d4) = choose|m2: int, d4: int|
        #![trigger median::is_median2(sizes_of(groups), m2),
            median::is_median2(spread_of(sizes_of(groups), m2), d4)]
        median::is_median2(sizes_of(groups), m2) && median::is_median2(spread_of(sizes_of(groups), m2), d4)
            && r.signals.size_mad == (if groups.len() == 0 || m2 == 0 {
            ratio::zero()
        } else {
            ratio::ramp_of(d4, 2 * m2, p.size_mad_lo as int, p.size_mad_hi as int)
        });
    let sides = Seq::new(
        groups.len(),
        |k: int|
            if groups[k].bbox.w <= groups[k].bbox.h {
                groups[k].bbox.w as u64
            } else {
                groups[k].bbox.h as u64
            },
    );
    assert(sides =~= sizes_of(groups));
    let far = Seq::new(
        groups.len(),
        |k: int|
            {
                let side = if groups[k].bbox.w <= groups[k].bbox.h {
                    groups[k].bbox.w as int
                } else {
                    groups[k].bbox.h as int
                };
                if 2 * side >= m2 {
                    (2 * side - m2) as u64
                } else {
                    (m2 - 2 * side) as u64
                }
            },
    );
    assert(far =~= spread_of(sizes_of(groups), m2));
    if m2 > 0 && 0 <= d4 <= 0x10_0000_0000 && 2 * m2 <= 0x10_0000_0000 {
        ratio::ramp_measures_the_way(d4, 2 * m2, p.size_mad_lo as int, p.size_mad_hi as int, r.signals.size_mad);
    }
    (m2, d4)
}

/// An axis counts as weak where it is no lattice, has at least two valleys, and
/// their regularity lies between the two bounds.
pub open spec fn is_halfway(valleys: int, pitch: Pitch, on_grid: bool, lo: u32, hi: u32) -> bool {
    !on_grid && valleys >= 2 && (pitch.median > 0 || lo == 0) && lo * pitch.median <= 1000 * (pitch.median - pitch.mad)
        <= hi * pitch.median
}

/// The grid signal is the share of the two axes that are weak, and the first signal
/// the share of the groups with a warning.
pub proof fn grid_signals_count_axes_and_warnings(i: ScoreInput, p: ConfidenceParams, r: ConfidenceReport)
    requires
        is_report(i, p, r),
        p.enabled,
        0 < i.groups@.len() <= u32::MAX,
        i.hint.pitch_x.median == 0 ==> i.hint.pitch_x.mad == 0,
        i.hint.pitch_y.median == 0 ==> i.hint.pitch_y.mad == 0,
    ensures
        r.signals.weak_grid.den == 2,
        r.signals.weak_grid.num == (if is_halfway(
            i.hint.valley_x@.len() as int,
            i.hint.pitch_x,
            i.hint.grid_x,
            p.weak_grid_lo,
            p.weak_grid_hi,
        ) {
            1int
        } else {
            0
        }) + (if is_halfway(
            i.hint.valley_y@.len() as int,
            i.hint.pitch_y,
            i.hint.grid_y,
            p.weak_grid_lo,
            p.weak_grid_hi,
        ) {
            1int
        } else {
            0
        }),
        r.signals.spans.num == r.warnings@.len(),
        r.signals.spans.den == i.groups@.len(),
        r.review_groups == r.warnings@.len(),
{
    halfway_is_weak(i.hint.valley_x@.len() as int, i.hint.pitch_x, i.hint.grid_x, p);
    halfway_is_weak(i.hint.valley_y@.len() as int, i.hint.pitch_y, i.hint.grid_y, p);
}

proof fn halfway_is_weak(valleys: int, pitch: Pitch, on_grid: bool, p: ConfidenceParams)
    requires
        pitch.median == 0 ==> pitch.mad == 0,
    ensures
        is_weak_axis(valleys, pitch, on_grid, p) == is_halfway(valleys, pitch, on_grid, p.weak_grid_lo, p.weak_grid_hi),
{
    let lo = p.weak_grid_lo as int;
    let hi = p.weak_grid_hi as int;
    assert(lo * 0 == 0 && hi * 0 == 0);
    if pitch.median == 0 {
        assert(p.weak_grid_lo * pitch.median == 0 && p.weak_grid_hi * pitch.median == 0) by (nonlinear_arith)
            requires
                pitch.median == 0,
        ;
    }
}

} // verus!
