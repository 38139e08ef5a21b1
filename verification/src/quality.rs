//! Quality flags: why an icon needs a human look.
use vstd::prelude::*;
use crate::text;

verus! {

/// Composite score, in billionths, below which an icon is low quality.
pub const LOW_QUALITY_COMPOSITE: i64 = 800_000_000;

/// Nodes an outline may have for each pixel of the root of its ink area.
pub const NODES_PER_SQRT_AREA: u64 = 4;

/// One reason an icon needs a human look.
#[derive(Clone, Copy, Debug, PartialEq, Eq, PartialOrd, Ord, Hash, Structural)]
pub enum QualityFlag {
    /// The composite score is too low.
    LowQuality,
    /// The outline has more nodes than its ink area justifies.
    OverComplex,
    /// Some subpath is not closed.
    OpenContour,
}

/// The stable name of a flag.
pub open spec fn flag_name(f: QualityFlag) -> Seq<char> {
    match f {
        QualityFlag::LowQuality => "low-quality"@,
        QualityFlag::OverComplex => "over-complex"@,
        QualityFlag::OpenContour => "open-contour"@,
    }
}

/// The flag with a name.
pub open spec fn flag_named(name: Seq<char>) -> Option<QualityFlag> {
    if name == "low-quality"@ {
        Some(QualityFlag::LowQuality)
    } else if name == "over-complex"@ {
        Some(QualityFlag::OverComplex)
    } else if name == "open-contour"@ {
        Some(QualityFlag::OpenContour)
    } else {
        None
    }
}

impl QualityFlag {
    /// The stable name.
    pub fn as_str(self) -> (r: &'static str)
        ensures
            r@ == flag_name(self),
    {
        match self {
            QualityFlag::LowQuality => "low-quality",
            QualityFlag::OverComplex => "over-complex",
            QualityFlag::OpenContour => "open-contour",
        }
    }

    /// The flag with a name.
    pub fn parse(name: &str) -> (r: Option<QualityFlag>)
        ensures
            r == flag_named(name@),
    {
        let s = text::chars_of(name);
        if text::same(&s, &text::chars_of("low-quality")) {
            Some(QualityFlag::LowQuality)
        } else if text::same(&s, &text::chars_of("over-complex")) {
            Some(QualityFlag::OverComplex)
        } else if text::same(&s, &text::chars_of("open-contour")) {
            Some(QualityFlag::OpenContour)
        } else {
            None
        }
    }
}

/// Names read back as the flag they name.
pub proof fn names_round_trip(f: QualityFlag)
    ensures
        flag_named(flag_name(f)) == Some(f),
{
    reveal_strlit("low-quality");
    reveal_strlit("over-complex");
    reveal_strlit("open-contour");
    assert("low-quality"@.len() == 11 && "over-complex"@.len() == 12 && "open-contour"@.len() == 12);
    assert("over-complex"@[1] == 'v' && "open-contour"@[1] == 'p');
}

/// What the quality detector reads of one icon.
#[derive(Clone, Copy, Debug, PartialEq, Eq, Structural)]
pub struct QualityInput {
    /// The icon's id.
    pub id: u32,
    /// Composite score, in billionths.
    pub composite: i64,
    /// Segments of the traced outline.
    pub node_count: u32,
    /// Ink area in pixels.
    pub ink_area: u64,
    /// Every subpath is closed.
    pub closed: bool,
}

/// `r` is the root of `v`, rounded down.
pub open spec fn is_root(v: int, r: int) -> bool {
    0 <= r && r * r <= v < (r + 1) * (r + 1)
}

proof fn square_order(a: int, b: int)
    requires
        0 <= a <= b,
    ensures
        a * a <= b * b,
{
    assert(a * a <= b * b) by (nonlinear_arith)
        requires
            0 <= a <= b,
    ;
}

/// The root of `v`, rounded down.
pub fn root(v: u128) -> (r: u64)
    requires
        v <= 0xf_ffff_ffff_ffff_ffff,
    ensures
        is_root(v as int, r as int),
{
    let mut lo: u64 = 0;
    let mut hi: u64 = 0x4_0000_0000;
    proof {
        assert(0x4_0000_0000 * 0x4_0000_0000 == 0x10_0000_0000_0000_0000) by (nonlinear_arith);
    }
    while hi - lo > 1
        invariant
            0 <= lo < hi <= 0x4_0000_0000,
            lo * lo <= v < hi * hi,
        decreases hi - lo,
    {
        let mid: u64 = lo + (hi - lo) / 2;
        proof {
            square_order(mid as int, 0x4_0000_0000);
        }
        let square: u128 = mid as u128 * mid as u128;
        if square <= v {
            lo = mid;
        } else {
            hi = mid;
        }
    }
    lo
}

/// Whole nodes that an ink area allows: `4·√area`, rounded down.
pub fn node_budget(ink_area: u64) -> (r: u64)
    ensures
        is_root(16 * ink_area, r as int),
{
    root(16 * ink_area as u128)
}

/// The outline has more than `4·√area` nodes; without ink there is nothing to
/// be over-complex about.
pub open spec fn over_complex(nodes: int, area: int) -> bool {
    area > 0 && nodes * nodes > 16 * area
}

/// The flags an icon earns, in a fixed order.
pub open spec fn flags_of(input: QualityInput) -> Seq<QualityFlag> {
    let a = if input.composite < LOW_QUALITY_COMPOSITE {
        seq![QualityFlag::LowQuality]
    } else {
        Seq::empty()
    };
    let b = if over_complex(input.node_count as int, input.ink_area as int) {
        seq![QualityFlag::OverComplex]
    } else {
        Seq::empty()
    };
    let c = if !input.closed {
        seq![QualityFlag::OpenContour]
    } else {
        Seq::empty()
    };
    a + b + c
}

/// A budget decides as its exact value does.
pub proof fn budget_decides(nodes: int, area: int, budget: int)
    requires
        0 <= nodes,
        is_root(16 * area, budget),
    ensures
        nodes > budget <==> nodes * nodes > 16 * area,
{
    if nodes > budget {
        square_order(budget + 1, nodes);
    } else {
        square_order(nodes, budget);
    }
}

/// Every flag an icon earns.
pub fn flags(input: &QualityInput) -> (r: Vec<QualityFlag>)
    ensures
        r@ == flags_of(*input),
{
    let mut out: Vec<QualityFlag> = Vec::new();
    if input.composite < LOW_QUALITY_COMPOSITE {
        out.push(QualityFlag::LowQuality);
    }
    let budget: u64 = node_budget(input.ink_area);
    proof {
        budget_decides(input.node_count as int, input.ink_area as int, budget as int);
    }
    if input.ink_area > 0 && input.node_count as u64 > budget {
        out.push(QualityFlag::OverComplex);
    }
    if !input.closed {
        out.push(QualityFlag::OpenContour);
    }
    assert(out@ =~= flags_of(*input));
    out
}

/// A number has one root.
pub proof fn root_is_unique(v: int, a: int, b: int)
    requires
        is_root(v, a),
        is_root(v, b),
    ensures
        a == b,
{
    if a < b {
        square_order(a + 1, b);
    } else if b < a {
        square_order(b + 1, a);
    }
}

/// A score below eight tenths is low quality, an inked icon with more nodes than
/// four times the root of its area is over-complex, and one with an open subpath
/// has an open contour; nothing else is flagged, and each at most once.
pub proof fn flags_name_each_fault(input: QualityInput, r: Seq<QualityFlag>)
    requires
        r == flags_of(input),
    ensures
        r.contains(QualityFlag::LowQuality) == (10 * input.composite < 8_000_000_000),
        r.contains(QualityFlag::OverComplex) == (input.ink_area > 0 && input.node_count * input.node_count > 16
            * input.ink_area),
        r.contains(QualityFlag::OpenContour) == !input.closed,
        forall|i: int, j: int| 0 <= i < j < r.len() ==> #[trigger] r[i] != #[trigger] r[j],
{
    if input.composite < 800_000_000 {
        assert(r[0] == QualityFlag::LowQuality);
    }
    if over_complex(input.node_count as int, input.ink_area as int) {
        let at: int = if input.composite < 800_000_000 {
            1
        } else {
            0
        };
        assert(r[at] == QualityFlag::OverComplex);
    }
    if !input.closed {
        assert(r[r.len() - 1] == QualityFlag::OpenContour);
    }
}

} // verus!
