//! Holes and the containment forest over a list of groups.
//!
//! A group is contained in another when its ink sits in a *hole* of the other:
//! the background around it must be walled off from the border of the other's
//! box. Candidates are the boxes that nest; each one is then verified against
//! the mask. A ring stays one icon, because holes are background and never
//! become groups.
use vstd::prelude::*;
use crate::connect;
use crate::counting;
use crate::flood;
use crate::geometry::{Bbox, IconGroup};
use crate::mask;
use crate::mask::ForegroundMask;
use crate::sorting;
use crate::sorting::SortKey;

verus! {

/// Bumped whenever containment semantics change.
pub const CONTAINMENT_VERSION: u32 = 1;

/// Tunables of the containment stage.
#[derive(Clone, Copy, Debug, PartialEq, Eq, Structural)]
pub struct ContainmentParams {
    /// Stage switch.
    pub enabled: bool,
    /// Nesting deeper than this is clamped.
    pub max_depth: u32,
}

impl Default for ContainmentParams {
    fn default() -> (r: Self)
        ensures
            r.enabled,
            r.max_depth == 8,
    {
        ContainmentParams { enabled: true, max_depth: 8 }
    }
}

/// Counters of the containment stage.
#[derive(Clone, Copy, Debug, PartialEq, Eq, Structural)]
pub struct ContainmentStats {
    /// Groups with a nesting candidate that reached the pixel test.
    pub pairs_tested: u64,
    /// Candidates verified as true enclosures.
    pub contained: u64,
    /// Candidates whose surroundings leak to the outside.
    pub rejected_open: u64,
    /// Holes found across all groups.
    pub holes: u64,
    /// Deepest nesting reached.
    pub max_depth: u32,
}

impl Default for ContainmentStats {
    fn default() -> (r: Self)
        ensures
            r == (ContainmentStats {
                pairs_tested: 0,
                contained: 0,
                rejected_open: 0,
                holes: 0,
                max_depth: 0,
            }),
    {
        ContainmentStats { pairs_tested: 0, contained: 0, rejected_open: 0, holes: 0, max_depth: 0 }
    }
}

/// Containment facts of one group.
#[derive(Clone, Copy, Debug, PartialEq, Eq)]
pub struct Containment {
    /// The enclosing group, as an index into the same list.
    pub parent: Option<u32>,
    /// The number of enclosing icons.
    pub depth: u32,
    /// Background regions enclosed by this group's own ink.
    pub holes: u32,
}

impl Default for Containment {
    fn default() -> (r: Self)
        ensures
            r == blank_node(),
    {
        Containment { parent: None, depth: 0, holes: 0 }
    }
}

/// The facts of a group that nothing is known about.
pub open spec fn blank_node() -> Containment {
    Containment { parent: None, depth: 0, holes: 0 }
}

/// One entry per group, and the number of groups at depth zero.
#[derive(Clone, Debug, PartialEq, Eq)]
pub struct ContainmentForest {
    /// Per-group facts, index-aligned with the input.
    pub nodes: Vec<Containment>,
    /// Groups that sit in no other group's hole.
    pub roots: u32,
}

// ---- pixel facts ------------------------------------------------------------

/// The position of sheet pixel `(x, y)` in the row-major grid of `b`.
pub open spec fn cell(b: Bbox, x: int, y: int) -> int {
    (y - b.y) * b.w + (x - b.x)
}

/// The ink of `m` inside `b`, row by row.
pub open spec fn box_ink(m: ForegroundMask, b: Bbox) -> Seq<bool> {
    Seq::new(
        (b.w * b.h) as nat,
        |k: int| m.ink(b.x + k % (b.w as int), b.y + k / (b.w as int)),
    )
}

/// The background of `m` inside `b`, row by row.
pub open spec fn box_gap(m: ForegroundMask, b: Bbox) -> Seq<bool> {
    Seq::new((b.w * b.h) as nat, |k: int| !box_ink(m, b)[k])
}

/// Cell `k` of a `cw` by `ch` grid lies on its border.
pub open spec fn on_border(cw: int, ch: int, k: int) -> bool {
    k % cw == 0 || k % cw == cw - 1 || k / cw == 0 || k / cw == ch - 1
}

/// Cell `k` of the box is background that the box's border reaches.
pub open spec fn open_cell(m: ForegroundMask, b: Bbox, k: int) -> bool {
    exists|s: int|
        0 <= s < b.w * b.h && on_border(b.w as int, b.h as int, s) && #[trigger] box_gap(m, b)[s]
            && connect::reaches(flood::step4(b.w as int, box_gap(m, b)), s, k)
}

/// Sheet pixel `(x, y)` is background of the box that its border reaches.
pub open spec fn leaks(m: ForegroundMask, b: Bbox, x: int, y: int) -> bool {
    b.covers(x, y) && open_cell(m, b, cell(b, x, y))
}

/// Cell `k` of the group's box is ink connected to the group's origin inside
/// the box, by sides or corners.
pub open spec fn own_cell(m: ForegroundMask, g: IconGroup, k: int) -> bool {
    &&& m.ink(g.origin.0 as int, g.origin.1 as int)
    &&& connect::reaches(
        flood::step8(g.bbox.w as int, box_ink(m, g.bbox)),
        cell(g.bbox, g.origin.0 as int, g.origin.1 as int),
        k,
    )
}

/// Sheet pixel `(x, y)` is ink of the group itself.
pub open spec fn own_pixel(m: ForegroundMask, g: IconGroup, x: int, y: int) -> bool {
    g.bbox.covers(x, y) && own_cell(m, g, cell(g.bbox, x, y))
}

/// No pixel of `g` has a side neighbour that leaks to the border of `outer`.
pub open spec fn encloses(m: ForegroundMask, outer: Bbox, g: IconGroup) -> bool {
    forall|x: int, y: int| #[trigger]
        own_pixel(m, g, x, y) ==> !leaks(m, outer, x - 1, y) && !leaks(m, outer, x + 1, y)
            && !leaks(m, outer, x, y - 1) && !leaks(m, outer, x, y + 1)
}

/// The background cells of a box that its border does not reach.
pub open spec fn pocket_cells(m: ForegroundMask, b: Bbox) -> Seq<bool> {
    Seq::new((b.w * b.h) as nat, |k: int| !box_ink(m, b)[k] && !open_cell(m, b, k))
}

/// Cell `k` has a side neighbour that is ink of the group itself.
pub open spec fn beside_own(m: ForegroundMask, g: IconGroup, k: int) -> bool {
    exists|j: int|
        0 <= j < g.bbox.w * g.bbox.h && flood::adj4(g.bbox.w as int, k, j) && #[trigger] own_cell(
            m,
            g,
            j,
        )
}

/// Cell `k` is the first cell of a pocket that touches the group's own ink.
pub open spec fn heads_hole(m: ForegroundMask, g: IconGroup, k: int) -> bool {
    let step = flood::step4(g.bbox.w as int, pocket_cells(m, g.bbox));
    &&& pocket_cells(m, g.bbox)[k]
    &&& forall|j: int|
        0 <= j < k && #[trigger] pocket_cells(m, g.bbox)[j] ==> !connect::reaches(step, j, k)
    &&& exists|j: int|
        0 <= j < g.bbox.w * g.bbox.h && #[trigger] connect::reaches(step, k, j) && beside_own(
            m,
            g,
            j,
        )
}

/// [`heads_hole`] as a predicate on cells.
pub open spec fn hole_heads(m: ForegroundMask, g: IconGroup) -> spec_fn(int) -> bool {
    |k: int| heads_hole(m, g, k)
}

/// The number of pockets of the group's box that touch the group's own ink.
pub open spec fn holes_of(m: ForegroundMask, g: IconGroup) -> int {
    counting::count_below(hole_heads(m, g), g.bbox.w * g.bbox.h)
}

// ---- nesting ------------------------------------------------------------------

/// `inner` lies in `outer`, and `outer` is larger on some side.
pub open spec fn nests(outer: Bbox, inner: Bbox) -> bool {
    &&& outer.x <= inner.x
    &&& outer.y <= inner.y
    &&& outer.right() >= inner.right()
    &&& outer.bottom() >= inner.bottom()
    &&& outer.w > inner.w || outer.h > inner.h
}

/// Group `a` may enclose group `q`: it has more ink, and its box nests the
/// other's.
pub open spec fn eligible(groups: Seq<IconGroup>, a: int, q: int) -> bool {
    &&& 0 <= a < groups.len()
    &&& groups[a].area > groups[q].area
    &&& nests(groups[a].bbox, groups[q].bbox)
}

/// Group `a` is the eligible group with the least ink, the first among equals.
pub open spec fn is_candidate(groups: Seq<IconGroup>, a: int, q: int) -> bool {
    &&& eligible(groups, a, q)
    &&& forall|b: int| #[trigger]
        eligible(groups, b, q) ==> groups[a].area < groups[b].area || (groups[a].area
            == groups[b].area && a <= b)
}

/// Group `q` has a nesting candidate.
pub open spec fn has_candidate(groups: Seq<IconGroup>, q: int) -> bool {
    exists|a: int| #[trigger] is_candidate(groups, a, q)
}

/// Group `a` encloses group `q`.
pub open spec fn is_parent(m: ForegroundMask, groups: Seq<IconGroup>, a: int, q: int) -> bool {
    is_candidate(groups, a, q) && encloses(m, groups[a].bbox, groups[q])
}

/// `parent` is the enclosing group of `q`, or `None` when there is none.
pub open spec fn parent_is(m: ForegroundMask, groups: Seq<IconGroup>, q: int, parent: Option<u32>) -> bool {
    match parent {
        Some(a) => is_parent(m, groups, a as int, q),
        None => forall|a: int| !#[trigger] is_parent(m, groups, a, q),
    }
}

/// The nesting depth of group `i` under the given parents, clamped at `limit`.
pub open spec fn depth_of(groups: Seq<IconGroup>, nodes: Seq<Containment>, limit: u32, i: int) -> int
    decreases u32::MAX - groups[i].area,
{
    match nodes[i].parent {
        Some(p) => if p < groups.len() && groups[p as int].area > groups[i].area {
            let d = depth_of(groups, nodes, limit, p as int) + 1;
            if d < limit {
                d
            } else {
                limit as int
            }
        } else {
            0
        },
        None => 0,
    }
}

/// Groups that lie on the sheet, with an origin in their box.
pub open spec fn groups_fit(m: ForegroundMask, groups: Seq<IconGroup>) -> bool {
    forall|i: int|
        0 <= i < groups.len() ==> (#[trigger] groups[i]).bbox.fits(m.width as int, m.height as int)
            && groups[i].bbox.covers(groups[i].origin.0 as int, groups[i].origin.1 as int)
}

/// What the forest says of every group.
pub open spec fn is_forest(
    m: ForegroundMask,
    groups: Seq<IconGroup>,
    limit: u32,
    nodes: Seq<Containment>,
) -> bool {
    &&& nodes.len() == groups.len()
    &&& forall|q: int|
        0 <= q < groups.len() ==> parent_is(m, groups, q, (#[trigger] nodes[q]).parent)
            && nodes[q].depth == depth_of(groups, nodes, limit, q) && nodes[q].holes == holes_of(
            m,
            groups[q],
        )
}

/// Groups at depth zero.
pub open spec fn at_top(nodes: Seq<Containment>) -> spec_fn(int) -> bool {
    |i: int| nodes[i].depth == 0
}

/// Groups with a nesting candidate.
pub open spec fn tested(groups: Seq<IconGroup>) -> spec_fn(int) -> bool {
    |q: int| has_candidate(groups, q)
}

/// Groups with a parent.
pub open spec fn nested(nodes: Seq<Containment>) -> spec_fn(int) -> bool {
    |i: int| nodes[i].parent is Some
}

/// The holes of each group.
pub open spec fn node_holes(nodes: Seq<Containment>) -> spec_fn(int) -> int {
    |i: int| nodes[i].holes as int
}

/// `top` is the greatest of `floor` and the depths of the first `n` nodes.
pub open spec fn is_max_depth(nodes: Seq<Containment>, n: int, floor: u32, top: u32) -> bool {
    &&& top >= floor
    &&& forall|i: int| 0 <= i < n ==> (#[trigger] nodes[i]).depth <= top
    &&& top == floor || exists|i: int| 0 <= i < n && (#[trigger] nodes[i]).depth == top
}

// ---- crops ----------------------------------------------------------------------

/// A box of the mask: its ink, and the background its border reaches.
pub struct Crop {
    /// Width in cells.
    pub cw: usize,
    /// Height in cells.
    pub ch: usize,
    /// Ink, row by row.
    pub ink: Vec<bool>,
    /// Background reached from the border, row by row.
    pub reachable: Vec<bool>,
}

impl Crop {
    /// The crop shows box `b` of `m`.
    pub open spec fn shows(&self, m: ForegroundMask, b: Bbox) -> bool {
        &&& self.cw == b.w
        &&& self.ch == b.h
        &&& self.ink@ == box_ink(m, b)
        &&& self.reachable@.len() == b.w * b.h
        &&& forall|k: int|
            0 <= k < b.w * b.h ==> #[trigger] self.reachable@[k] == open_cell(m, b, k)
    }

    /// The position of cell `(x, y)`.
    pub fn idx(&self, x: usize, y: usize) -> (r: usize)
        requires
            x < self.cw,
            y < self.ch,
            self.cw * self.ch <= mask::MAX_PIXELS,
        ensures
            r == y * self.cw + x,
            r < self.cw * self.ch,
    {
        proof {
            mask::lemma_pixel_in(self.cw as int, self.ch as int, x as int, y as int);
        }
        y * self.cw + x
    }
}

/// A box on the sheet holds no more cells than the sheet.
pub proof fn lemma_box_area(b: Bbox, w: int, h: int)
    requires
        b.fits(w, h),
    ensures
        0 < b.w * b.h <= w * h,
{
    assert(0 < b.w * b.h <= w * h) by (nonlinear_arith)
        requires
            0 < b.w <= w,
            0 < b.h <= h,
    ;
}

/// The ink of a box, row by row.
pub fn ink_of_box(mask: &ForegroundMask, b: Bbox) -> (r: Vec<bool>)
    requires
        mask.wf(),
        b.fits(mask.width as int, mask.height as int),
    ensures
        r@ == box_ink(*mask, b),
{
    proof {
        lemma_box_area(b, mask.width as int, mask.height as int);
    }
    let cw: usize = b.w as usize;
    let n: usize = cw * b.h as usize;
    let mut ink: Vec<bool> = Vec::new();
    let mut k: usize = 0;
    while k < n
        invariant
            k <= n,
            n == b.w * b.h,
            cw == b.w,
            mask.wf(),
            b.fits(mask.width as int, mask.height as int),
            ink@.len() == k,
            forall|j: int| 0 <= j < k ==> #[trigger] ink@[j] == box_ink(*mask, b)[j],
        decreases n - k,
    {
        proof {
            mask::lemma_pixel_split(b.w as int, b.h as int, k as int);
        }
        ink.push(mask.get(b.x + (k % cw) as u32, b.y + (k / cw) as u32));
        k = k + 1;
    }
    assert(ink@ =~= box_ink(*mask, b));
    ink
}

/// Crops a box and floods the background reachable from its border.
fn crop_with_reachable(outer: Bbox, mask: &ForegroundMask) -> (r: Crop)
    requires
        mask.wf(),
        outer.fits(mask.width as int, mask.height as int),
    ensures
        r.shows(*mask, outer),
{
    proof {
        lemma_box_area(outer, mask.width as int, mask.height as int);
    }
    let cw: usize = outer.w as usize;
    let ch: usize = outer.h as usize;
    let ink = ink_of_box(mask, outer);
    let n: usize = cw * ch;
    let mut gap: Vec<bool> = Vec::new();
    let mut seen: Vec<bool> = Vec::new();
    let mut seeds: Vec<usize> = Vec::new();
    let mut k: usize = 0;
    while k < n
        invariant
            k <= n,
            n == outer.w * outer.h,
            cw == outer.w,
            ch == outer.h,
            0 < cw,
            0 < ch,
            ink@ == box_ink(*mask, outer),
            gap@.len() == k,
            seen@.len() == k,
            forall|j: int| 0 <= j < k ==> #[trigger] gap@[j] == box_gap(*mask, outer)[j],
            forall|j: int| 0 <= j < k ==> !#[trigger] seen@[j],
            forall|i: int|
                0 <= i < seeds@.len() ==> (#[trigger] seeds@[i]) < k && box_gap(
                    *mask,
                    outer,
                )[seeds@[i] as int] && on_border(cw as int, ch as int, seeds@[i] as int),
            forall|s: int|
                0 <= s < k && on_border(cw as int, ch as int, s) && #[trigger] box_gap(
                    *mask,
                    outer,
                )[s] ==> seeds@.contains(s as usize),
        decreases n - k,
    {
        let ghost seeds0 = seeds@;
        gap.push(!ink[k]);
        seen.push(false);
        let x: usize = k % cw;
        let y: usize = k / cw;
        if !ink[k] && (x == 0 || x == cw - 1 || y == 0 || y == ch - 1) {
            seeds.push(k);
        }
        proof {
            assert forall|s: int|
                0 <= s < k + 1 && on_border(cw as int, ch as int, s) && #[trigger] box_gap(
                    *mask,
                    outer,
                )[s] implies seeds@.contains(s as usize) by {
                if s < k {
                    assert(seeds0.contains(s as usize));
                    let i = choose|i: int| 0 <= i < seeds0.len() && seeds0[i] == s as usize;
                    assert(seeds@[i] == s as usize);
                } else {
                    assert(seeds@[seeds0.len() as int] == s as usize);
                }
            }
        }
        k = k + 1;
    }
    assert(gap@ =~= box_gap(*mask, outer));
    let _region = flood::flood(cw, ch, false, &gap, &mut seen, &seeds);
    proof {
        assert forall|j: int| 0 <= j < n implies #[trigger] seen@[j] == open_cell(*mask, outer, j) by {
            if flood::from_seeds(cw as int, false, gap@, seeds@, j) {
                let i = choose|i: int|
                    0 <= i < seeds@.len() && connect::reaches(
                        flood::step4(cw as int, gap@),
                        #[trigger] seeds@[i] as int,
                        j,
                    );
                assert(box_gap(*mask, outer)[seeds@[i] as int]);
            }
            if open_cell(*mask, outer, j) {
                let s = choose|s: int|
                    0 <= s < n && on_border(cw as int, ch as int, s) && #[trigger] box_gap(
                        *mask,
                        outer,
                    )[s] && connect::reaches(
                        flood::step4(cw as int, box_gap(*mask, outer)),
                        s,
                        j,
                    );
                assert(seeds@.contains(s as usize));
                let i = choose|i: int| 0 <= i < seeds@.len() && seeds@[i] == s as usize;
                assert(connect::reaches(
                    flood::step4(cw as int, gap@),
                    seeds@[i] as int,
                    j,
                ));
            }
        }
    }
    Crop { cw, ch, ink, reachable: seen }
}

/// The group's own pixels inside its box: the ink connected to its origin.
fn extract_component(mask: &ForegroundMask, g: &IconGroup) -> (r: Vec<bool>)
    requires
        mask.wf(),
        g.bbox.fits(mask.width as int, mask.height as int),
        g.bbox.covers(g.origin.0 as int, g.origin.1 as int),
    ensures
        r@.len() == g.bbox.w * g.bbox.h,
        forall|k: int| 0 <= k < r@.len() ==> #[trigger] r@[k] == own_cell(*mask, *g, k),
{
    let b = g.bbox;
    proof {
        lemma_box_area(b, mask.width as int, mask.height as int);
    }
    let cw: usize = b.w as usize;
    let ch: usize = b.h as usize;
    let n: usize = cw * ch;
    let ink = ink_of_box(mask, b);
    let mut comp: Vec<bool> = Vec::new();
    let mut k: usize = 0;
    while k < n
        invariant
            k <= n,
            comp@.len() == k,
            forall|j: int| 0 <= j < k ==> !#[trigger] comp@[j],
        decreases n - k,
    {
        comp.push(false);
        k = k + 1;
    }
    if !mask.get(g.origin.0, g.origin.1) {
        return comp;
    }
    let dx: usize = (g.origin.0 - b.x) as usize;
    let dy: usize = (g.origin.1 - b.y) as usize;
    proof {
        mask::lemma_pixel_in(cw as int, ch as int, dx as int, dy as int);
        mask::lemma_pixel_split(cw as int, ch as int, dy * cw + dx);
        mask::lemma_pixel_inj(
            cw as int,
            (dy * cw + dx) % (cw as int),
            (dy * cw + dx) / (cw as int),
            dx as int,
            dy as int,
        );
    }
    let start: usize = dy * cw + dx;
    let mut seeds: Vec<usize> = Vec::new();
    seeds.push(start);
    assert(start == cell(b, g.origin.0 as int, g.origin.1 as int));
    let _region = flood::flood(cw, ch, true, &ink, &mut comp, &seeds);
    proof {
        assert forall|j: int| 0 <= j < n implies #[trigger] comp@[j] == own_cell(*mask, *g, j) by {
            if flood::from_seeds(cw as int, true, ink@, seeds@, j) {
                let i = choose|i: int|
                    0 <= i < seeds@.len() && connect::reaches(
                        flood::step8(cw as int, ink@),
                        #[trigger] seeds@[i] as int,
                        j,
                    );
                assert(seeds@[i] == start);
            }
            if own_cell(*mask, *g, j) {
                assert(connect::reaches(
                    flood::step8(cw as int, ink@),
                    seeds@[0] as int,
                    j,
                ));
            }
        }
    }
    comp
}

/// Whether sheet pixel `(x, y)` leaks to the border of the cropped box.
fn leaks_at(crop: &Crop, b: Bbox, x: i64, y: i64, Ghost(m): Ghost<ForegroundMask>) -> (r: bool)
    requires
        crop.shows(m, b),
        m.wf(),
        b.fits(m.width as int, m.height as int),
    ensures
        r == leaks(m, b, x as int, y as int),
{
    if x < b.x as i64 || y < b.y as i64 || x >= b.x as i64 + b.w as i64 || y >= b.y as i64
        + b.h as i64 {
        return false;
    }
    proof {
        lemma_box_area(b, m.width as int, m.height as int);
        mask::lemma_pixel_in(b.w as int, b.h as int, x - b.x, y - b.y);
    }
    crop.reachable[crop.idx((x - b.x as i64) as usize, (y - b.y as i64) as usize)]
}

/// Whether `inner` sits in a hole of the group boxed by `outer`.
fn verify_enclosure(outer: Bbox, inner: &IconGroup, mask: &ForegroundMask) -> (r: bool)
    requires
        mask.wf(),
        outer.fits(mask.width as int, mask.height as int),
        inner.bbox.fits(mask.width as int, mask.height as int),
        inner.bbox.covers(inner.origin.0 as int, inner.origin.1 as int),
    ensures
        r == encloses(*mask, outer, *inner),
{
    let crop = crop_with_reachable(outer, mask);
    let own = extract_component(mask, inner);
    let b = inner.bbox;
    proof {
        lemma_box_area(b, mask.width as int, mask.height as int);
    }
    let cw: usize = b.w as usize;
    let n: usize = cw * b.h as usize;
    let mut k: usize = 0;
    while k < n
        invariant
            k <= n,
            n == b.w * b.h,
            cw == b.w,
            b == inner.bbox,
            mask.wf(),
            outer.fits(mask.width as int, mask.height as int),
            b.fits(mask.width as int, mask.height as int),
            crop.shows(*mask, outer),
            own@.len() == n,
            forall|j: int| 0 <= j < n ==> #[trigger] own@[j] == own_cell(*mask, *inner, j),
            forall|x: int, y: int|
                cell(b, x, y) < k && #[trigger] own_pixel(*mask, *inner, x, y) ==> !leaks(
                    *mask,
                    outer,
                    x - 1,
                    y,
                ) && !leaks(*mask, outer, x + 1, y) && !leaks(*mask, outer, x, y - 1) && !leaks(
                    *mask,
                    outer,
                    x,
                    y + 1,
                ),
        decreases n - k,
    {
        proof {
            mask::lemma_pixel_split(b.w as int, b.h as int, k as int);
        }
        let x: i64 = b.x as i64 + (k % cw) as i64;
        let y: i64 = b.y as i64 + (k / cw) as i64;
        assert(cell(b, x as int, y as int) == k);
        if own[k] && (leaks_at(&crop, outer, x - 1, y, Ghost(*mask)) || leaks_at(
            &crop,
            outer,
            x + 1,
            y,
            Ghost(*mask),
        ) || leaks_at(&crop, outer, x, y - 1, Ghost(*mask)) || leaks_at(
            &crop,
            outer,
            x,
            y + 1,
            Ghost(*mask),
        )) {
            assert(own_pixel(*mask, *inner, x as int, y as int));
            return false;
        }
        proof {
            assert forall|p: int, q: int|
                cell(b, p, q) < k + 1 && #[trigger] own_pixel(*mask, *inner, p, q) implies !leaks(
                *mask,
                outer,
                p - 1,
                q,
            ) && !leaks(*mask, outer, p + 1, q) && !leaks(*mask, outer, p, q - 1) && !leaks(
                *mask,
                outer,
                p,
                q + 1,
            ) by {
                if cell(b, p, q) == k {
                    mask::lemma_pixel_inj(b.w as int, p - b.x, q - b.y, x - b.x, y - b.y);
                }
            }
        }
        k = k + 1;
    }
    assert forall|x: int, y: int| #[trigger] own_pixel(*mask, *inner, x, y) implies !leaks(
        *mask,
        outer,
        x - 1,
        y,
    ) && !leaks(*mask, outer, x + 1, y) && !leaks(*mask, outer, x, y - 1) && !leaks(
        *mask,
        outer,
        x,
        y + 1,
    ) by {
        mask::lemma_pixel_in(b.w as int, b.h as int, x - b.x, y - b.y);
    }
    true
}

/// Whether cell `k` has a side neighbour among the group's own cells.
fn touches_own(cw: usize, own: &Vec<bool>, k: usize, Ghost(m): Ghost<ForegroundMask>, Ghost(g): Ghost<IconGroup>) -> (r: bool)
    requires
        0 < cw,
        cw == g.bbox.w,
        own@.len() == g.bbox.w * g.bbox.h,
        forall|j: int| 0 <= j < own@.len() ==> #[trigger] own@[j] == own_cell(m, g, j),
        k < own@.len(),
    ensures
        r == beside_own(m, g, k as int),
{
    let x: usize = k % cw;
    let n: usize = own.len();
    proof {
        if k == 0 {
            assert(0int % (cw as int) == 0) by (nonlinear_arith)
                requires
                    0 < cw,
            ;
        }
        if x + 1 < cw {
            flood::row_room(cw as int, g.bbox.h as int, k as int);
        }
    }
    let left: bool = x > 0 && own[k - 1];
    let right: bool = x + 1 < cw && own[k + 1];
    let up: bool = k >= cw && own[k - cw];
    let down: bool = n - k > cw && own[k + cw];
    proof {
        if left {
            assert(own_cell(m, g, k - 1));
        }
        if right {
            assert(own_cell(m, g, k + 1));
        }
        if up {
            assert(own_cell(m, g, k - cw));
        }
        if down {
            assert(own_cell(m, g, k + cw));
        }
        if beside_own(m, g, k as int) {
            let j = choose|j: int|
                0 <= j < g.bbox.w * g.bbox.h && flood::adj4(g.bbox.w as int, k as int, j)
                    && #[trigger] own_cell(m, g, j);
            assert(own@[j]);
        }
    }
    left || right || up || down
}

/// Counts the pockets of the crop that touch the group's own ink.
fn count_own_holes(crop: &Crop, own: &Vec<bool>, Ghost(m): Ghost<ForegroundMask>, Ghost(g): Ghost<IconGroup>) -> (r: u32)
    requires
        m.wf(),
        g.bbox.fits(m.width as int, m.height as int),
        crop.shows(m, g.bbox),
        own@.len() == g.bbox.w * g.bbox.h,
        forall|j: int| 0 <= j < own@.len() ==> #[trigger] own@[j] == own_cell(m, g, j),
    ensures
        r == holes_of(m, g),
        r <= g.bbox.w * g.bbox.h,
{
    let ghost b = g.bbox;
    proof {
        lemma_box_area(b, m.width as int, m.height as int);
    }
    let cw: usize = crop.cw;
    let n: usize = crop.cw * crop.ch;
    let mut pocket: Vec<bool> = Vec::new();
    let mut seen: Vec<bool> = Vec::new();
    let mut k: usize = 0;
    while k < n
        invariant
            k <= n,
            n == b.w * b.h,
            b == g.bbox,
            crop.shows(m, b),
            pocket@.len() == k,
            seen@.len() == k,
            forall|j: int| 0 <= j < k ==> #[trigger] pocket@[j] == pocket_cells(m, b)[j],
            forall|j: int| 0 <= j < k ==> !#[trigger] seen@[j],
        decreases n - k,
    {
        pocket.push(!crop.ink[k] && !crop.reachable[k]);
        seen.push(false);
        k = k + 1;
    }
    assert(pocket@ =~= pocket_cells(m, b));
    let ghost step = flood::step4(cw as int, pocket@);
    let mut holes: u32 = 0;
    let mut start: usize = 0;
    while start < n
        invariant
            start <= n,
            n == b.w * b.h,
            n <= mask::MAX_PIXELS,
            b == g.bbox,
            cw == b.w,
            0 < cw,
            crop.cw == cw,
            crop.ch == b.h,
            pocket@ == pocket_cells(m, b),
            pocket@.len() == n,
            step == flood::step4(cw as int, pocket@),
            seen@.len() == n,
            own@.len() == n,
            forall|j: int| 0 <= j < own@.len() ==> #[trigger] own@[j] == own_cell(m, g, j),
            forall|j: int|
                0 <= j < n ==> (#[trigger] seen@[j] <==> reached_before(step, pocket@, start as int, j)),
            holes == counting::count_below(hole_heads(m, g), start as int),
            holes <= start,
        decreases n - start,
    {
        if pocket[start] && !seen[start] {
            let mut seeds: Vec<usize> = Vec::new();
            seeds.push(start);
            let ghost seen0 = seen@;
            proof {
                assert forall|p: int, q: int| #[trigger] step(p, q) && seen@[p] implies seen@[q] by {
                    let s = choose|s: int|
                        0 <= s < start && #[trigger] pocket@[s] && connect::reaches(step, s, p);
                    connect::reaches_step(step, s, p, q);
                    assert(reached_before(step, pocket@, start as int, q));
                }
            }
            let region = flood::flood(cw, crop.ch, false, &pocket, &mut seen, &seeds);
            let mut touches: bool = false;
            let mut i: usize = 0;
            while i < region.len()
                invariant
                    i <= region@.len(),
                    0 < cw,
                    cw == g.bbox.w,
                    own@.len() == g.bbox.w * g.bbox.h,
                    forall|j: int| 0 <= j < own@.len() ==> #[trigger] own@[j] == own_cell(m, g, j),
                    forall|j: int| 0 <= j < region@.len() ==> (#[trigger] region@[j]) < own@.len(),
                    touches <==> exists|j: int|
                        0 <= j < i && beside_own(m, g, #[trigger] region@[j] as int),
                decreases region@.len() - i,
            {
                if touches_own(cw, own, region[i], Ghost(m), Ghost(g)) {
                    touches = true;
                    assert(beside_own(m, g, region@[i as int] as int));
                }
                i = i + 1;
            }
            proof {
                let ghost st = start as int;
                assert forall|j: int| 0 <= j < n implies (flood::from_seeds(cw as int, false,
                    pocket@,
                    seeds@,
                    j,
                ) <==> #[trigger] connect::reaches(step, st, j)) by {
                    if connect::reaches(step, st, j) {
                        assert(connect::reaches(step, seeds@[0] as int, j));
                    }
                    if flood::from_seeds(cw as int, false, pocket@, seeds@, j) {
                        let i = choose|i: int|
                            0 <= i < seeds@.len() && connect::reaches(
                                flood::step4(cw as int, pocket@),
                                #[trigger] seeds@[i] as int,
                                j,
                            );
                        assert(seeds@[i] == start);
                    }
                }
                // The pocket is new, so nothing before it reaches it.
                assert forall|j: int| 0 <= j < st && #[trigger] pocket_cells(m, b)[j] implies !connect::reaches(
                    step,
                    j,
                    st,
                ) by {
                    if connect::reaches(step, j, st) {
                        assert(pocket@[j]);
                        assert(reached_before(step, pocket@, st, st));
                        assert(seen0[st]);
                    }
                }
                assert(touches <==> exists|j: int|
                    0 <= j < n && #[trigger] connect::reaches(step, st, j) && beside_own(m, g, j))
                    by {
                    if touches {
                        let i = choose|i: int|
                            0 <= i < region@.len() && beside_own(
                                m,
                                g,
                                #[trigger] region@[i] as int,
                            );
                        let j = region@[i] as int;
                        assert(region@.contains(j as usize));
                        assert(seen@[j] && !seen0[j]);
                        assert(connect::reaches(step, st, j));
                    }
                    if exists|j: int|
                        0 <= j < n && #[trigger] connect::reaches(step, st, j) && beside_own(
                            m,
                            g,
                            j,
                        ) {
                        let j = choose|j: int|
                            0 <= j < n && #[trigger] connect::reaches(step, st, j) && beside_own(
                                m,
                                g,
                                j,
                            );
                        fresh_region(step, pocket@, st, j);
                        assert(seen@[j] && !seen0[j]);
                        assert(region@.contains(j as usize));
                        let i = choose|i: int| 0 <= i < region@.len() && region@[i] == j as usize;
                        assert(beside_own(m, g, region@[i] as int));
                    }
                }
                assert(touches == hole_heads(m, g)(st));
            }
            if touches {
                holes = holes + 1;
            }
            proof {
                assert forall|j: int| 0 <= j < n implies (#[trigger] seen@[j] <==> reached_before(
                    step,
                    pocket@,
                    start + 1,
                    j,
                )) by {
                    reached_next(step, pocket@, start as int, j);
                    assert(seen@[j] == (seen0[j] || connect::reaches(step, start as int, j))) by {
                        assert(seen@[j] == (seen0[j] || flood::from_seeds(cw as int, false,
                            pocket@,
                            seeds@,
                            j,
                        )));
                    }
                }
            }
        } else {
            proof {
                if pocket@[start as int] {
                    assert(reached_before(step, pocket@, start as int, start as int));
                    let s = choose|s: int|
                        0 <= s < start && #[trigger] pocket@[s] && connect::reaches(
                            step,
                            s,
                            start as int,
                        );
                    assert(pocket_cells(m, b)[s]);
                    assert(!hole_heads(m, g)(start as int));
                }
                assert forall|j: int| 0 <= j < n implies (#[trigger] seen@[j] <==> reached_before(
                    step,
                    pocket@,
                    start + 1,
                    j,
                )) by {
                    reached_next(step, pocket@, start as int, j);
                    if pocket@[start as int] && connect::reaches(step, start as int, j) {
                        let s = choose|s: int|
                            0 <= s < start && #[trigger] pocket@[s] && connect::reaches(
                                step,
                                s,
                                start as int,
                            );
                        connect::reaches_trans(step, s, start as int, j);
                        assert(reached_before(step, pocket@, start as int, j));
                    }
                }
            }
        }
        start = start + 1;
    }
    holes
}

/// Cell `j` is reached from an open cell before `n`.
spec fn reached_before(step: spec_fn(int, int) -> bool, open: Seq<bool>, n: int, j: int) -> bool {
    exists|s: int| 0 <= s < n && #[trigger] open[s] && connect::reaches(step, s, j)
}

proof fn reached_next(step: spec_fn(int, int) -> bool, open: Seq<bool>, n: int, j: int)
    requires
        0 <= n < open.len(),
    ensures
        reached_before(step, open, n + 1, j) <==> reached_before(step, open, n, j) || (open[n]
            && connect::reaches(step, n, j)),
{
    if reached_before(step, open, n, j) {
        let s = choose|s: int| 0 <= s < n && #[trigger] open[s] && connect::reaches(step, s, j);
        assert(0 <= s < n + 1 && open[s]);
    }
    if open[n] && connect::reaches(step, n, j) {
        assert(0 <= n < n + 1 && open[n]);
    }
}

/// A pocket that no earlier cell reaches shares no cell with an earlier one.
proof fn fresh_region(step: spec_fn(int, int) -> bool, open: Seq<bool>, st: int, j: int)
    requires
        exists|cw: int| 0 < cw && step == #[trigger] flood::step4(cw, open),
        0 <= st < open.len(),
        open[st],
        forall|s: int| 0 <= s < st && #[trigger] open[s] ==> !connect::reaches(step, s, st),
        connect::reaches(step, st, j),
    ensures
        !reached_before(step, open, st, j),
{
    let cw = choose|cw: int| 0 < cw && step == #[trigger] flood::step4(cw, open);
    if reached_before(step, open, st, j) {
        let s = choose|s: int| 0 <= s < st && #[trigger] open[s] && connect::reaches(step, s, j);
        assert forall|x: int, y: int| #[trigger] step(x, y) implies step(y, x) by {
            flood::step_sym(cw, false, open, x, y);
        }
        connect::reaches_sym(step, st, j);
        connect::reaches_trans(step, s, j, st);
    }
}

/// The holes of one group: background its border cannot reach and that its own
/// ink bounds.
fn count_holes(g: &IconGroup, mask: &ForegroundMask) -> (r: u32)
    requires
        mask.wf(),
        g.bbox.fits(mask.width as int, mask.height as int),
        g.bbox.covers(g.origin.0 as int, g.origin.1 as int),
    ensures
        r == holes_of(*mask, *g),
        r <= mask::MAX_PIXELS,
{
    proof {
        lemma_box_area(g.bbox, mask.width as int, mask.height as int);
    }
    let crop = crop_with_reachable(g.bbox, mask);
    let own = extract_component(mask, g);
    count_own_holes(&crop, &own, Ghost(*mask), Ghost(*g))
}

// ---- the forest -----------------------------------------------------------------

/// Whether `inner` lies in `outer` and is not the same box.
fn strictly_contains(outer: Bbox, inner: Bbox) -> (r: bool)
    ensures
        r == nests(outer, inner),
{
    outer.x <= inner.x && outer.y <= inner.y && outer.x as u64 + outer.w as u64 >= inner.x as u64
        + inner.w as u64 && outer.y as u64 + outer.h as u64 >= inner.y as u64 + inner.h as u64 && (
    outer.w > inner.w || outer.h > inner.h)
}

/// Left edges as sort keys, the most ink first among equals.
spec fn left_keys(groups: Seq<IconGroup>) -> Seq<SortKey> {
    Seq::new(
        groups.len(),
        |i: int| (groups[i].bbox.x as u64, (u32::MAX - groups[i].area) as u64, 0u64, 0u64),
    )
}

/// The nesting candidate of every group, by a left-to-right sweep.
fn find_candidates(groups: &Vec<IconGroup>, Ghost(m): Ghost<ForegroundMask>) -> (r: Vec<Option<usize>>)
    requires
        groups_fit(m, groups@),
    ensures
        r@.len() == groups@.len(),
        forall|q: int|
            0 <= q < r@.len() ==> match #[trigger] r@[q] {
                Some(a) => is_candidate(groups@, a as int, q),
                None => !has_candidate(groups@, q),
            },
{
    let n: usize = groups.len();
    let mut keys: Vec<SortKey> = Vec::new();
    let mut out: Vec<Option<usize>> = Vec::new();
    let mut i: usize = 0;
    while i < n
        invariant
            i <= n,
            n == groups@.len(),
            keys@.len() == i,
            out@.len() == i,
            forall|k: int| 0 <= k < i ==> #[trigger] keys@[k] == left_keys(groups@)[k],
        decreases n - i,
    {
        keys.push((groups[i].bbox.x as u64, (u32::MAX - groups[i].area) as u64, 0, 0));
        out.push(None);
        i = i + 1;
    }
    assert(keys@ =~= left_keys(groups@));
    let by_x = sorting::sort_order(&keys);
    let mut active: Vec<usize> = Vec::new();
    let mut t: usize = 0;
    while t < n
        invariant
            t <= n,
            n == groups@.len(),
            groups_fit(m, groups@),
            keys@ == left_keys(groups@),
            sorting::is_order(keys@, by_x@, 0, n as int),
            out@.len() == n,
            forall|i: int| 0 <= i < active@.len() ==> (#[trigger] active@[i]) < n,
            forall|i: int|
                0 <= i < active@.len() ==> by_x@.take(t as int).contains(#[trigger] active@[i]),
            // Whoever can still cover a group from here on is active.
            forall|i: int, j: int|
                0 <= i < t && t <= j < n && groups@[#[trigger] by_x@[i] as int].bbox.right()
                    > groups@[#[trigger] by_x@[j] as int].bbox.x ==> active@.contains(by_x@[i]),
            forall|i: int|
                0 <= i < t ==> match out@[#[trigger] by_x@[i] as int] {
                    Some(a) => is_candidate(groups@, a as int, by_x@[i] as int),
                    None => !has_candidate(groups@, by_x@[i] as int),
                },
        decreases n - t,
    {
        let q: usize = by_x[t];
        let ghost active0 = active@;
        let qb = groups[q].bbox;
        let mut kept: Vec<usize> = Vec::new();
        let mut best: Option<usize> = None;
        let mut i: usize = 0;
        while i < active.len()
            invariant
                i <= active@.len(),
                n == groups@.len(),
                q < n,
                qb == groups@[q as int].bbox,
                groups_fit(m, groups@),
                active@ == active0,
                forall|k: int| 0 <= k < active@.len() ==> (#[trigger] active@[k]) < n,
                forall|k: int| 0 <= k < kept@.len() ==> active0.contains(#[trigger] kept@[k]),
                forall|k: int|
                    0 <= k < i && groups@[#[trigger] active0[k] as int].bbox.right() > qb.x
                        ==> kept@.contains(active0[k]),
                match best {
                    Some(a) => eligible(groups@, a as int, q as int) && forall|k: int|
                        0 <= k < i && eligible(groups@, #[trigger] active0[k] as int, q as int) ==> (
                        groups@[a as int].area < groups@[active0[k] as int].area || (
                        groups@[a as int].area == groups@[active0[k] as int].area && a
                            <= active0[k])),
                    None => forall|k: int|
                        0 <= k < i ==> !eligible(groups@, #[trigger] active0[k] as int, q as int),
                },
            decreases active@.len() - i,
        {
            let a: usize = active[i];
            let ab = groups[a].bbox;
            let ghost kept0 = kept@;
            assert(groups@[a as int].bbox.fits(m.width as int, m.height as int));
            assert(groups@[q as int].bbox.fits(m.width as int, m.height as int));
            if ab.x + ab.w > qb.x {
                kept.push(a);
                proof {
                    assert(kept@[kept0.len() as int] == a);
                    assert(active0[i as int] == a);
                }
                if groups[a].area > groups[q].area && strictly_contains(ab, qb) {
                    let better: bool = match best {
                        Some(c) => groups[a].area < groups[c].area || (groups[a].area
                            == groups[c].area && a < c),
                        None => true,
                    };
                    if better {
                        best = Some(a);
                    }
                }
            }
            proof {
                assert forall|k: int|
                    0 <= k < i + 1 && groups@[#[trigger] active0[k] as int].bbox.right()
                        > qb.x implies kept@.contains(active0[k]) by {
                    if k < i {
                        assert(kept0.contains(active0[k]));
                        let l = choose|l: int| 0 <= l < kept0.len() && kept0[l] == active0[k];
                        assert(kept@[l] == active0[k]);
                    }
                }
            }
            i = i + 1;
        }
        out.set(q, best);
        let ghost kept1 = kept@;
        kept.push(q);
        proof {
            let ghost tt = t as int;
            // An eligible group was listed earlier and still covers q's left edge.
            assert forall|a: int| #[trigger] eligible(groups@, a, q as int) implies active0.contains(
                a as usize,
            ) by {
                assert(by_x@.contains(a as usize));
                let i = choose|i: int| 0 <= i < by_x@.len() && by_x@[i] == a as usize;
                if i > t {
                    assert(sorting::pos_lt(keys@, by_x@[tt] as int, by_x@[i] as int));
                }
                assert(i < t);
                assert(groups@[q as int].bbox.fits(m.width as int, m.height as int));
                assert(groups@[by_x@[i] as int].bbox.right() > groups@[by_x@[tt] as int].bbox.x);
            }
            match best {
                Some(a) => {
                    assert forall|b: int| #[trigger]
                        eligible(groups@, b, q as int) implies groups@[a as int].area
                        < groups@[b].area || (groups@[a as int].area == groups@[b].area && a
                        <= b) by {
                        assert(active0.contains(b as usize));
                        let k = choose|k: int| 0 <= k < active0.len() && active0[k] == b as usize;
                        assert(eligible(groups@, active0[k] as int, q as int));
                    }
                    assert(is_candidate(groups@, a as int, q as int));
                },
                None => {
                    assert forall|a: int| !#[trigger] is_candidate(groups@, a, q as int) by {
                        if eligible(groups@, a, q as int) {
                            assert(active0.contains(a as usize));
                            let k = choose|k: int|
                                0 <= k < active0.len() && active0[k] == a as usize;
                            assert(!eligible(groups@, active0[k] as int, q as int));
                        }
                    }
                },
            }
            assert forall|i: int| 0 <= i < t + 1 implies match out@[#[trigger] by_x@[i] as int] {
                Some(a) => is_candidate(groups@, a as int, by_x@[i] as int),
                None => !has_candidate(groups@, by_x@[i] as int),
            } by {
                if i < t {
                    assert(sorting::pos_lt(keys@, by_x@[i] as int, by_x@[tt] as int));
                    assert(by_x@[i] != by_x@[tt]);
                }
            }
            assert forall|i: int| 0 <= i < kept@.len() implies by_x@.take(t + 1).contains(
                #[trigger] kept@[i],
            ) by {
                if i < kept@.len() - 1 {
                    assert(active0.contains(kept@[i]));
                    let k = choose|k: int| 0 <= k < active0.len() && active0[k] == kept@[i];
                    assert(by_x@.take(tt).contains(active0[k]));
                    let l = choose|l: int| 0 <= l < tt && by_x@.take(tt)[l] == active0[k];
                    assert(by_x@.take(t + 1)[l] == kept@[i]);
                } else {
                    assert(by_x@.take(t + 1)[tt] == kept@[i]);
                }
            }
            assert forall|i: int, j: int|
                0 <= i < t + 1 && t + 1 <= j < n && groups@[#[trigger] by_x@[i] as int].bbox.right()
                    > groups@[#[trigger] by_x@[j] as int].bbox.x implies kept@.contains(
                by_x@[i],
            ) by {
                if i < t {
                    assert(sorting::pos_lt(keys@, by_x@[tt] as int, by_x@[j] as int));
                    assert(groups@[by_x@[i] as int].bbox.right() > groups@[by_x@[tt] as int].bbox.x);
                    assert(active0.contains(by_x@[i]));
                    let k = choose|k: int| 0 <= k < active0.len() && active0[k] == by_x@[i];
                    assert(kept1.contains(active0[k]));
                    let l = choose|l: int| 0 <= l < kept1.len() && kept1[l] == active0[k];
                    assert(kept@[l] == by_x@[i]);
                } else {
                    assert(kept@[kept@.len() - 1] == by_x@[i]);
                }
            }
        }
        active = kept;
        t = t + 1;
    }
    assert forall|q: int| 0 <= q < out@.len() implies match #[trigger] out@[q] {
        Some(a) => is_candidate(groups@, a as int, q),
        None => !has_candidate(groups@, q),
    } by {
        assert(by_x@.contains(q as usize));
        let i = choose|i: int| 0 <= i < by_x@.len() && by_x@[i] == q as usize;
        assert(by_x@[i] as int == q);
    }
    out
}

/// The order in which depths are resolved: most ink first, then scan order.
spec fn depth_key(g: IconGroup) -> SortKey {
    (
        (u32::MAX - g.area) as u64,
        g.bbox.y as u64,
        g.bbox.x as u64,
        (g.origin.0 as u64 * 0x1_0000_0000 + g.origin.1 as u64) as u64,
    )
}

/// Assigns every group its depth, parents before children.
fn resolve_depths(groups: &Vec<IconGroup>, nodes: &mut Vec<Containment>, limit: u32, Ghost(m): Ghost<ForegroundMask>) -> (top: u32)
    requires
        old(nodes)@.len() == groups@.len(),
        forall|q: int|
            0 <= q < groups@.len() ==> parent_is(m, groups@, q, (#[trigger] old(nodes)@[q]).parent),
    ensures
        final(nodes)@.len() == groups@.len(),
        forall|q: int|
            0 <= q < groups@.len() ==> (#[trigger] final(nodes)@[q]).parent == old(nodes)@[q].parent
                && final(nodes)@[q].holes == old(nodes)@[q].holes && final(nodes)@[q].depth
                == depth_of(groups@, final(nodes)@, limit, q),
        is_max_depth(final(nodes)@, groups@.len() as int, 0, top),
{
    let n: usize = groups.len();
    let ghost nodes0 = nodes@;
    let mut keys: Vec<SortKey> = Vec::new();
    let mut i: usize = 0;
    while i < n
        invariant
            i <= n,
            n == groups@.len(),
            keys@.len() == i,
            forall|k: int| 0 <= k < i ==> #[trigger] keys@[k] == depth_key(groups@[k]),
        decreases n - i,
    {
        let g = groups[i];
        keys.push(
            (
                (u32::MAX - g.area) as u64,
                g.bbox.y as u64,
                g.bbox.x as u64,
                g.origin.0 as u64 * 0x1_0000_0000 + g.origin.1 as u64,
            ),
        );
        i = i + 1;
    }
    let order = sorting::sort_order(&keys);
    let mut top: u32 = 0;
    let mut t: usize = 0;
    while t < n
        invariant
            t <= n,
            n == groups@.len(),
            nodes@.len() == n,
            nodes0.len() == n,
            keys@.len() == n,
            forall|k: int| 0 <= k < n ==> #[trigger] keys@[k] == depth_key(groups@[k]),
            sorting::is_order(keys@, order@, 0, n as int),
            forall|q: int|
                0 <= q < n ==> parent_is(m, groups@, q, (#[trigger] nodes0[q]).parent),
            forall|q: int|
                0 <= q < n ==> (#[trigger] nodes@[q]).parent == nodes0[q].parent && nodes@[q].holes
                    == nodes0[q].holes,
            forall|i: int|
                0 <= i < t ==> nodes@[#[trigger] order@[i] as int].depth == depth_of(
                    groups@,
                    nodes0,
                    limit,
                    order@[i] as int,
                ),
            forall|i: int| 0 <= i < t ==> nodes@[#[trigger] order@[i] as int].depth <= top,
            top == 0 || exists|i: int| 0 <= i < t && nodes@[#[trigger] order@[i] as int].depth == top,
        decreases n - t,
    {
        let q: usize = order[t];
        let ghost nodes1 = nodes@;
        let node = nodes[q];
        let depth: u32 = match node.parent {
            Some(p) => {
                proof {
                    assert(is_parent(m, groups@, p as int, q as int));
                    assert(order@.contains(p as usize));
                    let i = choose|i: int| 0 <= i < order@.len() && order@[i] == p as usize;
                    if i > t {
                        assert(sorting::pos_lt(keys@, order@[t as int] as int, order@[i] as int));
                    }
                    assert(i < t);
                    assert(nodes@[order@[i] as int].depth == depth_of(
                        groups@,
                        nodes0,
                        limit,
                        p as int,
                    ));
                }
                let d: u32 = nodes[p as usize].depth;
                if d < limit {
                    d + 1
                } else {
                    limit
                }
            },
            None => 0,
        };
        nodes.set(q, Containment { parent: node.parent, depth, holes: node.holes });
        let ghost top0 = top;
        if depth > top {
            top = depth;
        }
        proof {
            assert forall|i: int| 0 <= i < t + 1 implies nodes@[#[trigger] order@[i] as int].depth
                == depth_of(groups@, nodes0, limit, order@[i] as int)
                && nodes@[order@[i] as int].depth <= top by {
                if i < t {
                    assert(sorting::pos_lt(keys@, order@[i] as int, order@[t as int] as int));
                    assert(order@[i] != q);
                    assert(nodes@[order@[i] as int] == nodes1[order@[i] as int]);
                }
            }
            if top == depth {
                assert(nodes@[order@[t as int] as int].depth == top);
            } else if top != 0 {
                let i = choose|i: int|
                    0 <= i < t && nodes1[#[trigger] order@[i] as int].depth == top0;
                assert(sorting::pos_lt(keys@, order@[i] as int, order@[t as int] as int));
                assert(nodes@[order@[i] as int].depth == top);
            }
        }
        t = t + 1;
    }
    proof {
        assert forall|q: int| 0 <= q < n implies (#[trigger] nodes@[q]).depth == depth_of(
            groups@,
            nodes@,
            limit,
            q,
        ) && nodes@[q].depth <= top by {
            assert(order@.contains(q as usize));
            let i = choose|i: int| 0 <= i < order@.len() && order@[i] == q as usize;
            assert(nodes@[order@[i] as int].depth == depth_of(groups@, nodes0, limit, q));
            depth_by_parents(groups@, nodes0, nodes@, limit, q);
        }
        if top != 0 {
            let i = choose|i: int| 0 <= i < n && nodes@[#[trigger] order@[i] as int].depth == top;
            assert(nodes@[order@[i] as int].depth == top);
        }
    }
    top
}

/// Depth depends on the parents alone.
proof fn depth_by_parents(groups: Seq<IconGroup>, a: Seq<Containment>, b: Seq<Containment>, limit: u32, i: int)
    requires
        a.len() == groups.len(),
        b.len() == groups.len(),
        0 <= i < groups.len(),
        forall|q: int| 0 <= q < groups.len() ==> (#[trigger] b[q]).parent == a[q].parent,
    ensures
        depth_of(groups, a, limit, i) == depth_of(groups, b, limit, i),
    decreases u32::MAX - groups[i].area,
{
    assert(b[i].parent == a[i].parent);
    match a[i].parent {
        Some(p) => {
            if p < groups.len() && groups[p as int].area > groups[i].area {
                depth_by_parents(groups, a, b, limit, p as int);
            }
        },
        None => {},
    }
}

/// Builds the containment forest of `groups`. The counters in `stats` are added
/// to, so a caller may accumulate them over several sheets.
pub fn build_containment(
    groups: &Vec<IconGroup>,
    mask: &ForegroundMask,
    params: &ContainmentParams,
    stats: &mut ContainmentStats,
) -> (r: ContainmentForest)
    requires
        mask.wf(),
        groups_fit(*mask, groups@),
        groups@.len() <= u32::MAX,
        old(stats).pairs_tested + groups@.len() <= u64::MAX,
        old(stats).contained + groups@.len() <= u64::MAX,
        old(stats).rejected_open + groups@.len() <= u64::MAX,
        old(stats).holes + groups@.len() * mask::MAX_PIXELS <= u64::MAX,
    ensures
        !params.enabled ==> *final(stats) == *old(stats) && r.nodes@ == Seq::new(
            groups@.len(),
            |i: int| blank_node(),
        ) && r.roots == groups@.len(),
        params.enabled ==> {
            let n = groups@.len() as int;
            &&& is_forest(*mask, groups@, params.max_depth, r.nodes@)
            &&& r.roots == counting::count_below(at_top(r.nodes@), n)
            &&& final(stats).pairs_tested == old(stats).pairs_tested + counting::count_below(
                tested(groups@),
                n,
            )
            &&& final(stats).contained == old(stats).contained + counting::count_below(
                nested(r.nodes@),
                n,
            )
            &&& final(stats).rejected_open == old(stats).rejected_open + (counting::count_below(
                tested(groups@),
                n,
            ) - counting::count_below(nested(r.nodes@), n))
            &&& final(stats).holes == old(stats).holes + counting::sum_below(
                node_holes(r.nodes@),
                n,
            )
            &&& is_max_depth(r.nodes@, n, old(stats).max_depth, final(stats).max_depth)
        },
{
    let n: usize = groups.len();
    let mut nodes: Vec<Containment> = Vec::new();
    let mut i: usize = 0;
    while i < n
        invariant
            i <= n,
            nodes@.len() == i,
            forall|k: int| 0 <= k < i ==> #[trigger] nodes@[k] == blank_node(),
        decreases n - i,
    {
        nodes.push(Containment { parent: None, depth: 0, holes: 0 });
        i = i + 1;
    }
    if !params.enabled {
        assert(nodes@ =~= Seq::new(groups@.len(), |i: int| blank_node()));
        return ContainmentForest { nodes, roots: n as u32 };
    }
    let candidates = find_candidates(groups, Ghost(*mask));
    let ghost s0 = *stats;
    let mut pairs: u64 = 0;
    let mut contained: u64 = 0;
    let mut q: usize = 0;
    while q < n
        invariant
            q <= n,
            n == groups@.len(),
            n <= u32::MAX,
            mask.wf(),
            groups_fit(*mask, groups@),
            nodes@.len() == n,
            candidates@.len() == n,
            forall|k: int|
                0 <= k < n ==> match #[trigger] candidates@[k] {
                    Some(a) => is_candidate(groups@, a as int, k),
                    None => !has_candidate(groups@, k),
                },
            forall|k: int|
                0 <= k < n ==> (#[trigger] nodes@[k]).depth == 0 && nodes@[k].holes == 0,
            forall|k: int|
                0 <= k < q ==> parent_is(*mask, groups@, k, (#[trigger] nodes@[k]).parent),
            pairs == counting::count_below(tested(groups@), q as int),
            contained == counting::count_below(nested(nodes@), q as int),
            contained <= pairs <= q,
        decreases n - q,
    {
        let ghost nodes0 = nodes@;
        match candidates[q] {
            Some(a) => {
                proof {
                    assert(is_candidate(groups@, a as int, q as int));
                    assert(tested(groups@)(q as int));
                    assert(groups@[a as int].bbox.fits(mask.width as int, mask.height as int));
                    assert(groups@[q as int].bbox.fits(mask.width as int, mask.height as int));
                }
                pairs = pairs + 1;
                if verify_enclosure(groups[a].bbox, &groups[q], mask) {
                    contained = contained + 1;
                    nodes.set(q, Containment { parent: Some(a as u32), depth: 0, holes: 0 });
                    assert(is_parent(*mask, groups@, a as int, q as int));
                } else {
                    nodes.set(q, Containment { parent: None, depth: 0, holes: 0 });
                    assert forall|b: int| !#[trigger] is_parent(*mask, groups@, b, q as int) by {
                        if is_candidate(groups@, b, q as int) {
                            assert(eligible(groups@, a as int, q as int));
                            assert(eligible(groups@, b, q as int));
                            assert(a == b);
                        }
                    }
                }
            },
            None => {
                nodes.set(q, Containment { parent: None, depth: 0, holes: 0 });
                proof {
                    assert(!tested(groups@)(q as int));
                    assert forall|b: int| !#[trigger] is_parent(*mask, groups@, b, q as int) by {}
                }
            },
        }
        proof {
            counting::count_ext(nested(nodes0), nested(nodes@), q as int);
        }
        q = q + 1;
    }
    let ghost nodes1 = nodes@;
    let top: u32 = resolve_depths(groups, &mut nodes, params.max_depth, Ghost(*mask));
    proof {
        counting::count_ext(nested(nodes1), nested(nodes@), n as int);
    }
    let ghost nodes2 = nodes@;
    let mut holes: u64 = 0;
    let mut roots: u32 = 0;
    let mut i: usize = 0;
    while i < n
        invariant
            i <= n,
            n == groups@.len(),
            n <= u32::MAX,
            mask.wf(),
            groups_fit(*mask, groups@),
            nodes@.len() == n,
            nodes2.len() == n,
            forall|k: int|
                0 <= k < n ==> (#[trigger] nodes@[k]).parent == nodes2[k].parent && nodes@[k].depth
                    == nodes2[k].depth,
            forall|k: int| 0 <= k < i ==> (#[trigger] nodes@[k]).holes == holes_of(*mask, groups@[k]),
            holes == counting::sum_below(node_holes(nodes@), i as int),
            holes <= i * mask::MAX_PIXELS,
            roots == counting::count_below(at_top(nodes2), i as int),
            roots <= i,
        decreases n - i,
    {
        assert(groups@[i as int].bbox.fits(mask.width as int, mask.height as int));
        let h: u32 = count_holes(&groups[i], mask);
        let node = nodes[i];
        let ghost nodes3 = nodes@;
        nodes.set(i, Containment { parent: node.parent, depth: node.depth, holes: h });
        proof {
            counting::sum_ext(node_holes(nodes3), node_holes(nodes@), i as int);
            assert(at_top(nodes2)(i as int) == (node.depth == 0));
            assert((i + 1) * mask::MAX_PIXELS == i * mask::MAX_PIXELS + mask::MAX_PIXELS);
        }
        holes = holes + h as u64;
        if node.depth == 0 {
            roots = roots + 1;
        }
        i = i + 1;
    }
    stats.pairs_tested = stats.pairs_tested + pairs;
    stats.contained = stats.contained + contained;
    stats.rejected_open = stats.rejected_open + (pairs - contained);
    stats.holes = stats.holes + holes;
    if top > stats.max_depth {
        stats.max_depth = top;
    }
    proof {
        counting::count_ext(nested(nodes2), nested(nodes@), n as int);
        counting::count_ext(at_top(nodes2), at_top(nodes@), n as int);
        assert forall|k: int| 0 <= k < n implies parent_is(
            *mask,
            groups@,
            k,
            (#[trigger] nodes@[k]).parent,
        ) && nodes@[k].depth == depth_of(groups@, nodes@, params.max_depth, k) by {
            assert(nodes2[k].parent == nodes1[k].parent);
            assert(nodes2[k].depth == depth_of(groups@, nodes2, params.max_depth, k));
            depth_by_parents(groups@, nodes2, nodes@, params.max_depth, k);
        }
        assert forall|k: int| 0 <= k < n implies (#[trigger] nodes@[k]).depth <= top by {
            assert(nodes2[k].depth <= top);
        }
        if top != 0 {
            let k = choose|k: int| 0 <= k < n && (#[trigger] nodes2[k]).depth == top;
            assert(nodes@[k].depth == top);
        }
    }
    ContainmentForest { nodes, roots }
}

// ---- laws -----------------------------------------------------------------------

/// An enclosing group has strictly more ink than what it encloses and a box
/// that is not the same; so nesting has no cycles, and equal boxes never nest.
pub proof fn parent_is_larger(m: ForegroundMask, groups: Seq<IconGroup>, limit: u32, nodes: Seq<Containment>, q: int)
    requires
        is_forest(m, groups, limit, nodes),
        0 <= q < groups.len(),
        nodes[q].parent is Some,
    ensures
        nodes[q].parent->0 < groups.len(),
        groups[nodes[q].parent->0 as int].area > groups[q].area,
        groups[nodes[q].parent->0 as int].bbox != groups[q].bbox,
{
    assert(parent_is(m, groups, q, nodes[q].parent));
}

/// A child lies one level below its parent, as far as the limit allows, and a
/// group without a parent is at the top.
pub proof fn child_is_one_deeper(m: ForegroundMask, groups: Seq<IconGroup>, limit: u32, nodes: Seq<Containment>, q: int)
    requires
        is_forest(m, groups, limit, nodes),
        0 <= q < groups.len(),
    ensures
        nodes[q].depth <= limit,
        nodes[q].parent is None ==> nodes[q].depth == 0,
        nodes[q].parent is Some ==> nodes[q].depth == (if nodes[nodes[q].parent->0 as int].depth + 1
            < limit {
            nodes[nodes[q].parent->0 as int].depth + 1
        } else {
            limit as int
        }),
{
    assert(parent_is(m, groups, q, nodes[q].parent));
    assert(nodes[q].depth == depth_of(groups, nodes, limit, q));
    if nodes[q].parent is Some {
        let p = nodes[q].parent->0 as int;
        assert(nodes[p].depth == depth_of(groups, nodes, limit, p));
    }
}

proof fn parents_agree(m: ForegroundMask, groups: Seq<IconGroup>, q: int, a: Option<u32>, b: Option<u32>)
    requires
        parent_is(m, groups, q, a),
        parent_is(m, groups, q, b),
    ensures
        a == b,
{
    match (a, b) {
        (Some(x), Some(y)) => {
            assert(eligible(groups, x as int, q) && eligible(groups, y as int, q));
        },
        (Some(x), None) => {
            assert(!is_parent(m, groups, x as int, q));
        },
        (None, Some(y)) => {
            assert(!is_parent(m, groups, y as int, q));
        },
        (None, None) => {},
    }
}

proof fn depths_agree(groups: Seq<IconGroup>, a: Seq<Containment>, b: Seq<Containment>, limit: u32, i: int)
    requires
        0 <= i < groups.len(),
        forall|q: int| 0 <= q < groups.len() ==> (#[trigger] a[q]).parent == b[q].parent,
    ensures
        depth_of(groups, a, limit, i) == depth_of(groups, b, limit, i),
    decreases u32::MAX - groups[i].area,
{
    assert(a[i].parent == b[i].parent);
    if let Some(p) = a[i].parent {
        if p < groups.len() && groups[p as int].area > groups[i].area {
            depths_agree(groups, a, b, limit, p as int);
        }
    }
}

/// A list of groups has one forest.
pub proof fn forest_is_unique(
    m: ForegroundMask,
    groups: Seq<IconGroup>,
    limit: u32,
    a: Seq<Containment>,
    b: Seq<Containment>,
)
    requires
        is_forest(m, groups, limit, a),
        is_forest(m, groups, limit, b),
    ensures
        a == b,
{
    assert forall|q: int| 0 <= q < groups.len() implies (#[trigger] a[q]).parent == b[q].parent by {
        assert(parent_is(m, groups, q, b[q].parent));
        parents_agree(m, groups, q, a[q].parent, b[q].parent);
    }
    assert forall|q: int| 0 <= q < groups.len() implies a[q] == b[q] by {
        assert(a[q].parent == b[q].parent);
        depths_agree(groups, a, b, limit, q);
        assert(b[q].holes == holes_of(m, groups[q]));
    }
    assert(a =~= b);
}

/// `back` undoes `p`, and `gb` lists the groups of `ga` in the order of `p`.
pub open spec fn is_reordering(ga: Seq<IconGroup>, gb: Seq<IconGroup>, p: Seq<u32>, back: Seq<u32>) -> bool {
    &&& ga.len() == gb.len() == p.len() == back.len()
    &&& forall|i: int|
        0 <= i < p.len() ==> (#[trigger] p[i]) < p.len() && back[p[i] as int] == i && gb[i]
            == ga[p[i] as int]
    &&& forall|j: int| 0 <= j < back.len() ==> (#[trigger] back[j]) < p.len() && p[back[j] as int] == j
}

/// No two groups that may enclose one group have the same ink.
pub open spec fn has_no_ties(groups: Seq<IconGroup>) -> bool {
    forall|a: int, b: int, q: int|
        0 <= q < groups.len() && #[trigger] eligible(groups, a, q) && #[trigger] eligible(groups, b, q)
            && groups[a].area == groups[b].area ==> a == b
}

/// Reordered groups have the same candidates.
proof fn candidates_move(ga: Seq<IconGroup>, gb: Seq<IconGroup>, p: Seq<u32>, back: Seq<u32>, a: int, q: int)
    requires
        is_reordering(ga, gb, p, back),
        has_no_ties(ga),
        0 <= a < gb.len(),
        0 <= q < gb.len(),
    ensures
        is_candidate(gb, a, q) == is_candidate(ga, p[a] as int, p[q] as int),
{
    let pa = p[a] as int;
    let pq = p[q] as int;
    assert(gb[a] == ga[pa] && gb[q] == ga[pq]);
    assert(eligible(gb, a, q) == eligible(ga, pa, pq));
    if is_candidate(gb, a, q) {
        assert forall|b: int| #[trigger] eligible(ga, b, pq) implies ga[pa].area < ga[b].area || (
        ga[pa].area == ga[b].area && pa <= b) by {
            let j = back[b] as int;
            assert(p[j] == b);
            assert(gb[j] == ga[b]);
            assert(eligible(gb, j, q));
        }
    }
    if is_candidate(ga, pa, pq) {
        assert forall|b: int| #[trigger] eligible(gb, b, q) implies gb[a].area < gb[b].area || (
        gb[a].area == gb[b].area && a <= b) by {
            assert(gb[b] == ga[p[b] as int]);
            assert(eligible(ga, p[b] as int, pq));
            assert(back[p[b] as int] == b && back[pa] == a);
        }
    }
}

proof fn depths_move(
    ga: Seq<IconGroup>,
    gb: Seq<IconGroup>,
    p: Seq<u32>,
    back: Seq<u32>,
    limit: u32,
    a: Seq<Containment>,
    b: Seq<Containment>,
    i: int,
)
    requires
        is_reordering(ga, gb, p, back),
        0 <= i < gb.len(),
        forall|k: int|
            0 <= k < gb.len() ==> match (#[trigger] b[k]).parent {
                Some(x) => x < gb.len() && a[p[k] as int].parent == Some(p[x as int]),
                None => a[p[k] as int].parent is None,
            },
    ensures
        depth_of(gb, b, limit, i) == depth_of(ga, a, limit, p[i] as int),
    decreases u32::MAX - gb[i].area,
{
    assert(gb[i] == ga[p[i] as int]);
    match b[i].parent {
        Some(x) => {
            assert(gb[x as int] == ga[p[x as int] as int]);
            if gb[x as int].area > gb[i].area {
                depths_move(ga, gb, p, back, limit, a, b, x as int);
            }
        },
        None => {},
    }
}

/// The forest does not depend on the order of the list: listed in another order,
/// each group keeps its candidate, its parent, its depth and its holes. Where two
/// groups with the same ink may enclose one group, the first of them is taken, so
/// such ties are left out.
pub proof fn order_does_not_matter(
    m: ForegroundMask,
    ga: Seq<IconGroup>,
    gb: Seq<IconGroup>,
    p: Seq<u32>,
    back: Seq<u32>,
    limit: u32,
    a: Seq<Containment>,
    b: Seq<Containment>,
)
    requires
        is_reordering(ga, gb, p, back),
        has_no_ties(ga),
        is_forest(m, ga, limit, a),
        is_forest(m, gb, limit, b),
    ensures
        forall|i: int|
            0 <= i < gb.len() ==> {
                &&& has_candidate(gb, i) == has_candidate(ga, p[i] as int)
                &&& match (#[trigger] b[i]).parent {
                    Some(x) => x < gb.len() && a[p[i] as int].parent == Some(p[x as int]),
                    None => a[p[i] as int].parent is None,
                }
                &&& b[i].depth == a[p[i] as int].depth
                &&& b[i].holes == a[p[i] as int].holes
            },
{
    assert forall|i: int| 0 <= i < gb.len() implies match (#[trigger] b[i]).parent {
        Some(x) => x < gb.len() && a[p[i] as int].parent == Some(p[x as int]),
        None => a[p[i] as int].parent is None,
    } by {
        let pi = p[i] as int;
        assert(gb[i] == ga[pi]);
        assert(parent_is(m, gb, i, b[i].parent));
        assert(parent_is(m, ga, pi, a[pi].parent));
        match b[i].parent {
            Some(x) => {
                candidates_move(ga, gb, p, back, x as int, i);
                assert(gb[x as int] == ga[p[x as int] as int]);
                assert(is_parent(m, ga, p[x as int] as int, pi));
                parents_agree(m, ga, pi, a[pi].parent, Some(p[x as int]));
            },
            None => {
                if let Some(y) = a[pi].parent {
                    let j = back[y as int] as int;
                    assert(p[j] == y);
                    assert(gb[j] == ga[y as int]);
                    candidates_move(ga, gb, p, back, j, i);
                    assert(is_parent(m, gb, j, i));
                }
            },
        }
    }
    assert forall|i: int| 0 <= i < gb.len() implies has_candidate(gb, i) == has_candidate(
        ga,
        p[i] as int,
    ) && (#[trigger] b[i]).depth == a[p[i] as int].depth && b[i].holes == a[p[i] as int].holes by {
        let pi = p[i] as int;
        assert(gb[i] == ga[pi]);
        depths_move(ga, gb, p, back, limit, a, b, i);
        assert(a[pi].depth == depth_of(ga, a, limit, pi));
        assert(b[i].depth == depth_of(gb, b, limit, i));
        if has_candidate(gb, i) {
            let x = choose|x: int| #[trigger] is_candidate(gb, x, i);
            assert(eligible(gb, x, i));
            candidates_move(ga, gb, p, back, x, i);
        }
        if has_candidate(ga, pi) {
            let y = choose|y: int| #[trigger] is_candidate(ga, y, pi);
            assert(eligible(ga, y, pi));
            let j = back[y] as int;
            assert(p[j] == y);
            candidates_move(ga, gb, p, back, j, i);
        }
    }
}

// ---- what nesting means -------------------------------------------------------------

/// `outer` holds `inner`'s box without being the same box, and has more ink.
pub open spec fn is_around(outer: IconGroup, inner: IconGroup) -> bool {
    &&& outer.area > inner.area
    &&& outer.bbox.x <= inner.bbox.x
    &&& outer.bbox.y <= inner.bbox.y
    &&& outer.bbox.x + outer.bbox.w >= inner.bbox.x + inner.bbox.w
    &&& outer.bbox.y + outer.bbox.h >= inner.bbox.y + inner.bbox.h
    &&& outer.bbox != inner.bbox
}

proof fn around_is_eligible(groups: Seq<IconGroup>, a: int, q: int)
    requires
        0 <= a < groups.len(),
    ensures
        eligible(groups, a, q) == is_around(groups[a], groups[q]),
{
    let o = groups[a].bbox;
    let i = groups[q].bbox;
    if o.x <= i.x && o.y <= i.y && o.right() >= i.right() && o.bottom() >= i.bottom() && !(o.w > i.w || o.h
        > i.h) {
        assert(o == i);
    }
}

/// A parent is around its child, and no group with less ink is; of those with as
/// much it comes first.
pub proof fn parent_is_the_least_group_around(
    m: ForegroundMask,
    groups: Seq<IconGroup>,
    limit: u32,
    nodes: Seq<Containment>,
    q: int,
    b: int,
)
    requires
        is_forest(m, groups, limit, nodes),
        0 <= q < groups.len(),
        nodes[q].parent is Some,
        0 <= b < groups.len(),
    ensures
        ({
            let a = nodes[q].parent->0 as int;
            &&& a < groups.len()
            &&& is_around(groups[a], groups[q])
            &&& is_around(groups[b], groups[q]) ==> groups[a].area < groups[b].area || (groups[a].area
                == groups[b].area && a <= b)
        }),
{
    let a = nodes[q].parent->0 as int;
    assert(parent_is(m, groups, q, nodes[q].parent));
    assert(is_candidate(groups, a, q));
    around_is_eligible(groups, a, q);
    around_is_eligible(groups, b, q);
}

proof fn cell_place(b: Bbox, x: int, y: int)
    requires
        b.covers(x, y),
    ensures
        0 <= cell(b, x, y) < b.w * b.h,
        cell(b, x, y) % (b.w as int) == x - b.x,
        cell(b, x, y) / (b.w as int) == y - b.y,
{
    let w = b.w as int;
    let h = b.h as int;
    let k = (y - b.y) * w + (x - b.x);
    mask::lemma_pixel_in(w, h, x - b.x, y - b.y);
    mask::lemma_pixel_split(w, h, k);
    mask::lemma_pixel_inj(w, k % w, k / w, x - b.x, y - b.y);
}

proof fn gap_place(m: ForegroundMask, b: Bbox, x: int, y: int)
    requires
        b.covers(x, y),
    ensures
        box_gap(m, b)[cell(b, x, y)] == !m.ink(x, y),
        box_ink(m, b)[cell(b, x, y)] == m.ink(x, y),
{
    cell_place(b, x, y);
}

/// The pixel lies on a side of the box.
pub open spec fn is_on_side(b: Bbox, x: int, y: int) -> bool {
    &&& b.x <= x < b.x + b.w
    &&& b.y <= y < b.y + b.h
    &&& x == b.x || y == b.y || x == b.x + b.w - 1 || y == b.y + b.h - 1
}

/// The pixels share a side.
pub open spec fn is_beside(x: int, y: int, a: int, b: int) -> bool {
    (x == a && (y == b + 1 || y == b - 1)) || (y == b && (x == a + 1 || x == a - 1))
}

/// The set holds the inkless pixels on the sides of the box and, with a pixel, the
/// inkless pixels of the box beside it.
pub open spec fn holds_the_outside(m: ForegroundMask, b: Bbox, s: spec_fn(int, int) -> bool) -> bool {
    &&& forall|x: int, y: int| is_on_side(b, x, y) && !m.ink(x, y) ==> #[trigger] s(x, y)
    &&& forall|x: int, y: int, u: int, v: int|
        #![trigger s(x, y), m.ink(u, v)]
        s(x, y) && is_beside(x, y, u, v) && b.x <= u < b.x + b.w && b.y <= v < b.y + b.h && !m.ink(u, v) ==> s(
            u,
            v,
        )
}

proof fn leaks_hold_the_outside(m: ForegroundMask, b: Bbox)
    requires
        b.w > 0,
        b.h > 0,
    ensures
        holds_the_outside(m, b, |x: int, y: int| leaks(m, b, x, y)),
{
    let s = |x: int, y: int| leaks(m, b, x, y);
    let w = b.w as int;
    let step = flood::step4(w, box_gap(m, b));
    assert forall|x: int, y: int| is_on_side(b, x, y) && !m.ink(x, y) implies #[trigger] s(x, y) by {
        cell_place(b, x, y);
        gap_place(m, b, x, y);
        let k = cell(b, x, y);
        connect::reaches_self(step, k);
        assert(box_gap(m, b)[k]);
    }
    assert forall|x: int, y: int, u: int, v: int|
        #![trigger s(x, y), m.ink(u, v)]
        s(x, y) && is_beside(x, y, u, v) && b.x <= u < b.x + b.w && b.y <= v < b.y + b.h && !m.ink(u, v) implies s(
        u,
        v,
    ) by {
        let k = cell(b, x, y);
        let j = cell(b, u, v);
        cell_place(b, x, y);
        cell_place(b, u, v);
        gap_place(m, b, u, v);
        let t = choose|t: int|
            0 <= t < b.w * b.h && on_border(b.w as int, b.h as int, t) && #[trigger] box_gap(m, b)[t]
                && connect::reaches(step, t, k);
        let keep = |c: int| 0 <= c < b.w * b.h && box_gap(m, b)[c];
        connect::reaches_keeps(step, keep, t, k);
        flood::neighbours_differ_by_one(w, false, x - b.x, y - b.y, u - b.x, v - b.y);
        assert(step(k, j));
        connect::reaches_step(step, t, k, j);
        assert(box_gap(m, b)[t]);
    }
}

proof fn leaks_are_outside(m: ForegroundMask, b: Bbox, s: spec_fn(int, int) -> bool, x: int, y: int)
    requires
        b.w > 0,
        b.h > 0,
        holds_the_outside(m, b, s),
        leaks(m, b, x, y),
    ensures
        s(x, y),
{
    let w = b.w as int;
    let h = b.h as int;
    let gap = box_gap(m, b);
    let step = flood::step4(w, gap);
    let k = cell(b, x, y);
    cell_place(b, x, y);
    let t = choose|t: int|
        0 <= t < b.w * b.h && on_border(b.w as int, b.h as int, t) && #[trigger] box_gap(m, b)[t]
            && connect::reaches(step, t, k);
    let keep = |c: int| 0 <= c < b.w * b.h && gap[c] && s(b.x + c % w, b.y + c / w);
    mask::lemma_pixel_split(w, h, t);
    assert(is_on_side(b, b.x + t % w, b.y + t / w));
    assert(!m.ink(b.x + t % w, b.y + t / w));
    assert(keep(t));
    assert forall|c: int, d: int| #[trigger] step(c, d) && keep(c) implies keep(d) by {
        mask::lemma_pixel_split(w, h, c);
        mask::lemma_pixel_split(w, h, d);
        flood::neighbours_differ_by_one(w, false, c % w, c / w, d % w, d / w);
        assert(!m.ink(b.x + d % w, b.y + d / w));
        assert(s(b.x + c % w, b.y + c / w));
        assert(is_beside(b.x + c % w, b.y + c / w, b.x + d % w, b.y + d / w));
    }
    connect::reaches_keeps(step, keep, t, k);
}

/// No way leads from outside a parent's box through inkless pixels, side by side,
/// to the child's origin.
pub proof fn parents_close_their_children_off(
    m: ForegroundMask,
    groups: Seq<IconGroup>,
    limit: u32,
    nodes: Seq<Containment>,
    q: int,
) -> (outside: spec_fn(int, int) -> bool)
    requires
        m.wf(),
        groups_fit(m, groups),
        is_forest(m, groups, limit, nodes),
        0 <= q < groups.len(),
        nodes[q].parent is Some,
        m.ink(groups[q].origin.0 as int, groups[q].origin.1 as int),
    ensures
        holds_the_outside(m, groups[nodes[q].parent->0 as int].bbox, outside),
        forall|x: int, y: int|
            is_beside(x, y, groups[q].origin.0 as int, groups[q].origin.1 as int) ==> !#[trigger] outside(x, y),
{
    let a = nodes[q].parent->0 as int;
    let b = groups[a].bbox;
    let g = groups[q];
    assert(parent_is(m, groups, q, nodes[q].parent));
    assert(is_candidate(groups, a, q));
    leaks_hold_the_outside(m, b);
    let s = |x: int, y: int| leaks(m, b, x, y);
    let ox = g.origin.0 as int;
    let oy = g.origin.1 as int;
    assert(own_pixel(m, g, ox, oy)) by {
        connect::reaches_self(flood::step8(g.bbox.w as int, box_ink(m, g.bbox)), cell(g.bbox, ox, oy));
    }
    assert forall|x: int, y: int| is_beside(x, y, ox, oy) implies !#[trigger] s(x, y) by {
        assert(own_pixel(m, g, ox, oy));
    }
    s
}

/// The least group around another is its parent where some set of pixels holds the
/// outside of its box and nothing beside the other's ink.
pub proof fn closed_off_groups_have_a_parent(
    m: ForegroundMask,
    groups: Seq<IconGroup>,
    limit: u32,
    nodes: Seq<Containment>,
    a: int,
    q: int,
    outside: spec_fn(int, int) -> bool,
)
    requires
        m.wf(),
        groups_fit(m, groups),
        is_forest(m, groups, limit, nodes),
        0 <= q < groups.len(),
        0 <= a < groups.len() <= u32::MAX,
        is_around(groups[a], groups[q]),
        forall|b: int|
            0 <= b < groups.len() && is_around(#[trigger] groups[b], groups[q]) ==> groups[a].area
                < groups[b].area || (groups[a].area == groups[b].area && a <= b),
        holds_the_outside(m, groups[a].bbox, outside),
        forall|x: int, y: int, u: int, v: int|
            #![trigger m.ink(x, y), outside(u, v)]
            m.ink(x, y) && groups[q].bbox.covers(x, y) && is_beside(u, v, x, y) ==> !outside(u, v),
    ensures
        nodes[q].parent == Some(a as u32),
{
    let g = groups[q];
    let b = groups[a].bbox;
    around_is_eligible(groups, a, q);
    assert forall|c: int| #[trigger] eligible(groups, c, q) implies groups[a].area < groups[c].area || (
    groups[a].area == groups[c].area && a <= c) by {
        around_is_eligible(groups, c, q);
        assert(is_around(groups[c], groups[q]));
    }
    assert(is_candidate(groups, a, q));
    let w = g.bbox.w as int;
    let ink = box_ink(m, g.bbox);
    let step = flood::step8(w, ink);
    assert(b.w > 0 && b.h > 0);
    assert forall|x: int, y: int| #[trigger] own_pixel(m, g, x, y) implies !leaks(m, b, x - 1, y) && !leaks(
        m,
        b,
        x + 1,
        y,
    ) && !leaks(m, b, x, y - 1) && !leaks(m, b, x, y + 1) by {
        let ox = g.origin.0 as int;
        let oy = g.origin.1 as int;
        let keep = |c: int| 0 <= c < g.bbox.w * g.bbox.h && ink[c];
        cell_place(g.bbox, ox, oy);
        gap_place(m, g.bbox, ox, oy);
        cell_place(g.bbox, x, y);
        connect::reaches_keeps(step, keep, cell(g.bbox, ox, oy), cell(g.bbox, x, y));
        gap_place(m, g.bbox, x, y);
        assert(m.ink(x, y));
        assert(!outside(x - 1, y) && !outside(x + 1, y) && !outside(x, y - 1) && !outside(x, y + 1));
        if leaks(m, b, x - 1, y) {
            leaks_are_outside(m, b, outside, x - 1, y);
        }
        if leaks(m, b, x + 1, y) {
            leaks_are_outside(m, b, outside, x + 1, y);
        }
        if leaks(m, b, x, y - 1) {
            leaks_are_outside(m, b, outside, x, y - 1);
        }
        if leaks(m, b, x, y + 1) {
            leaks_are_outside(m, b, outside, x, y + 1);
        }
    }
    assert(is_parent(m, groups, a, q));
    assert(parent_is(m, groups, q, nodes[q].parent));
    if let Some(p) = nodes[q].parent {
        assert(is_candidate(groups, p as int, q));
    }
}

proof fn pocket_head(m: ForegroundMask, g: IconGroup, k: int) -> (h: int)
    requires
        g.bbox.w > 0,
        g.bbox.h > 0,
        0 <= k < g.bbox.w * g.bbox.h,
        pocket_cells(m, g.bbox)[k],
    ensures
        0 <= h <= k,
        pocket_cells(m, g.bbox)[h],
        connect::reaches(flood::step4(g.bbox.w as int, pocket_cells(m, g.bbox)), h, k),
        forall|j: int|
            0 <= j < h && #[trigger] pocket_cells(m, g.bbox)[j] ==> !connect::reaches(
                flood::step4(g.bbox.w as int, pocket_cells(m, g.bbox)),
                j,
                h,
            ),
    decreases k,
{
    let cells = pocket_cells(m, g.bbox);
    let step = flood::step4(g.bbox.w as int, cells);
    if exists|j: int| 0 <= j < k && #[trigger] cells[j] && connect::reaches(step, j, k) {
        let j = choose|j: int| 0 <= j < k && #[trigger] cells[j] && connect::reaches(step, j, k);
        let h = pocket_head(m, g, j);
        connect::reaches_trans(step, h, j, k);
        h
    } else {
        connect::reaches_self(step, k);
        k
    }
}

/// A group has a hole where some set of pixels holds the outside of its box and
/// misses an inkless pixel beside its origin.
pub proof fn closed_pockets_are_holes(m: ForegroundMask, g: IconGroup, outside: spec_fn(int, int) -> bool, x: int, y: int)
    requires
        m.wf(),
        g.bbox.fits(m.width as int, m.height as int),
        g.bbox.covers(g.origin.0 as int, g.origin.1 as int),
        m.ink(g.origin.0 as int, g.origin.1 as int),
        holds_the_outside(m, g.bbox, outside),
        g.bbox.covers(x, y),
        !m.ink(x, y),
        !outside(x, y),
        is_beside(x, y, g.origin.0 as int, g.origin.1 as int),
    ensures
        holes_of(m, g) > 0,
{
    let b = g.bbox;
    let w = b.w as int;
    let k = cell(b, x, y);
    let ox = g.origin.0 as int;
    let oy = g.origin.1 as int;
    cell_place(b, x, y);
    gap_place(m, b, x, y);
    cell_place(b, ox, oy);
    if open_cell(m, b, k) {
        leaks_are_outside(m, b, outside, x, y);
    }
    let cells = pocket_cells(m, b);
    assert(cells[k]);
    let step = flood::step4(w, cells);
    let h = pocket_head(m, g, k);
    let o = cell(b, ox, oy);
    connect::reaches_self(flood::step8(w, box_ink(m, b)), o);
    assert(own_cell(m, g, o));
    flood::neighbours_differ_by_one(w, false, x - b.x, y - b.y, ox - b.x, oy - b.y);
    assert(flood::adj4(w, k, o));
    assert(beside_own(m, g, k));
    assert(connect::reaches(step, h, k));
    assert(heads_hole(m, g, h));
    counting::count_positive(hole_heads(m, g), b.w * b.h, h);
}

/// A group has no hole where every set that holds the outside of its box holds all
/// inkless pixels of the box.
pub proof fn open_groups_have_no_hole(m: ForegroundMask, g: IconGroup)
    requires
        m.wf(),
        g.bbox.fits(m.width as int, m.height as int),
        forall|outside: spec_fn(int, int) -> bool, x: int, y: int|
            #![trigger outside(x, y), m.ink(x, y)]
            holds_the_outside(m, g.bbox, outside) && g.bbox.covers(x, y) && !m.ink(x, y) ==> outside(x, y),
    ensures
        holes_of(m, g) == 0,
{
    let b = g.bbox;
    let w = b.w as int;
    let h = b.h as int;
    leaks_hold_the_outside(m, b);
    let outside = |x: int, y: int| leaks(m, b, x, y);
    let f = hole_heads(m, g);
    assert forall|k: int| 0 <= k < b.w * b.h implies !#[trigger] f(k) by {
        if heads_hole(m, g, k) {
            mask::lemma_pixel_split(w, h, k);
            let x = b.x + k % w;
            let y = b.y + k / w;
            assert(cell(b, x, y) == k);
            assert(!m.ink(x, y));
            assert(outside(x, y));
        }
    }
    lemma_box_area(b, m.width as int, m.height as int);
    counting::count_span(f, 0, b.w * b.h, false);
}

} // verus!
