//! Two masks with the same ink are told apart by nothing: they have the same
//! groups, and the same groups are refined alike. So a cached mask can stand for
//! the one it was made from.
use vstd::prelude::*;
use crate::background::{BackgroundModel, SegParams};
use crate::confidence;
use crate::confidence::{ConfidenceParams, ConfidenceReport, ScoreInput};
use crate::containment;
use crate::containment::Containment;
use crate::fuse;
use crate::geometry::{Bbox, IconGroup};
use crate::grid;
use crate::grid::{GridHint, GridParams};
use crate::group;
use crate::lattice;
use crate::lattice::{LatticeInput, LatticeOutcome};
use crate::mask;
use crate::mask::ForegroundMask;
use crate::maskcache;
use crate::maskcache::EntryText;
use crate::merge::RefineParams;
use crate::refine;
use crate::refine::{RefineStats, RefineTrace};
use crate::raster::SheetRaster;
use crate::segment;
use crate::split;
use crate::split::{SplitOutcome, SplitParams};

verus! {

/// Masks of one size with the same ink.
pub open spec fn alike(a: ForegroundMask, b: ForegroundMask) -> bool {
    &&& a.width == b.width
    &&& a.height == b.height
    &&& forall|x: int, y: int| #[trigger] a.ink(x, y) == b.ink(x, y)
}

// ---- groups -------------------------------------------------------------------------

proof fn same_touch(a: ForegroundMask, b: ForegroundMask)
    requires
        alike(a, b),
    ensures
        group::touch8(a) == group::touch8(b),
{
    assert forall|p: (int, int), q: (int, int)| #[trigger]
        group::touching(a, p, q) == group::touching(b, p, q) by {
        assert(a.ink(p.0, p.1) == b.ink(p.0, p.1));
        assert(a.ink(q.0, q.1) == b.ink(q.0, q.1));
    }
    assert(group::touch8(a) =~= group::touch8(b));
}

proof fn same_connected(a: ForegroundMask, b: ForegroundMask)
    requires
        alike(a, b),
    ensures
        forall|p: (int, int), q: (int, int)|
            #![trigger group::connected(a, p, q)]
            #![trigger group::connected(b, p, q)]
            group::connected(a, p, q) == group::connected(b, p, q),
        forall|p: (int, int)| #[trigger] group::component_area(a, p) == group::component_area(b, p),
        forall|p: (int, int)|
            #![trigger group::is_leader(a, p)]
            #![trigger group::is_leader(b, p)]
            group::is_leader(a, p) == group::is_leader(b, p),
{
    same_touch(a, b);
    assert forall|p: (int, int), q: (int, int)|
        #![trigger group::connected(a, p, q)]
        #![trigger group::connected(b, p, q)]
        group::connected(a, p, q) == group::connected(b, p, q) by {
        assert(a.ink(p.0, p.1) == b.ink(p.0, p.1));
    }
    assert forall|p: (int, int)| #[trigger] group::component_area(a, p) == group::component_area(b, p) by {
        assert(group::member(a, p) =~= group::member(b, p));
    }
    assert forall|p: (int, int)|
        #![trigger group::is_leader(a, p)]
        #![trigger group::is_leader(b, p)]
        group::is_leader(a, p) == group::is_leader(b, p) by {
        assert(a.ink(p.0, p.1) == b.ink(p.0, p.1));
    }
}

proof fn same_component(a: ForegroundMask, b: ForegroundMask, g: IconGroup)
    requires
        alike(a, b),
        group::is_component(a, g),
    ensures
        group::is_component(b, g),
{
    same_connected(a, b);
    let p = group::origin_of(g);
    assert forall|x: int| group::has_column(a, p, x) implies #[trigger] group::has_column(b, p, x) by {
        let q = choose|q: (int, int)| #[trigger] group::connected(a, p, q) && q.0 == x;
        assert(group::connected(b, p, q));
    }
    assert forall|y: int| group::has_row(a, p, y) implies #[trigger] group::has_row(b, p, y) by {
        let q = choose|q: (int, int)| #[trigger] group::connected(a, p, q) && q.1 == y;
        assert(group::connected(b, p, q));
    }
}

/// A grouping of a mask is a grouping of every mask with the same ink.
pub proof fn groups_follow_ink(a: ForegroundMask, b: ForegroundMask, min_area: int, out: Seq<IconGroup>)
    requires
        alike(a, b),
        group::is_grouping(a, min_area, out),
    ensures
        group::is_grouping(b, min_area, out),
{
    same_connected(a, b);
    assert forall|i: int| 0 <= i < out.len() implies group::is_component(b, #[trigger] out[i])
        && out[i].area >= min_area by {
        same_component(a, b, out[i]);
    }
    assert forall|p: (int, int)| #[trigger]
        group::is_leader(b, p) && group::component_area(b, p) >= min_area implies group::lists_origin(
        out,
        p,
    ) by {
        assert(group::is_leader(a, p) && group::component_area(a, p) >= min_area);
    }
}

// ---- boxes --------------------------------------------------------------------------

proof fn same_box(a: ForegroundMask, b: ForegroundMask, r: Bbox)
    requires
        alike(a, b),
    ensures
        containment::box_ink(a, r) == containment::box_ink(b, r),
        containment::box_gap(a, r) == containment::box_gap(b, r),
        containment::pocket_cells(a, r) == containment::pocket_cells(b, r),
        forall|k: int| #[trigger] containment::open_cell(a, r, k) == containment::open_cell(b, r, k),
{
    assert(containment::box_ink(a, r) =~= containment::box_ink(b, r));
    assert(containment::box_gap(a, r) =~= containment::box_gap(b, r));
    assert(containment::pocket_cells(a, r) =~= containment::pocket_cells(b, r));
}

proof fn same_own(a: ForegroundMask, b: ForegroundMask, g: IconGroup)
    requires
        alike(a, b),
    ensures
        forall|k: int|
            #![trigger containment::own_cell(a, g, k)]
            #![trigger containment::own_cell(b, g, k)]
            containment::own_cell(a, g, k) == containment::own_cell(b, g, k),
{
    same_box(a, b, g.bbox);
    assert(a.ink(g.origin.0 as int, g.origin.1 as int) == b.ink(g.origin.0 as int, g.origin.1 as int));
}

proof fn same_enclosure(a: ForegroundMask, b: ForegroundMask, outer: Bbox, g: IconGroup)
    requires
        alike(a, b),
    ensures
        containment::encloses(a, outer, g) == containment::encloses(b, outer, g),
{
    same_own(a, b, g);
    same_box(a, b, outer);
    assert forall|x: int, y: int|
        #![trigger containment::own_pixel(a, g, x, y)]
        #![trigger containment::own_pixel(b, g, x, y)]
        containment::own_pixel(a, g, x, y) == containment::own_pixel(b, g, x, y) by {}
    assert forall|x: int, y: int|
        #![trigger containment::leaks(a, outer, x, y)]
        #![trigger containment::leaks(b, outer, x, y)]
        containment::leaks(a, outer, x, y) == containment::leaks(b, outer, x, y) by {}
}

proof fn same_holes(a: ForegroundMask, b: ForegroundMask, g: IconGroup)
    requires
        alike(a, b),
    ensures
        containment::holes_of(a, g) == containment::holes_of(b, g),
{
    same_own(a, b, g);
    same_box(a, b, g.bbox);
    assert forall|k: int|
        #![trigger containment::beside_own(a, g, k)]
        #![trigger containment::beside_own(b, g, k)]
        containment::beside_own(a, g, k) == containment::beside_own(b, g, k) by {}
    assert forall|k: int| #[trigger] containment::heads_hole(a, g, k) == containment::heads_hole(b, g, k) by {}
    assert(containment::hole_heads(a, g) =~= containment::hole_heads(b, g));
}

proof fn same_forest(
    a: ForegroundMask,
    b: ForegroundMask,
    groups: Seq<IconGroup>,
    limit: u32,
    nodes: Seq<Containment>,
)
    requires
        alike(a, b),
        containment::is_forest(a, groups, limit, nodes),
    ensures
        containment::is_forest(b, groups, limit, nodes),
{
    assert forall|q: int| 0 <= q < groups.len() implies containment::parent_is(
        b,
        groups,
        q,
        (#[trigger] nodes[q]).parent,
    ) && nodes[q].depth == containment::depth_of(groups, nodes, limit, q) && nodes[q].holes
        == containment::holes_of(b, groups[q]) by {
        same_holes(a, b, groups[q]);
        assert(containment::parent_is(a, groups, q, nodes[q].parent));
        assert forall|p: int|
            #![trigger containment::is_parent(a, groups, p, q)]
            #![trigger containment::is_parent(b, groups, p, q)]
            containment::is_parent(a, groups, p, q) == containment::is_parent(b, groups, p, q) by {
            same_enclosure(a, b, groups[p].bbox, groups[q]);
        }
    }
}

// ---- splitting ----------------------------------------------------------------------

proof fn same_part(a: ForegroundMask, b: ForegroundMask, g: IconGroup)
    requires
        alike(a, b),
    ensures
        split::part_of(a, g) == split::part_of(b, g),
{
    same_box(a, b, g.bbox);
    assert(a.ink(g.origin.0 as int, g.origin.1 as int) == b.ink(g.origin.0 as int, g.origin.1 as int));
    assert forall|s: int|
        #![trigger split::is_start(a, g, s)]
        #![trigger split::is_start(b, g, s)]
        split::is_start(a, g, s) == split::is_start(b, g, s) by {}
    assert forall|k: int| #[trigger] split::is_part(a, g, k) == split::is_part(b, g, k) by {}
    assert(split::part_of(a, g) =~= split::part_of(b, g));
}

proof fn same_outcomes(
    a: ForegroundMask,
    b: ForegroundMask,
    groups: Seq<IconGroup>,
    p: SplitParams,
    mh2: int,
    forced: bool,
    outs: Seq<Option<SplitOutcome>>,
)
    requires
        alike(a, b),
        split::are_outcomes(a, groups, p, mh2, forced, outs),
    ensures
        split::are_outcomes(b, groups, p, mh2, forced, outs),
{
    assert forall|i: int| 0 <= i < groups.len() implies match #[trigger] outs[i] {
        Some(o) => split::is_candidate(groups[i], p, mh2, forced) && split::is_outcome(
            b,
            groups[i],
            p,
            mh2,
            o,
        ),
        None => !split::is_candidate(groups[i], p, mh2, forced),
    } by {
        same_part(a, b, groups[i]);
    }
}

// ---- the lattice --------------------------------------------------------------------

proof fn same_hint(a: ForegroundMask, b: ForegroundMask, params: GridParams, h: GridHint)
    requires
        alike(a, b),
        grid::is_hint(a, params, h),
    ensures
        grid::is_hint(b, params, h),
{
    if a.width != 0 && a.height != 0 {
        let (cols, rows) = choose|cols: Seq<u32>, rows: Seq<u32>|
            #![trigger grid::is_column_profile(a, cols), grid::is_row_profile(a, rows)]
            grid::is_column_profile(a, cols) && grid::is_row_profile(a, rows) && grid::is_axis(
                cols,
                params,
                h.grid_x,
                h.cells_x,
                h.pitch_x,
                h.valley_x@,
            ) && grid::is_axis(rows, params, h.grid_y, h.cells_y, h.pitch_y, h.valley_y@);
        assert forall|x: int| #[trigger] grid::column_inked(a, x) == grid::column_inked(b, x) by {
            if grid::column_inked(a, x) {
                let y = choose|y: int| #[trigger] a.ink(x, y);
                assert(b.ink(x, y));
            }
            if grid::column_inked(b, x) {
                let y = choose|y: int| #[trigger] b.ink(x, y);
                assert(a.ink(x, y));
            }
        }
        assert forall|y: int| #[trigger] grid::row_inked(a, y) == grid::row_inked(b, y) by {
            if grid::row_inked(a, y) {
                let x = choose|x: int| #[trigger] a.ink(x, y);
                assert(b.ink(x, y));
            }
            if grid::row_inked(b, y) {
                let x = choose|x: int| #[trigger] b.ink(x, y);
                assert(a.ink(x, y));
            }
        }
        assert(grid::is_column_profile(b, cols)) by {
            assert forall|x: int| 0 <= x < cols.len() implies (#[trigger] cols[x] != 0
                <==> grid::column_inked(b, x)) by {
                assert(grid::column_inked(a, x) == grid::column_inked(b, x));
            }
        }
        assert(grid::is_row_profile(b, rows)) by {
            assert forall|y: int| 0 <= y < rows.len() implies (#[trigger] rows[y] != 0
                <==> grid::row_inked(b, y)) by {
                assert(grid::row_inked(a, y) == grid::row_inked(b, y));
            }
        }
    }
}

proof fn same_lattice(a: ForegroundMask, b: ForegroundMask, q: LatticeInput, p: SplitParams, o: LatticeOutcome)
    requires
        alike(a, b),
        lattice::is_lattice_outcome(a, q, p, o),
    ensures
        lattice::is_lattice_outcome(b, q, p, o),
{
    let (order, pieces) = choose|order: Seq<usize>, pieces: Seq<Vec<IconGroup>>| #[trigger]
        lattice::settles(a, q, p, order, pieces, o);
    let chosen = lattice::chosen_ones(q, order, q.lots.len() as int);
    if lattice::are_resplit(a, chosen, q.mh2, p, pieces, o) && p.enabled && q.mh2 != 0 {
        let outs = choose|outs: Seq<Option<SplitOutcome>>| #[trigger]
            split::are_outcomes(a, chosen, p, q.mh2, true, outs) && split::are_pieces(
                chosen,
                outs,
                pieces,
            ) && o.split == split::bumped(split::zero_stats(), outs, chosen.len() as int)
                && o.resplit == o.split.split && o.regions == o.split.regions;
        same_outcomes(a, b, chosen, p, q.mh2, true, outs);
        assert(lattice::are_resplit(b, chosen, q.mh2, p, pieces, o));
    }
    assert(lattice::settles(b, q, p, order, pieces, o));
}

// ---- the score ----------------------------------------------------------------------

proof fn same_score(i: ScoreInput, j: ScoreInput, p: ConfidenceParams, r: ConfidenceReport)
    requires
        alike(*i.mask, *j.mask),
        i.groups == j.groups,
        i.merges == j.merges,
        i.restored == j.restored,
        i.hint == j.hint,
        i.background == j.background,
        confidence::is_report(i, p, r),
    ensures
        confidence::is_report(j, p, r),
{
    assert(confidence::bordering(*i.mask, p, i.groups@) =~= confidence::bordering(
        *j.mask,
        p,
        j.groups@,
    ));
}

// ---- the chain ----------------------------------------------------------------------

proof fn same_steps(
    groups: Seq<IconGroup>,
    a: ForegroundMask,
    b: ForegroundMask,
    bg: Option<BackgroundModel>,
    p: RefineParams,
    t: RefineTrace,
    out: Seq<IconGroup>,
    s: RefineStats,
)
    requires
        alike(a, b),
        refine::follows(groups, a, bg, p, t, out, s),
    ensures
        refine::follows(groups, b, bg, p, t, out, s),
{
    let ls = t.rounds[t.rounds.len() - 1];
    let mh2 = t.context.mh2 as int;
    assert(refine::are_survivors(groups, b, p, t.sound, t.kept));
    assert(refine::is_split_stage(b, ls, p, mh2, t.parts, t.split)) by {
        if p.split.enabled && ls.len() > 0 && mh2 > 0 {
            let gs = fuse::groups_of(ls);
            let outs = choose|outs: Seq<Option<SplitOutcome>>| #[trigger]
                split::are_outcomes(a, gs, p.split, mh2, false, outs) && fuse::is_sorted_lots(
                    refine::split_lots(ls, outs, ls.len() as int),
                    t.parts,
                ) && t.split == split::bumped(split::zero_stats(), outs, ls.len() as int);
            same_outcomes(a, b, gs, p.split, mh2, false, outs);
        }
    }
    assert(refine::is_hint_stage(b, p, t.parts, mh2, s.hint)) by {
        if (p.grid.enabled || p.confidence.enabled) && t.parts.len() > 0 && mh2 > 0 {
            same_hint(a, b, p.grid, s.hint);
        }
    }
    assert(refine::is_lattice_stage(b, p, t.parts, mh2, s.hint, t.lattice)) by {
        if p.grid.enabled && (s.hint.grid_x || s.hint.grid_y) {
            same_lattice(
                a,
                b,
                LatticeInput { lots: t.parts, hint: s.hint, params: p.grid, mh2 },
                p.split,
                t.lattice,
            );
        }
    }
    assert(refine::is_containment_stage(b, p, out, t.forest, s.containment)) by {
        if p.containment.enabled && 0 < out.len() <= u32::MAX {
            same_forest(a, b, out, p.containment.max_depth, t.forest);
        }
    }
    assert(refine::is_confidence_stage(b, bg, p, out, s)) by {
        if p.confidence.enabled && 0 < out.len() <= u32::MAX {
            let i = choose|i: ScoreInput| #[trigger]
                confidence::is_report(i, p.confidence, s.confidence) && i.groups@ == out && *i.mask
                    == a && i.merges == (if s.merges >= s.grid.restored {
                    s.merges - s.grid.restored
                } else {
                    0
                }) && i.restored@ == s.restored_originals@ && *i.hint == s.hint && (
                match i.background {
                    Some(g) => bg == Some(*g),
                    None => bg is None,
                });
            let j = ScoreInput { mask: &b, ..i };
            same_score(i, j, p.confidence, s.confidence);
        }
    }
}

/// Groups are refined alike against masks with the same ink.
pub proof fn refinement_follows_ink(
    groups: Seq<IconGroup>,
    a: ForegroundMask,
    b: ForegroundMask,
    bg: Option<BackgroundModel>,
    p: RefineParams,
    out: Seq<IconGroup>,
    s: RefineStats,
)
    requires
        alike(a, b),
        refine::is_refined(groups, a, bg, p, out, s),
    ensures
        refine::is_refined(groups, b, bg, p, out, s),
{
    if p.enabled {
        let t = choose|t: RefineTrace| #[trigger] refine::follows(groups, a, bg, p, t, out, s);
        same_steps(groups, a, b, bg, p, t, out, s);
    }
}

/// Masks with the same ink have the same refined groups and counts.
pub proof fn alike_masks_have_the_same_groups(
    a: ForegroundMask,
    b: ForegroundMask,
    min_area: int,
    bg: Option<BackgroundModel>,
    p: RefineParams,
    raw1: Seq<IconGroup>,
    out1: Seq<IconGroup>,
    s1: RefineStats,
    raw2: Seq<IconGroup>,
    out2: Seq<IconGroup>,
    s2: RefineStats,
)
    requires
        b.wf(),
        alike(a, b),
        group::is_grouping(a, min_area, raw1),
        refine::is_refined(raw1, a, bg, p, out1, s1),
        group::is_grouping(b, min_area, raw2),
        refine::is_refined(raw2, b, bg, p, out2, s2),
    ensures
        out1 == out2,
        refine::same_stats(s1, s2),
{
    groups_follow_ink(a, b, min_area, raw1);
    group::groupers_agree(b, min_area, raw1, raw2);
    refinement_follows_ink(raw1, a, b, bg, p, out1, s1);
    maskcache::groups_share_no_pixel(b, min_area, raw1);
    refine::refinement_is_determined(raw1, b, bg, p, out1, s1, out2, s2);
}

/// Grouping off the cache gives what grouping the mask itself gives: whoever
/// took the runs of `m` into the cache, groups them again and refines them has
/// the groups and the counts of `m`.
pub proof fn cached_groups_are_fresh(
    m: ForegroundMask,
    e: EntryText,
    back: ForegroundMask,
    raw: Seq<IconGroup>,
    p: RefineParams,
    out: Seq<IconGroup>,
    s: RefineStats,
    fresh_raw: Seq<IconGroup>,
    fresh: Seq<IconGroup>,
    t: RefineStats,
)
    requires
        m.wf(),
        e.width == m.width,
        e.height == m.height,
        mask::is_runs_of(m, e.runs),
        maskcache::is_regrouping(e, back, raw, p, out, s),
        group::is_grouping(m, group::DEFAULT_MIN_AREA as int, fresh_raw),
        refine::is_refined(fresh_raw, m, Some(e.background), p, fresh, t),
    ensures
        out == fresh,
        refine::same_stats(s, t),
{
    mask::runs_round_trip(m, back, e.runs);
    alike_masks_have_the_same_groups(
        back,
        m,
        group::DEFAULT_MIN_AREA as int,
        Some(e.background),
        p,
        raw,
        out,
        s,
        fresh_raw,
        fresh,
        t,
    );
}

/// Segmenting a sheet twice and grouping both masks gives the same refined
/// groups and counts.
pub proof fn sheet_groups_are_determined(
    sheet: SheetRaster,
    bg: BackgroundModel,
    far: Seq<bool>,
    seg: SegParams,
    min_area: int,
    p: RefineParams,
    a: ForegroundMask,
    raw1: Seq<IconGroup>,
    out1: Seq<IconGroup>,
    s1: RefineStats,
    b: ForegroundMask,
    raw2: Seq<IconGroup>,
    out2: Seq<IconGroup>,
    s2: RefineStats,
)
    requires
        b.wf(),
        segment::is_segmented(sheet, bg, far, seg, a),
        group::is_grouping(a, min_area, raw1),
        refine::is_refined(raw1, a, Some(bg), p, out1, s1),
        segment::is_segmented(sheet, bg, far, seg, b),
        group::is_grouping(b, min_area, raw2),
        refine::is_refined(raw2, b, Some(bg), p, out2, s2),
    ensures
        out1 == out2,
        refine::same_stats(s1, s2),
{
    segment::segmentation_is_determined(sheet, bg, far, seg, a, b);
    alike_masks_have_the_same_groups(a, b, min_area, Some(bg), p, raw1, out1, s1, raw2, out2, s2);
}

} // verus!
