use iconforge::containment::{build_containment, ContainmentStats};
use iconforge::geometry::{Bbox, IconGroup};
use iconforge::grid::{classify, detect_grid, GridFit, GridParams, GridStats};
use iconforge::group::RleCclGrouper;
use iconforge::mask::ForegroundMask;
use iconforge::merge::{
    bbox_gap, merge_rule, merged_group, rule_label, MergeContext, MergeRule, PairVerdict,
    RefineParams,
};
use iconforge::refine::{refine_groups, refine_groups_with_stats};
use iconforge::split::SplitParams;

/// A merge context; the gap in pixels.
fn context(p: &RefineParams, gap: u64) -> MergeContext {
    MergeContext {
        params: *p,
        mh2: 2 * 20,
        ma2: 2 * 400,
        gap: 2000 * gap,
    }
}

struct Lcg(u64);

impl Lcg {
    fn new(seed: u64) -> Self {
        Self(seed)
    }
    fn next(&mut self, bound: usize) -> usize {
        self.0 = self
            .0
            .wrapping_mul(6_364_136_223_846_793_005)
            .wrapping_add(1_442_695_040_888_963_407);
        ((self.0 >> 33) as usize) % bound
    }
}

fn group(x: u32, y: u32, w: u32, h: u32, area: u32) -> IconGroup {
    IconGroup {
        bbox: Bbox::from_parts(x, y, w, h),
        area,
        origin: (x, y),
    }
}

fn box_body(x: u32, y: u32, w: u32, h: u32) -> IconGroup {
    group(x, y, w, h, w * h)
}

/// Noise filter and merging on, splitting off.
fn enabled() -> RefineParams {
    RefineParams {
        enabled: true,
        split: SplitParams {
            enabled: false,
            ..SplitParams::default()
        },
        ..RefineParams::default()
    }
}

/// A mask with the right dimensions and no ink: F4/F1 never read pixels.
fn blank(w: u32, h: u32) -> ForegroundMask {
    ForegroundMask::new(w, h)
}

#[test]
fn merge_disabled_is_identity() {
    let groups = vec![
        box_body(10, 10, 30, 30),
        group(60, 10, 2, 2, 4),       // speckle
        group(100, 100, 300, 1, 300), // rule line
    ];
    let out = refine_groups(groups.clone(), &blank(512, 512), &RefineParams::default());
    assert_eq!(out, groups, "disabled refine must not touch the input");
}

#[test]
fn noise_filter_drops_speckles_slivers_streaks_and_frames() {
    let p = enabled();
    let mut groups = vec![
        box_body(10, 10, 40, 40),
        box_body(100, 10, 40, 40),
        box_body(190, 10, 40, 40),
        box_body(280, 10, 40, 40),
    ];
    // F4 gates:
    groups.push(group(10, 100, 3, 3, 9)); // area 9  < 16  → speckle
    groups.push(group(30, 100, 20, 2, 40)); // min dim 2 < 3 → sliver
    groups.push(group(60, 100, 200, 2, 400)); // aspect 100 > 60 → streak
                                              // F4b (both dims ≤ 0.35 × median_h = 14): 10×10 survives the gates…
    groups.push(box_body(120, 100, 10, 10));
    // …but an 18×18 does not (18 > 14).
    groups.push(box_body(150, 100, 18, 18));
    // Frame line: spans the full sheet width.
    groups.push(group(0, 200, 512, 15, 512 * 15));

    let (out, stats) = refine_groups_with_stats(groups, &blank(512, 512), &p);
    assert_eq!(stats.input, 10);
    assert_eq!(
        stats.removed_noise, 4,
        "speckle + sliver + streak + full-width frame line"
    );
    assert_eq!(stats.removed_specks, 1, "10×10 is speck-sized");
    assert_eq!(stats.median_h2, 2 * 40);
    // Bodies + the 18×18 keeper, nothing merged (gaps of 50 px).
    assert_eq!(out.len(), 5);
    assert!(
        out.iter().all(|g| g.bbox.w == g.bbox.h || g.bbox.w == 18),
        "only the 18×18 non-square survives: {out:?}"
    );
    assert!(out
        .iter()
        .any(|g| g.bbox == Bbox::new(150, 100, 18, 18).unwrap()));
}

#[test]
fn frame_line_spanning_two_opposite_borders_is_dropped() {
    let p = enabled();
    // A hollow 500×500 frame on a 512² sheet: its area (8k px) passes
    // every size bound — only the border-span rule can catch it. The two
    // bodies sit inside the frame's bbox, so if the frame survived they
    // would merge into it by rule 4 (containment).
    let frame = group(6, 6, 500, 500, 8_000);
    let inside = vec![
        frame,
        box_body(300, 300, 40, 40),
        box_body(360, 300, 40, 40),
    ];
    let (out, stats) = refine_groups_with_stats(inside, &blank(512, 512), &p);
    assert_eq!(stats.removed_noise, 1, "frame dropped before merging");
    assert_eq!(out.len(), 2);

    // On a 1024² sheet the same component spans nothing, so it survives
    // — and with bodies outside its bbox nothing merges at all.
    let mut outside = vec![
        frame,
        box_body(600, 300, 40, 40),
        box_body(660, 300, 40, 40),
    ];
    let (out_big, stats_big) =
        refine_groups_with_stats(outside.clone(), &blank(1024, 1024), &p);
    assert_eq!(
        stats_big.removed_noise, 0,
        "no border span on a larger sheet"
    );
    assert_eq!(out_big.len(), 3, "frame + two separate bodies");

    // …and with the bodies *inside* it, containment merges them in.
    outside[1] = box_body(300, 300, 40, 40);
    outside[2] = box_body(360, 300, 40, 40);
    let (merged, stats_merged) = refine_groups_with_stats(outside, &blank(1024, 1024), &p);
    assert_eq!(stats_merged.rule4, 2, "both bodies are contained");
    assert_eq!(merged.len(), 1);
    assert_eq!(merged[0].bbox, Bbox::new(6, 6, 500, 500).unwrap());
}

#[test]
fn merge_joins_a_small_fragment_within_gap() {
    let p = enabled();
    // Body 30×30 at (10,10); fragment 12×12 at (46,24) → gap 6.
    // heights [30, 12] ⇒ median_h 21 ⇒ GAP = clamp(7.35, 4, 40) = 7.35 ≥ 6 ✓
    // rule 1: smaller height 12 ≤ 0.5 × 30 ✓
    // merged box (10,10,48,30): aspect 1.6 < 4 ✓, height 30 ≤ 1.9 × 21 ✓
    let groups = vec![box_body(10, 10, 30, 30), box_body(46, 24, 12, 12)];
    let (out, stats) = refine_groups_with_stats(groups, &blank(256, 256), &p);
    assert_eq!(out.len(), 1, "fragment must join the body: {out:?}");
    assert_eq!(out[0].bbox, Bbox::new(10, 10, 48, 30).unwrap());
    assert_eq!(out[0].area, 30 * 30 + 12 * 12);
    assert_eq!(stats.merges, 1);
    assert_eq!(stats.rule1, 1);
    assert_eq!(stats.gap, 14_700);
    assert_eq!(stats.iterations, 1, "one pass suffices");
}

#[test]
fn merge_refuses_two_full_size_icons_at_a_four_pixel_gap() {
    let p = enabled();
    // 24×24 icons with 4 px gaps: GAP = 8.4, so rule 5's gap test passes
    // (4 ≤ 4.2) and the height ratio is 1.0 — only the area guard
    // (2 × 576 > 1.75 × 576) and rule 1's size factor stop the row glue.
    let groups: Vec<IconGroup> = (0..12).map(|i| box_body(10 + i * 28, 10, 24, 24)).collect();
    let (out, stats) = refine_groups_with_stats(groups, &blank(512, 512), &p);
    assert_eq!(out.len(), 12, "uniform icons must never glue: {out:?}");
    assert_eq!(stats.merges, 0);
}

#[test]
fn merge_allows_body_plus_near_arm_but_not_two_bodies() {
    let p = enabled();
    // Body 30×30 + a 24×14 arm 4 px to its right: combined 58×30, area
    // 900 + 336 = 1236 ≤ 1.75 × 900 = 1575 ✓, ratio 14/30 = 0.47 (rule 1
    // fires first because 14 ≤ 15).
    let body = box_body(10, 10, 30, 30);
    let arm = box_body(44, 18, 14, 24);
    let filler: Vec<IconGroup> = (0..4).map(|i| box_body(200 + i * 60, 10, 30, 30)).collect();
    let mut groups = vec![body, arm];
    groups.extend(filler.iter().copied());
    let (out, stats) = refine_groups_with_stats(groups, &blank(512, 512), &p);
    // Body y 10..40, arm y 18..42 ⇒ merged box (10,10,48,32).
    assert_eq!(out.len(), 5, "one merge: 6 → 5");
    assert_eq!(stats.merges, 1);
    assert_eq!(
        stats.rule5, 1,
        "rule 5 (close + similarly sized + area guard)"
    );
    assert!(out
        .iter()
        .any(|g| g.bbox == Bbox::new(10, 10, 48, 32).unwrap() && g.area == 1_236));
}

#[test]
fn containment_and_overlap_merge_by_rule_4() {
    let p = enabled();
    // A speck-sized component *inside* a large bbox is still removed by
    // F4b, so use a nested pair that survives the size gates.
    let outer = group(10, 10, 60, 60, 2_000); // hollow ring, sparse area
    let inner = group(30, 30, 20, 20, 400); // inside the ring's box
    let filler: Vec<IconGroup> = (0..4)
        .map(|i| box_body(200 + i * 60, 200, 30, 30))
        .collect();
    let mut groups = vec![outer, inner];
    groups.extend(filler.iter().copied());
    let (out, stats) = refine_groups_with_stats(groups, &blank(512, 512), &p);
    assert_eq!(stats.rule4, 1, "containment merges by rule 4");
    assert!(out
        .iter()
        .any(|g| g.bbox == Bbox::new(10, 10, 60, 60).unwrap() && g.area == 2_400));
    assert_eq!(out.len(), 5);

    // Overlap (IoU > 0.25) also merges even when there is no containment.
    let filler2: Vec<IconGroup> = (0..4)
        .map(|i| box_body(300 + i * 60, 300, 30, 30))
        .collect();
    let mut overlapping = vec![
        box_body(10, 400, 40, 40),
        box_body(28, 400, 40, 40), // overlap 12×40 = 480, IoU 0.43
    ];
    overlapping.extend(filler2.iter().copied());
    let (out2, stats2) = refine_groups_with_stats(overlapping, &blank(512, 512), &p);
    assert_eq!(stats2.rule4, 1);
    assert!(out2
        .iter()
        .any(|g| g.bbox == Bbox::new(10, 400, 58, 40).unwrap()));
}

#[test]
fn guards_refuse_aspect_and_height_explosions() {
    let p = enabled();

    // Height guard: two stacked bodies with only a 6 px gap; every size
    // rule would accept (gap ≤ GAP 7, smaller height 12 ≤ 0.5 × 40), but
    // the merged 30×58 box exceeds 1.9 × median_h (20) = 38.
    let a = box_body(10, 10, 30, 40);
    let b = box_body(10, 56, 30, 12);
    assert_eq!(bbox_gap(&a.bbox, &b.bbox), 6);
    assert_eq!(
        merge_rule(&a, &b, &context(&p, 7)),
        PairVerdict::TooTall,
        "height guard fires"
    );

    // Aspect guard: three merged 6×6 squares form a 24×6 row; adding a
    // fourth would exceed the 4.0 aspect ceiling.
    let row = merged_group(
        &merged_group(&box_body(10, 10, 6, 6), &box_body(19, 10, 6, 6)),
        &box_body(28, 10, 6, 6),
    );
    assert_eq!(row.bbox, Bbox::new(10, 10, 24, 6).unwrap());
    let next = box_body(40, 10, 6, 6);
    assert_eq!(bbox_gap(&row.bbox, &next.bbox), 6);
    assert_eq!(
        merge_rule(&row, &next, &context(&p, 20)),
        PairVerdict::TooLong,
        "aspect guard fires"
    );

    // Containment is exempt from the guards: a nested fragment cannot
    // grow the bbox, so rule 4 still merges it.
    let big = box_body(10, 10, 60, 60); // x 10..70, y 10..70
    let nested = group(30, 30, 8, 38, 200); // x 30..38, y 30..68 — inside
    assert_eq!(
        merge_rule(&nested, &big, &context(&p, 4)),
        PairVerdict::Merge(MergeRule::Rule4),
        "containment merges regardless of size guards"
    );
}

#[test]
fn fragments_merge_but_bodies_stay_separate() {
    let p = enabled();
    // 12 bodies 30×30 on a 60 px pitch, each with a 10×10 fragment 6 px
    // to its right: F1 must attach every fragment and merge nothing else.
    let mut groups = Vec::new();
    for i in 0..12u32 {
        let x = 10 + i * 60;
        groups.push(box_body(x, 10, 30, 30));
        groups.push(box_body(x + 36, 20, 10, 10));
    }
    let (out, stats) = refine_groups_with_stats(groups, &blank(1024, 1024), &p);
    assert_eq!(stats.input, 24);
    assert_eq!(out.len(), 12, "each body absorbs exactly one fragment");
    assert_eq!(stats.merges, 12);
    assert_eq!(stats.rule1, 12, "10 ≤ 0.5 × 30 ⇒ rule 1");
    // Height set is 12 × 30 and 12 × 10 ⇒ median_h 20 ⇒ GAP 7; the
    // fragments are 10 px tall (> 0.35 × 20 = 7), so no speck filter.
    assert_eq!(stats.median_h2, 2 * 20);
    assert_eq!(stats.gap, 14_000);
    assert!(out
        .iter()
        .all(|g| g.bbox == Bbox::new(g.bbox.x, 10, 46, 30).unwrap() && g.area == 1_000));
    // Nothing may have grown past the pitch — bodies never glue.
    assert!(out.windows(2).all(|w| w[0].bbox.x + 60 == w[1].bbox.x));
}

#[test]
fn merge_is_permutation_invariant_and_deterministic() {
    let p = enabled();
    let mut groups = vec![
        box_body(10, 10, 30, 30),
        box_body(10, 46, 12, 30), // merges with the body
        box_body(100, 10, 30, 30),
        box_body(104, 12, 20, 20), // merges by IoU
        box_body(200, 200, 30, 30),
        group(204, 204, 18, 18, 324),
        box_body(300, 300, 40, 40),
    ];
    let expected = refine_groups(groups.clone(), &blank(512, 512), &p);
    let mut rng = Lcg::new(42);
    for _ in 0..25 {
        for i in (1..groups.len()).rev() {
            let j = rng.next(i + 1);
            groups.swap(i, j);
        }
        let shuffled = refine_groups(groups.clone(), &blank(512, 512), &p);
        assert_eq!(shuffled, expected, "refine must not depend on input order");
    }
    // Same input twice ⇒ identical output.
    let again = refine_groups(expected.clone(), &blank(512, 512), &p);
    assert_eq!(again, expected, "second application must be stable");
}

#[test]
fn iteration_cap_limits_the_merge_chain() {
    let mut p = enabled();
    // A chain whose second link only becomes reachable once the first
    // fragment has grown the body's bbox:
    //   body 40×40 at (10,10) — fragment 16×16 at (56,44) [gap 6] ⇒ merge
    //   ⇒ body' spans x 10..72, and the second fragment at (78,10) [gap 6
    //     from body', 28 px from the first body] merges on pass 2.
    let body = box_body(10, 10, 40, 40);
    let frag1 = box_body(56, 44, 16, 16);
    let frag2 = box_body(78, 10, 16, 16);
    let fillers = [box_body(200, 200, 40, 40), box_body(320, 320, 40, 40)];
    let mut groups = vec![body, frag1, frag2];
    groups.extend(fillers.iter().copied());
    assert_eq!(bbox_gap(&body.bbox, &frag1.bbox), 6);
    assert_eq!(
        bbox_gap(&body.bbox, &frag2.bbox),
        28,
        "out of reach at pass 1"
    );

    p.max_iterations = 0;
    let (none, stats0) = refine_groups_with_stats(groups.clone(), &blank(512, 512), &p);
    assert_eq!(stats0.iterations, 0, "cap 0 ⇒ F4 only, no F1");
    assert_eq!(none.len(), 5);

    p.max_iterations = 1;
    let (one_pass, stats1) = refine_groups_with_stats(groups.clone(), &blank(512, 512), &p);
    assert_eq!(stats1.iterations, 1);
    assert_eq!(one_pass.len(), 4, "only the first link merges");

    p.max_iterations = 3;
    let (chained, stats3) = refine_groups_with_stats(groups, &blank(512, 512), &p);
    assert_eq!(stats3.iterations, 2, "the chain needs exactly two passes");
    assert_eq!(chained.len(), 3, "body + both fragments");
    assert!(chained
        .iter()
        .any(|g| g.bbox == Bbox::new(10, 10, 84, 50).unwrap() && g.area == 2_112));
}

#[test]
fn full_stage_chain_splits_a_glued_blob_from_real_ccl_groups() {
    // Twelve clean 24×24 icons on a 60 px pitch plus one 3×3 glued blob
    // (24×24 cells, 2 px bridges) — the F1 cascade's signature failure.
    // Real CCL gives 13 components; F4 leaves them alone; F1 merges
    // nothing (gaps far exceed GAP = 8.4); F2 splits the blob into 9.
    let mut mask = ForegroundMask::new(1024, 1024);
    for i in 0..12u32 {
        let x = 40 + i * 60;
        for y in 40..64 {
            for xx in x..x + 24 {
                mask.set(xx, y, true);
            }
        }
    }
    for r in 0..3u32 {
        for c in 0..3u32 {
            let x = 700 + c * 26;
            let y = 700 + r * 26;
            for yyy in y..y + 24 {
                for xxx in x..x + 24 {
                    mask.set(xxx, yyy, true);
                }
            }
            if c + 1 < 3 {
                for yyy in y + 8..y + 16 {
                    for xxx in x + 24..x + 26 {
                        mask.set(xxx, yyy, true);
                    }
                }
            }
            if r + 1 < 3 {
                for xxx in x + 8..x + 16 {
                    for yyy in y + 24..y + 26 {
                        mask.set(xxx, yyy, true);
                    }
                }
            }
        }
    }

    let raw = RleCclGrouper { min_area: 16 }.group_all(&mask);
    assert_eq!(raw.len(), 13, "12 icons + 1 glued blob");

    let p = RefineParams {
        enabled: true,
        ..RefineParams::default()
    };
    let (out, stats) = refine_groups_with_stats(raw, &mask, &p);
    assert_eq!(stats.removed_noise, 0);
    assert_eq!(stats.merges, 0, "nothing is close enough to merge");
    assert_eq!(stats.split.candidates, 1, "only the blob is oversized");
    assert_eq!(stats.split.split, 1);
    assert_eq!(out.len(), 12 + 9, "blob becomes 9 cell-sized groups");
    let ink: u32 = out.iter().map(|g| g.area).sum();
    let mask_ink: u32 = mask.runs().iter().map(|r| r.len()).sum();
    assert_eq!(ink, mask_ink, "the whole chain conserves ink");
}

/// Hollow square outline (`ring`/`frame` corpus shape): `size` px box with
/// a `t` px stroke.
fn ring(mask: &mut ForegroundMask, x0: u32, y0: u32, size: u32, t: u32) {
    for dy in 0..size {
        for dx in 0..size {
            if dx < t || dy < t || dx + t >= size || dy + t >= size {
                mask.set(x0 + dx, y0 + dy, true);
            }
        }
    }
}

#[test]
fn grid_hint_restores_merges_that_crossed_a_valley() {
    // 4×4 lattice of rings, pitch 56 (8 px gaps, inside rule 5's window).
    // One cell holds a smaller ring so rule 5's area guard has the size
    // asymmetry it needs — two equal rings are refused.
    let mut mask = blank(300, 300);
    for row in 0..4u32 {
        for col in 0..4u32 {
            let small = row == 2 && col == 2;
            let size = if small { 30 } else { 48 };
            ring(&mut mask, 10 + col * 56, 10 + row * 56, size, 4);
        }
    }
    let groups = RleCclGrouper::default().group_all(&mask);
    assert_eq!(groups.len(), 16, "16 separate rings before merging");
    let params = enabled();
    let (out, stats) = refine_groups_with_stats(groups, &mask, &params);
    assert!(
        stats.merges >= 1,
        "the lattice must provoke a rule-5 merge: {stats:?}"
    );
    assert!(
        stats.grid.flagged >= 1 && stats.grid.restored >= 1,
        "the grid hint must undo what it proves wrong: {stats:?}"
    );
    assert_eq!(out.len(), 16, "count is back to the raw CCL count");
    // Invariant after the whole chain: on a detected lattice no surviving
    // group may straddle a valley.
    let gp = GridParams::default();
    let mut gstats = GridStats::default();
    let hint = detect_grid(&mask, &gp, &mut gstats);
    assert!(hint.any(), "lattice detected: {hint:?}");
    for g in &out {
        assert!(
            !matches!(
                classify(&g.bbox, &hint, gp.span_tolerance),
                GridFit::SpansMultipleCells { .. }
            ),
            "group {:?} still spans cells",
            g.bbox
        );
    }
}

#[test]
fn containment_closes_the_chain() {
    // A ring plus a dot in its hole. With merging off the two stay
    // separate and F3 must report: one hole on the ring, depth 1 on the
    // dot, one root. With merging on, rule 4 (containment) glues the dot
    // into the ring, and the ring still reports its
    // hole afterwards.
    let mut mask = blank(64, 64);
    ring(&mut mask, 8, 8, 48, 6);
    // 16×16: big enough to survive F4b's speck bound (dims > 0.35·median_h).
    for dy in 0..16 {
        for dx in 0..16 {
            mask.set(24 + dx, 24 + dy, true);
        }
    }
    let groups = RleCclGrouper::default().group_all(&mask);
    assert_eq!(groups.len(), 2);

    let split_params = RefineParams {
        enabled: true,
        merge_enabled: false,
        ..enabled()
    };
    let (out, stats) = refine_groups_with_stats(groups.clone(), &mask, &split_params);
    assert_eq!(out.len(), 2, "ring and dot stay two groups");
    assert_eq!(stats.containment.holes, 1, "the ring encloses one hole");
    let mut cstats = ContainmentStats::default();
    let forest = build_containment(&out, &mask, &split_params.containment, &mut cstats);
    let depths: Vec<u32> = forest.nodes.iter().map(|n| n.depth).collect();
    assert!(depths.contains(&0) && depths.contains(&1), "{depths:?}");
    assert_eq!(forest.roots, 1, "the dot hangs inside the ring's hole");

    let (merged, mstats) = refine_groups_with_stats(groups, &mask, &enabled());
    assert_eq!(merged.len(), 1, "rule 4 merges a contained dot");
    assert_eq!(
        mstats.containment.holes, 1,
        "the hole survives the containment merge"
    );
}

#[test]
fn merge_stays_in_budget_at_c1_scale() {
    let p = enabled();
    // 1024 icons in a 32×32 grid, 8 px gutters.
    let groups: Vec<IconGroup> = (0..32u32)
        .flat_map(|gy| (0..32u32).map(move |gx| box_body(gx * 32 + 4, gy * 32 + 4, 24, 24)))
        .collect();
    let t0 = std::time::Instant::now();
    let (out, stats) = refine_groups_with_stats(groups, &blank(4096, 4096), &p);
    let ms = t0.elapsed().as_secs_f32() * 1000.0;
    // 8 px gutters: rule 5's half-GAP bound (4.2) and rule 1's size factor
    // (equal heights) both refuse, so a neat grid never glues.
    assert_eq!(out.len(), 1024, "grid icons must not merge");
    assert_eq!(stats.gap, 16_800);
    assert!(ms < 250.0, "1024-icon refine must be cheap: {ms:.1} ms");
}

#[test]
fn rules_have_short_labels() {
    assert_eq!(rule_label(MergeRule::Rule1), "r1");
    assert_eq!(rule_label(MergeRule::Rule4), "r4");
    assert_eq!(rule_label(MergeRule::Rule5), "r5");
}
