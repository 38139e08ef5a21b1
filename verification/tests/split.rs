use iconforge::geometry::{Bbox, IconGroup};
use iconforge::mask::ForegroundMask;
use iconforge::regions::reattach_slivers;
use iconforge::split::{split_overmerged, SplitParams, SplitStats};
use iconforge::watershed::{nms_seeds, profile_cut};
use std::collections::HashMap;

fn params_on() -> SplitParams {
    SplitParams::default()
}

fn params_off() -> SplitParams {
    SplitParams {
        enabled: false,
        ..SplitParams::default()
    }
}

/// Fills a rectangle on the mask and returns the matching group (as CCL
/// would produce it).
fn rect(mask: &mut ForegroundMask, x: u32, y: u32, w: u32, h: u32) -> IconGroup {
    for yy in y..y + h {
        for xx in x..x + w {
            mask.set(xx, yy, true);
        }
    }
    IconGroup {
        bbox: Bbox::from_parts(x, y, w, h),
        area: w * h,
        origin: (x, y),
    }
}

fn split_of(
    groups: Vec<IconGroup>,
    mask: &ForegroundMask,
    median_h: u64,
) -> (Vec<IconGroup>, SplitStats) {
    let mut stats = SplitStats::default();
    let out = split_overmerged(&groups, mask, 2 * median_h, &params_on(), &mut stats);
    (out, stats)
}

#[test]
fn split_disabled_is_identity() {
    let mut mask = ForegroundMask::new(256, 256);
    let g = rect(&mut mask, 0, 0, 86, 86);
    let mut stats = SplitStats::default();
    let out = split_overmerged(&vec![g], &mask, 2 * 20, &params_off(), &mut stats);
    assert_eq!(out, vec![g]);
    assert_eq!(stats, SplitStats::default(), "no counters move when off");
}

#[test]
fn split_candidates_are_size_gated() {
    let mut mask = ForegroundMask::new(256, 256);
    // 44×44 = 1936 = exactly (2.2 × 20)² → not "exceeds", so not a
    // candidate, and the fat guard would reject it anyway.
    let g = rect(&mut mask, 0, 0, 44, 44);
    let (out, stats) = split_of(vec![g], &mask, 20);
    assert_eq!(stats.candidates, 0, "bbox area must *exceed* the bound");
    assert_eq!(out, vec![g]);

    // 4×4 cells of 20×20 joined by 2-px bridges: bbox 86×86 = 7396 > 1936.
    let mut mask = ForegroundMask::new(256, 256);
    let g = glued_grid(&mut mask, 0, 0, 4, 4, 20, 2);
    let (out, stats) = split_of(vec![g], &mask, 20);
    assert_eq!(stats.candidates, 1);
    assert_eq!(stats.split, 1);
    assert_eq!(out.len(), 16, "one region per glued cell");
}

/// Builds a `cols × rows` grid of `cell × cell` squares joined by `bridge`
/// px-wide connectors, as one CCL component.
fn glued_grid(
    mask: &mut ForegroundMask,
    ox: u32,
    oy: u32,
    cols: u32,
    rows: u32,
    cell: u32,
    bridge: u32,
) -> IconGroup {
    for r in 0..rows {
        for c in 0..cols {
            let x = ox + c * (cell + bridge);
            let y = oy + r * (cell + bridge);
            for yy in y..y + cell {
                for xx in x..x + cell {
                    mask.set(xx, yy, true);
                }
            }
            if c + 1 < cols {
                for yy in y + cell / 3..y + 2 * cell / 3 {
                    for xx in x + cell..x + cell + bridge {
                        mask.set(xx, yy, true);
                    }
                }
            }
            if r + 1 < rows {
                for xx in x + cell / 3..x + 2 * cell / 3 {
                    for yy in y + cell..y + cell + bridge {
                        mask.set(xx, yy, true);
                    }
                }
            }
        }
    }
    let w = cols * (cell + bridge) - bridge;
    let h = rows * (cell + bridge) - bridge;
    IconGroup {
        bbox: Bbox::from_parts(ox, oy, w, h),
        area: 0, // not used by the splitter
        origin: (ox, oy),
    }
}

#[test]
fn splits_a_glued_grid_into_cells() {
    let mut mask = ForegroundMask::new(256, 256);
    let g = glued_grid(&mut mask, 0, 0, 4, 4, 20, 2);
    let (out, stats) = split_of(vec![g], &mask, 20);
    assert_eq!(stats.candidates, 1);
    assert_eq!(stats.split, 1);
    assert_eq!(stats.fallback_profile, 0, "NMS found the structure");
    assert_eq!(stats.fallback_reseed, 0, "16 seeds ≤ 18 expected cells");
    assert_eq!(out.len(), 16, "one region per cell: {out:?}");
    // Every region is cell-sized (bridges may add a pixel or two).
    for g in &out {
        assert!(
            (19..=22).contains(&g.bbox.w) && (19..=22).contains(&g.bbox.h),
            "cell-sized region expected, got {:?}",
            g.bbox
        );
        assert!((380..=460).contains(&g.area), "area {}", g.area);
    }
    // Ink is conserved: regions partition the component.
    let total: u32 = out.iter().map(|g| g.area).sum();
    let component: u32 = mask.runs().iter().map(|r| r.len()).sum();
    assert_eq!(total, component, "split must conserve ink");
    // Deterministic: the same input yields the identical vector.
    let mut mask2 = ForegroundMask::new(256, 256);
    let g2 = glued_grid(&mut mask2, 0, 0, 4, 4, 20, 2);
    let (again, _) = split_of(vec![g2], &mask2, 20);
    assert_eq!(again, out);
}

#[test]
fn fat_component_is_never_split() {
    // A solid 60×60 block: bbox 3600 > 1936, but its inscribed radius is
    // 30 > 0.75 × 20 — one large icon, not a merge.
    let mut mask = ForegroundMask::new(256, 256);
    let g = rect(&mut mask, 0, 0, 60, 60);
    let (out, stats) = split_of(vec![g], &mask, 20);
    assert_eq!(stats.candidates, 1);
    assert_eq!(stats.skipped_fat, 1);
    assert_eq!(stats.split, 0);
    assert_eq!(out, vec![g], "fat component passes through unchanged");
}

#[test]
fn under_seeding_falls_back_to_profile_cuts() {
    // A 20×20 lobe (dt_max 10 ≤ 15, plateau ~9×9 so NMS radius 12 admits
    // exactly one seed) plus an 80×6 tail (dt_max 3 < the 0.3 × 20 seed
    // floor ⇒ no seed). bbox 100×20 = 2000 > (2.2 × 20)² = 1936, so it is
    // a candidate whose seeding disagrees with its extent: fewer than two
    // seeds while round(2000 / 400) = 5 median icons fit in the bbox.
    let mut mask = ForegroundMask::new(256, 256);
    let mut g = rect(&mut mask, 0, 0, 20, 20);
    let tail = rect(&mut mask, 20, 7, 80, 6);
    assert_eq!(tail.bbox.area(), 480);
    g.bbox = Bbox::from_parts(0, 0, 100, 20);
    g.area = 0;
    let (out, stats) = split_of(vec![g], &mask, 20);
    assert_eq!(stats.candidates, 1);
    assert_eq!(stats.fallback_profile, 1, "under-seeded ⇒ profile cuts");
    assert_eq!(stats.fallback_reseed, 0);
    // The thin bands the cut creates are then reattached by the sliver
    // rule (6 px of ink per band vs a 176 px mean), so the guarantee here
    // is: ≥ 2 regions, ink conserved, and the lobe survives intact.
    assert!(out.len() >= 2, "fallback must still split: {out:?}");
    let total: u32 = out.iter().map(|x| x.area).sum();
    let mask_ink: u32 = mask.runs().iter().map(|r| r.len()).sum();
    assert_eq!(mask_ink, 20 * 20 + 80 * 6);
    assert_eq!(total, mask_ink, "ink conserved");
    assert!(
        out.iter().any(|r| r.area >= 400 && r.bbox.h == 20),
        "the lobe keeps its own region: {out:?}"
    );
    assert_eq!(stats.slivers, 3, "the three thin bands are reattached");
}

#[test]
fn profile_cut_places_bands_at_the_lowest_ink_valleys() {
    // 8 px tall row with 4 px wide, 1 px deep valleys starting at x = 20
    // and x = 40: cutting into 3 bands must put the cuts on the valleys'
    // lowest-ink columns, ties resolving to the lowest coordinate.
    let cw = 60;
    let ch = 8;
    let mut comp = vec![false; cw * ch];
    for y in 0..ch {
        for x in 0..cw {
            let in_valley = (20..24).contains(&x) || (40..44).contains(&x);
            comp[y * cw + x] = if in_valley { y == 3 } else { true };
        }
    }
    let labels = profile_cut(&comp, cw, ch, 3);
    // Read the component's own row (the valley columns are ink at y = 3).
    let row = 3 * cw;
    assert_eq!(labels[row + 19], 0, "x = 19 is in band 0");
    assert_eq!(labels[row + 20], 1, "first cut lands at x = 20");
    assert_eq!(labels[row + 21], 1);
    assert_eq!(labels[row + 22], 2, "second cut lands at x = 22");
    assert_eq!(labels[row + 59], 2);
    // Background pixels stay unlabelled, so nothing leaks into a region.
    assert_eq!(labels[20], -1, "non-component pixels keep label -1");
    let mut seen: Vec<i32> = labels
        .iter()
        .enumerate()
        .filter(|(i, _)| comp[*i])
        .map(|(_, l)| *l)
        .collect();
    seen.sort_unstable();
    seen.dedup();
    assert_eq!(seen, vec![0, 1, 2], "three non-empty bands");
}

#[test]
fn over_seeding_falls_back_to_reseeding() {
    // Six 14×14 lobes (each a legitimate peak) in a 58×36 bbox joined by
    // 3-px bridges: 6 seeds > round(2088 / 400) = 5 expected cells, so the
    // reseed fallback trims to the 5 strongest.
    let mut mask = ForegroundMask::new(256, 256);
    let cells: [(u32, u32); 6] = [(0, 0), (22, 0), (44, 0), (0, 22), (22, 22), (44, 22)];
    for (x, y) in cells {
        for yy in y..y + 14 {
            for xx in x..x + 14 {
                mask.set(xx, yy, true);
            }
        }
    }
    // Bridges: horizontal along y = 4..7 and y = 26..29, vertical at x = 4..7
    // and x = 26..29 and x = 48..51.
    for x in 14..22 {
        for y in 4..7 {
            mask.set(x, y, true);
            mask.set(x, y + 22, true);
        }
    }
    for x in 36..44 {
        for y in 4..7 {
            mask.set(x, y, true);
            mask.set(x, y + 22, true);
        }
    }
    for y in 14..22 {
        for x in 4..7 {
            mask.set(x, y, true);
            mask.set(x + 44, y, true);
        }
    }
    let g = IconGroup {
        bbox: Bbox::from_parts(0, 0, 58, 36),
        area: 0,
        origin: (0, 0),
    };
    let (out, stats) = split_of(vec![g], &mask, 20);
    assert_eq!(stats.candidates, 1);
    assert_eq!(stats.fallback_reseed, 1, "over-seeded ⇒ reseed fallback");
    assert_eq!(stats.fallback_profile, 0);
    assert_eq!(out.len(), 5, "trimmed to expected_cells: {out:?}");
    let total: u32 = out.iter().map(|x| x.area).sum();
    let component: u32 = mask.runs().iter().map(|r| r.len()).sum();
    // Every mask pixel belongs to the ring of six lobes + bridges, so this
    // also proves the extraction did not leak the stray component.
    assert_eq!(component, 6 * 14 * 14 + 3 * 8 * 3 * 2, "mask ink");
    assert_eq!(total, component, "ink conserved");
}

#[test]
fn slivers_are_reattached_to_the_longest_border() {
    // White-box: a 10×10 component split into region 0 (x < 5 → 50 px),
    // region 1 (x 5..9, plus x = 9 below row 3 → 47 px) and a 3 px sliver
    // (x = 9, rows 0..3) whose only neighbour is region 1.
    // Mean region area is 100/3 = 33.3 ⇒ sliver limit 3.33 > 3.
    let cw = 10;
    let ch = 10;
    let comp = vec![true; cw * ch];
    let mut labels = vec![-1i32; cw * ch];
    for y in 0..ch {
        for x in 0..cw {
            labels[y * cw + x] = if x < 5 {
                0
            } else if x == 9 && y < 3 {
                2
            } else {
                1
            };
        }
    }
    let (out, reattached) = reattach_slivers(&comp, cw, ch, labels, 100);
    assert_eq!(reattached, 1, "exactly one sliver is absorbed");
    let mut areas: HashMap<i32, u32> = HashMap::new();
    for (i, c) in comp.iter().enumerate() {
        if *c && out[i] >= 0 {
            *areas.entry(out[i]).or_insert(0) += 1;
        }
    }
    assert_eq!(areas.len(), 2, "the sliver label is gone: {areas:?}");
    assert_eq!(areas.get(&0), Some(&50), "region 0 untouched");
    assert_eq!(areas.get(&1), Some(&50), "region 1 absorbed the sliver");
    assert_eq!(
        areas.values().sum::<u32>(),
        100,
        "every pixel keeps a label"
    );
}

#[test]
fn split_stays_in_budget_at_c1_scale() {
    // 1024 icons on a 128 px pitch, of which 16 are 3×3
    // glued blobs (bbox 76×76 = 5776 > (2.2 × 24)² = 2787) and the rest
    // are clean 24×24 icons. Exactly every 64th cell is a blob.
    let mut mask = ForegroundMask::new(4096, 4096);
    let mut groups = Vec::new();
    let mut blobs = 0u32;
    for idx in 0..1024u32 {
        let gx = idx % 32;
        let gy = idx / 32;
        let x = gx * 128;
        let y = gy * 128;
        if idx % 64 == 0 {
            groups.push(glued_grid(&mut mask, x, y, 3, 3, 24, 2));
            blobs += 1;
        } else {
            groups.push(rect(&mut mask, x, y, 24, 24));
        }
    }
    assert_eq!(blobs, 16);
    let t0 = std::time::Instant::now();
    let (out, stats) = split_of(groups, &mask, 24);
    let ms = t0.elapsed().as_secs_f32() * 1000.0;
    assert_eq!(stats.candidates, 16, "only the glued blobs are candidates");
    assert_eq!(stats.split, 16);
    assert_eq!(stats.regions, 16 * 9);
    assert_eq!(out.len(), 1008 + 16 * 9, "each blob yields 9 regions");
    let total: u32 = out.iter().map(|g| g.area).sum();
    let mask_ink: u32 = mask.runs().iter().map(|r| r.len()).sum();
    assert_eq!(total, mask_ink, "ink conserved at sheet scale");
    assert!(ms < 250.0, "split pass must stay cheap: {ms:.1} ms");
}

#[test]
fn a_seed_may_lie_exactly_one_radius_away() {
    let comp = vec![true; 7];
    let dtq = vec![1000i32; 7];
    // Three pixels, squared, in four-millionths.
    let r2: u128 = 9 * 4_000_000;
    assert_eq!(nms_seeds(&comp, &dtq, 7, r2, 1, 10), vec![0, 3, 6]);
    assert_eq!(nms_seeds(&comp, &dtq, 7, r2 + 1, 1, 10), vec![0, 4]);
    assert_eq!(nms_seeds(&comp, &dtq, 7, r2, 1, 2), vec![0, 3]);
}

#[test]
fn slivers_are_reattached_until_none_is_left() {
    // Each round leaves exactly one region under a tenth of the mean: twelve
    // rounds in all.
    let sizes = [99, 105, 115, 125, 140, 155, 175, 200, 240, 300, 400, 500];
    let (cw, ch) = (6500usize, 2usize);
    let mut labels = vec![12i32; cw * ch];
    let mut at = cw + 10;
    for (l, size) in sizes.iter().enumerate() {
        for cell in &mut labels[at..at + *size] {
            *cell = l as i32;
        }
        at += *size + 10;
    }
    let comp = vec![true; cw * ch];
    let (out, reattached) = reattach_slivers(&comp, cw, ch, labels, 100);
    assert_eq!(reattached, 12);
    assert!(out.iter().all(|l| *l == out[0]));
    let (again, more) = reattach_slivers(&comp, cw, ch, out.clone(), 100);
    assert_eq!((again, more), (out, 0), "nothing is left to do");
}
