use iconforge::containment::{build_containment, ContainmentParams, ContainmentStats};
use iconforge::geometry::{Bbox, IconGroup};
use iconforge::mask::ForegroundMask;

/// Ring: 24×24 outline with a 12×12 hole, `t` px thick.
fn ring_mask(w: u32, h: u32, x: u32, y: u32, size: u32, t: u32) -> ForegroundMask {
    let mut m = ForegroundMask::new(w, h);
    for dy in 0..size {
        for dx in 0..size {
            let border = dx < t || dy < t || dx + t >= size || dy + t >= size;
            if border {
                m.set(x + dx, y + dy, true);
            }
        }
    }
    m
}

fn group(x: u32, y: u32, w: u32, h: u32, area: u32) -> IconGroup {
    IconGroup {
        bbox: Bbox { x, y, w, h },
        area,
        origin: (x, y),
    }
}

fn stats() -> ContainmentStats {
    ContainmentStats::default()
}

#[test]
fn ring_is_one_icon_with_one_hole() {
    let mask = ring_mask(64, 64, 10, 10, 40, 6);
    let groups = vec![group(10, 10, 40, 40, 40 * 40 - 28 * 28)];
    let mut st = stats();
    let forest = build_containment(&groups, &mask, &ContainmentParams::default(), &mut st);
    assert_eq!(forest.nodes.len(), 1);
    assert_eq!(forest.nodes[0].depth, 0, "a ring is a body, never a hole");
    assert_eq!(forest.nodes[0].holes, 1, "one enclosed background region");
    assert!(forest.nodes.iter().all(|c| c.parent.is_none()));
    assert_eq!(st.holes, 1);
    assert_eq!(st.rejected_open, 0);
}

#[test]
fn dot_inside_a_ring_sits_at_depth_one() {
    let mut mask = ring_mask(64, 64, 10, 10, 40, 6);
    // 8×8 dot in the middle of the ring's hole.
    for dy in 0..8 {
        for dx in 0..8 {
            mask.set(26 + dx, 26 + dy, true);
        }
    }
    let ring = group(10, 10, 40, 40, 40 * 40 - 28 * 28);
    let dot = group(26, 26, 8, 8, 64);
    let mut st = stats();
    let forest = build_containment(&vec![ring, dot], &mask, &ContainmentParams::default(), &mut st);
    assert_eq!(forest.nodes[1].parent, Some(0));
    assert_eq!(
        forest.nodes[1].depth, 1,
        "inner icon = depth 1 (even-odd level 2)"
    );
    assert_eq!(forest.nodes[0].depth, 0);
    assert_eq!(forest.roots, 1);
    assert_eq!(st.contained, 1);
}

#[test]
fn nested_rings_stack_depths() {
    // Ring inside ring: outer hole holds an inner ring, whose own hole
    // holds a dot — depths 0 / 1 / 2.
    let mut mask = ring_mask(96, 96, 4, 4, 88, 5);
    for dy in 0..60 {
        for dx in 0..60 {
            let border = dx < 5 || dy < 5 || dx + 5 >= 60 || dy + 5 >= 60;
            if border {
                mask.set(18 + dx, 18 + dy, true);
            }
        }
    }
    for dy in 0..20 {
        for dx in 0..20 {
            mask.set(38 + dx, 38 + dy, true);
        }
    }
    let outer = group(4, 4, 88, 88, 88 * 88 - 78 * 78);
    let middle = group(18, 18, 60, 60, 60 * 60 - 50 * 50);
    let dot = group(38, 38, 20, 20, 400);
    let mut st = stats();
    let forest = build_containment(
        &vec![outer, middle, dot],
        &mask,
        &ContainmentParams::default(),
        &mut st,
    );
    assert_eq!(forest.nodes[0].depth, 0);
    assert_eq!(forest.nodes[1].depth, 1);
    assert_eq!(forest.nodes[2].depth, 2);
    assert_eq!(forest.roots, 1);
    assert_eq!(st.max_depth, 2);
    assert_eq!(forest.nodes[0].holes, 1);
    assert_eq!(forest.nodes[1].holes, 1);
}

#[test]
fn nested_boxes_without_enclosure_are_rejected() {
    // Two diagonal icons whose boxes nest: the inner one's surroundings
    // reach the outer box's border, so it is NOT inside a hole.
    let mut mask = ForegroundMask::new(64, 64);
    for dy in 0..40 {
        for dx in 0..40 {
            if dx < 6 || dy < 6 {
                mask.set(2 + dx, 2 + dy, true); // an L, open to the SE
            }
        }
    }
    for dy in 0..10 {
        for dx in 0..10 {
            mask.set(30 + dx, 30 + dy, true); // sits in the L's mouth
        }
    }
    let outer = group(2, 2, 40, 40, 40 * 40 - 34 * 34);
    let inner = group(30, 30, 10, 10, 100);
    let mut st = stats();
    let forest = build_containment(
        &vec![outer, inner],
        &mask,
        &ContainmentParams::default(),
        &mut st,
    );
    assert_eq!(
        forest.nodes[1].parent, None,
        "box nesting is not containment"
    );
    assert_eq!(st.pairs_tested, 1);
    assert_eq!(st.rejected_open, 1);
    assert_eq!(forest.nodes[1].depth, 0);
}

#[test]
fn broken_ring_has_no_hole() {
    // Ring with a 4 px gap in its top edge: the interior drains out.
    let mut mask = ring_mask(64, 64, 10, 10, 40, 6);
    for dx in 20..24 {
        for dy in 0..6 {
            mask.set(10 + dx, 10 + dy, false);
        }
    }
    let groups = vec![group(10, 10, 40, 40, 40 * 40 - 28 * 28 - 24)];
    let mut st = stats();
    let forest = build_containment(&groups, &mask, &ContainmentParams::default(), &mut st);
    assert_eq!(forest.nodes[0].holes, 0, "an open outline encloses nothing");
}

#[test]
fn equal_boxes_never_nest_and_disabled_is_identity() {
    let mask = ring_mask(64, 64, 10, 10, 40, 6);
    let a = group(10, 10, 40, 40, 1000);
    let b = group(10, 10, 40, 40, 900);
    let mut st = stats();
    let forest = build_containment(&vec![a, b], &mask, &ContainmentParams::default(), &mut st);
    assert!(forest.nodes.iter().all(|c| c.parent.is_none()));
    let off = ContainmentParams {
        enabled: false,
        ..Default::default()
    };
    let mut st2 = stats();
    let forest2 = build_containment(&vec![a, b], &mask, &off, &mut st2);
    assert_eq!(forest2.roots, 2);
    assert_eq!(st2.pairs_tested, 0);
}

#[test]
fn containment_is_permutation_invariant() {
    let mut mask = ring_mask(64, 64, 10, 10, 40, 6);
    for dy in 0..8 {
        for dx in 0..8 {
            mask.set(26 + dx, 26 + dy, true);
        }
    }
    let ring = group(10, 10, 40, 40, 40 * 40 - 28 * 28);
    let dot = group(26, 26, 8, 8, 64);
    let mut st_a = stats();
    let a = build_containment(
        &vec![ring, dot],
        &mask,
        &ContainmentParams::default(),
        &mut st_a,
    );
    let mut st_b = stats();
    let b = build_containment(
        &vec![dot, ring],
        &mask,
        &ContainmentParams::default(),
        &mut st_b,
    );
    // Same facts, index-shifted: [ring, dot] vs [dot, ring].
    assert_eq!(a.nodes[0].depth, 0);
    assert_eq!(b.nodes[1].depth, 0);
    assert_eq!(a.nodes[1].depth, b.nodes[0].depth);
    assert_eq!(a.nodes[1].parent, Some(0));
    assert_eq!(b.nodes[0].parent, Some(1));
    assert_eq!(a.nodes[0].holes, b.nodes[1].holes);
}

#[test]
fn own_ink_goes_round_corners() {
    // A pixel that touches the corner of a 3×3 ring, as one group.
    let mut mask = ring_mask(8, 8, 1, 1, 3, 1);
    mask.set(0, 0, true);
    let mut st = stats();
    let forest = build_containment(
        &vec![group(0, 0, 4, 4, 9)],
        &mask,
        &ContainmentParams::default(),
        &mut st,
    );
    assert_eq!(forest.nodes[0].holes, 1);
    assert_eq!(st.holes, 1);
}

#[test]
fn groups_with_one_left_edge_nest_in_any_order() {
    // A frame open to the left, and a dot at its open side.
    let mut mask = ForegroundMask::new(32, 32);
    for x in 4..20 {
        mask.set(x, 4, true);
        mask.set(x, 19, true);
    }
    for y in 4..20 {
        mask.set(19, y, true);
    }
    mask.set(4, 10, true);
    let frame = group(4, 4, 16, 16, 46);
    let dot = group(4, 10, 1, 1, 1);
    for list in [vec![frame, dot], vec![dot, frame]] {
        let mut st = stats();
        let forest = build_containment(&list, &mask, &ContainmentParams::default(), &mut st);
        assert_eq!((st.pairs_tested, st.rejected_open), (1, 1));
        assert_eq!(forest.roots, 2);
    }
}

#[test]
fn a_tie_goes_to_the_first_in_the_list() {
    // Two rings of the same ink claimed round one dot.
    let mut mask = ring_mask(64, 64, 10, 10, 40, 6);
    mask.set(30, 30, true);
    let a = group(10, 10, 40, 40, 500);
    let b = group(9, 9, 42, 42, 500);
    let dot = group(30, 30, 1, 1, 1);
    let mut st = stats();
    let p = ContainmentParams::default();
    let mut b = b;
    b.origin = (10, 10);
    assert_eq!(build_containment(&vec![a, b, dot], &mask, &p, &mut st).nodes[2].parent, Some(0));
    assert_eq!(build_containment(&vec![b, a, dot], &mask, &p, &mut st).nodes[2].parent, Some(0));
}
