//! A uniform grid over boxes: finds the boxes near a box without looking at all
//! of them.
use vstd::prelude::*;
use std::collections::HashMap;
use crate::geometry::{Bbox, IconGroup};
use crate::merge;
use crate::sorting;
use crate::sorting::SortKey;

verus! {

broadcast use vstd::std_specs::hash::group_hash_axioms;

/// The key of a grid cell.
pub open spec fn cell_key(cx: int, cy: int) -> int {
    cy * 0x1_0000_0000 + cx
}

/// The cell of a coordinate, both in two-thousandths of a pixel.
pub open spec fn cell_of(v: int, cell: int) -> int {
    v / cell
}

/// Box `b` reaches into cell `(cx, cy)`.
pub open spec fn reaches_cell(b: Bbox, cell: int, cx: int, cy: int) -> bool {
    &&& cell_of(b.x * 2000, cell) <= cx <= cell_of(b.right() * 2000, cell)
    &&& cell_of(b.y * 2000, cell) <= cy <= cell_of(b.bottom() * 2000, cell)
}

/// The list of a cell has `v` at place `t`.
pub open spec fn entry(m: Map<u64, Vec<usize>>, k: u64, t: int, v: usize) -> bool {
    m.contains_key(k) && 0 <= t < m[k]@.len() && m[k]@[t] == v
}

/// The list of a cell names box `i`.
pub open spec fn listed(m: Map<u64, Vec<usize>>, cx: int, cy: int, i: int) -> bool {
    exists|t: int| #[trigger] entry(m, cell_key(cx, cy) as u64, t, i as usize)
}

/// Every list names positions below `n`.
pub open spec fn names_below(m: Map<u64, Vec<usize>>, n: int) -> bool {
    forall|k: u64, t: int, v: usize| #[trigger] entry(m, k, t, v) ==> v < n
}

/// A uniform grid over boxes.
pub struct SpatialHash {
    /// Side of a cell, in two-thousandths of a pixel.
    pub cell: u64,
    /// The boxes that reach into each cell.
    pub cells: HashMap<u64, Vec<usize>>,
}

/// The grid holds the first `n` groups.
pub open spec fn holds(h: SpatialHash, groups: Seq<IconGroup>, n: int) -> bool {
    &&& 2000 <= h.cell <= 0x4_0000_0000
    &&& names_below(h.cells@, n)
    &&& forall|i: int, cx: int, cy: int|
        0 <= i < n && #[trigger] reaches_cell(groups[i].bbox, h.cell as int, cx, cy) ==> listed(
            h.cells@,
            cx,
            cy,
            i,
        )
}

/// All boxes have their far edges in range.
pub open spec fn boxes_ok(groups: Seq<IconGroup>) -> bool {
    forall|i: int| 0 <= i < groups.len() ==> merge::box_ok((#[trigger] groups[i]).bbox)
}

proof fn cell_bounds(v: int, cell: int)
    requires
        2000 <= cell,
        0 <= v <= 0xffff_ffff * 2000,
    ensures
        0 <= cell_of(v, cell) <= 0xffff_ffff,
{
    assert(0 <= v / cell <= 0xffff_ffff) by (nonlinear_arith)
        requires
            2000 <= cell,
            0 <= v <= 0xffff_ffff * 2000,
    ;
}

proof fn cell_monotone(a: int, b: int, cell: int)
    requires
        0 < cell,
        0 <= a <= b,
    ensures
        0 <= cell_of(a, cell) <= cell_of(b, cell),
{
    vstd::arithmetic::div_mod::lemma_div_is_ordered(a, b, cell);
    vstd::arithmetic::div_mod::lemma_div_pos_is_pos(a, cell);
}

fn add_to_cell(cells: &mut HashMap<u64, Vec<usize>>, key: u64, i: usize)
    requires
        names_below(old(cells)@, i as int + 1),
    ensures
        names_below(final(cells)@, i as int + 1),
        exists|t: int| #[trigger] entry(final(cells)@, key, t, i),
        grown(old(cells)@, final(cells)@),
{
    let ghost c0 = cells@;
    let mut list: Vec<usize> = match cells.remove(&key) {
        Some(v) => v,
        None => Vec::new(),
    };
    let ghost l0 = list@;
    list.push(i);
    let ghost l1 = list;
    cells.insert(key, list);
    proof {
        assert(cells@ =~= c0.insert(key, l1));
        assert(entry(cells@, key, l0.len() as int, i));
        assert forall|k: u64, t: int, v: usize| #[trigger] entry(cells@, k, t, v) implies v < i + 1 by {
            if k != key || t < l0.len() {
                assert(entry(c0, k, t, v));
            }
        }
    }
}

/// Lists only grow.
spec fn grown(a: Map<u64, Vec<usize>>, b: Map<u64, Vec<usize>>) -> bool {
    forall|k: u64, t: int, v: usize| #[trigger] entry(a, k, t, v) ==> entry(b, k, t, v)
}

proof fn listed_grows(a: Map<u64, Vec<usize>>, b: Map<u64, Vec<usize>>, cx: int, cy: int, i: int)
    requires
        grown(a, b),
        listed(a, cx, cy, i),
    ensures
        listed(b, cx, cy, i),
{
    let t = choose|t: int| #[trigger] entry(a, cell_key(cx, cy) as u64, t, i as usize);
    assert(entry(b, cell_key(cx, cy) as u64, t, i as usize));
}

/// Adds box `i` to one row of cells.
fn add_row(cells: &mut HashMap<u64, Vec<usize>>, cx0: u64, cx1: u64, cy: u64, i: usize)
    requires
        names_below(old(cells)@, i as int + 1),
        cx0 <= cx1 <= 0xffff_ffff,
        cy <= 0xffff_ffff,
    ensures
        names_below(final(cells)@, i as int + 1),
        grown(old(cells)@, final(cells)@),
        forall|cx: int| cx0 <= cx <= cx1 ==> #[trigger] listed(final(cells)@, cx, cy as int, i as int),
{
    let ghost c0 = cells@;
    let mut cx: u64 = cx0;
    while cx <= cx1
        invariant
            cx0 <= cx <= cx1 + 1,
            cx1 <= 0xffff_ffff,
            cy <= 0xffff_ffff,
            names_below(cells@, i as int + 1),
            grown(c0, cells@),
            forall|x: int| cx0 <= x < cx ==> #[trigger] listed(cells@, x, cy as int, i as int),
        decreases cx1 + 1 - cx,
    {
        let ghost c1 = cells@;
        let key: u64 = cy * 0x1_0000_0000 + cx;
        add_to_cell(cells, key, i);
        proof {
            let t = choose|t: int| #[trigger] entry(cells@, key, t, i);
            assert(entry(cells@, cell_key(cx as int, cy as int) as u64, t, i as int as usize));
            assert forall|x: int| cx0 <= x < cx + 1 implies #[trigger] listed(
                cells@,
                x,
                cy as int,
                i as int,
            ) by {
                if x < cx {
                    listed_grows(c1, cells@, x, cy as int, i as int);
                }
            }
        }
        cx = cx + 1;
    }
}

/// Adds box `i` to every cell it reaches into.
fn add_box(cells: &mut HashMap<u64, Vec<usize>>, b: &Bbox, cell: u64, i: usize)
    requires
        names_below(old(cells)@, i as int + 1),
        merge::box_ok(*b),
        2000 <= cell <= 0x4_0000_0000,
    ensures
        names_below(final(cells)@, i as int + 1),
        grown(old(cells)@, final(cells)@),
        forall|cx: int, cy: int| #[trigger]
            reaches_cell(*b, cell as int, cx, cy) ==> listed(final(cells)@, cx, cy, i as int),
{
    let ghost c0 = cells@;
    let cx0: u64 = (b.x as u64 * 2000) / cell;
    let cx1: u64 = ((b.x + b.w) as u64 * 2000) / cell;
    let cy0: u64 = (b.y as u64 * 2000) / cell;
    let cy1: u64 = ((b.y + b.h) as u64 * 2000) / cell;
    proof {
        cell_monotone(b.x * 2000, b.right() * 2000, cell as int);
        cell_monotone(b.y * 2000, b.bottom() * 2000, cell as int);
        cell_bounds(b.right() * 2000, cell as int);
        cell_bounds(b.bottom() * 2000, cell as int);
    }
    let mut cy: u64 = cy0;
    while cy <= cy1
        invariant
            cy0 <= cy <= cy1 + 1,
            cx0 <= cx1 <= 0xffff_ffff,
            cy1 <= 0xffff_ffff,
            names_below(cells@, i as int + 1),
            grown(c0, cells@),
            forall|x: int, y: int|
                cx0 <= x <= cx1 && cy0 <= y < cy ==> #[trigger] listed(cells@, x, y, i as int),
        decreases cy1 + 1 - cy,
    {
        let ghost c1 = cells@;
        add_row(cells, cx0, cx1, cy, i);
        proof {
            assert forall|x: int, y: int| cx0 <= x <= cx1 && cy0 <= y < cy + 1 implies #[trigger] listed(
                cells@,
                x,
                y,
                i as int,
            ) by {
                if y < cy {
                    listed_grows(c1, cells@, x, y, i as int);
                }
            }
        }
        cy = cy + 1;
    }
}

impl SpatialHash {
    /// Builds the grid over all groups; cells are `cell` wide, at least a pixel.
    pub fn build(groups: &Vec<IconGroup>, cell: u64) -> (r: SpatialHash)
        requires
            boxes_ok(groups@),
            cell <= 0x4_0000_0000,
        ensures
            holds(r, groups@, groups@.len() as int),
            r.cell == (if cell < 2000 {
                2000
            } else {
                cell
            }),
    {
        let cell: u64 = if cell < 2000 {
            2000
        } else {
            cell
        };
        let mut cells: HashMap<u64, Vec<usize>> = HashMap::new();
        let mut i: usize = 0;
        while i < groups.len()
            invariant
                i <= groups@.len(),
                boxes_ok(groups@),
                2000 <= cell <= 0x4_0000_0000,
                names_below(cells@, i as int),
                forall|k: int, cx: int, cy: int|
                    0 <= k < i && #[trigger] reaches_cell(groups@[k].bbox, cell as int, cx, cy)
                        ==> listed(cells@, cx, cy, k),
            decreases groups@.len() - i,
        {
            let ghost c0 = cells@;
            let g = groups[i];
            proof {
                assert(merge::box_ok(groups@[i as int].bbox));
            }
            add_box(&mut cells, &g.bbox, cell, i);
            proof {
                assert forall|k: int, cx: int, cy: int|
                    0 <= k < i + 1 && #[trigger] reaches_cell(
                        groups@[k].bbox,
                        cell as int,
                        cx,
                        cy,
                    ) implies listed(cells@, cx, cy, k) by {
                    if k < i {
                        listed_grows(c0, cells@, cx, cy, k);
                    }
                }
            }
            i = i + 1;
        }
        SpatialHash { cell, cells }
    }

    /// Positions near a box, ascending: at least every box whose distance is
    /// within `radius`.
    pub fn candidates(&self, groups: &Vec<IconGroup>, bbox: &Bbox, radius: u64) -> (r: Vec<usize>)
        requires
            holds(*self, groups@, groups@.len() as int),
            boxes_ok(groups@),
            merge::box_ok(*bbox),
            radius <= 0x4_0000_0000,
        ensures
            forall|i: int, j: int| 0 <= i < j < r@.len() ==> #[trigger] r@[i] < #[trigger] r@[j],
            forall|t: int| 0 <= t < r@.len() ==> #[trigger] r@[t] < groups@.len(),
            forall|k: int|
                0 <= k < groups@.len() && #[trigger] merge::gap_of(*bbox, groups@[k].bbox) * 2000
                    <= radius ==> r@.contains(k as usize),
    {
        let cell: u64 = self.cell;
        let lo_x: u64 = if (bbox.x as u64 * 2000) > radius {
            bbox.x as u64 * 2000 - radius
        } else {
            0
        };
        let lo_y: u64 = if (bbox.y as u64 * 2000) > radius {
            bbox.y as u64 * 2000 - radius
        } else {
            0
        };
        let hi_x: u64 = (bbox.x + bbox.w) as u64 * 2000 + radius;
        let hi_y: u64 = (bbox.y + bbox.h) as u64 * 2000 + radius;
        let cx0: u64 = lo_x / cell;
        let cy0: u64 = lo_y / cell;
        let cx1: u64 = hi_x / cell;
        let cy1: u64 = hi_y / cell;
        let cx1: u64 = if cx1 > 0xffff_ffff {
            0xffff_ffff
        } else {
            cx1
        };
        let cy1: u64 = if cy1 > 0xffff_ffff {
            0xffff_ffff
        } else {
            cy1
        };
        let found = self.gather(groups, cx0, cx1, cy0, cy1);
        let out = ascending(&found, groups.len());
        proof {
            assert forall|k: int|
                0 <= k < groups@.len() && #[trigger] merge::gap_of(*bbox, groups@[k].bbox) * 2000
                    <= radius implies out@.contains(k as usize) by {
                let b = groups@[k].bbox;
                assert(merge::box_ok(b));
                let px = if lo_x >= b.x * 2000 {
                    lo_x as int
                } else {
                    b.x * 2000
                };
                let py = if lo_y >= b.y * 2000 {
                    lo_y as int
                } else {
                    b.y * 2000
                };
                let cx = cell_of(px, cell as int);
                let cy = cell_of(py, cell as int);
                cell_monotone(lo_x as int, px, cell as int);
                cell_monotone(lo_y as int, py, cell as int);
                cell_monotone(px, hi_x as int, cell as int);
                cell_monotone(py, hi_y as int, cell as int);
                cell_monotone(b.x * 2000, px, cell as int);
                cell_monotone(b.y * 2000, py, cell as int);
                cell_monotone(px, b.right() * 2000, cell as int);
                cell_monotone(py, b.bottom() * 2000, cell as int);
                cell_bounds(px, cell as int);
                cell_bounds(py, cell as int);
                assert(reaches_cell(b, cell as int, cx, cy));
                assert(listed(self.cells@, cx, cy, k));
                assert(found@.contains(k as usize));
            }
        }
        out
    }

    /// The lists of a block of cells, one behind the other.
    fn gather(&self, groups: &Vec<IconGroup>, cx0: u64, cx1: u64, cy0: u64, cy1: u64) -> (r: Vec<usize>)
        requires
            holds(*self, groups@, groups@.len() as int),
            cx1 <= 0xffff_ffff,
            cy1 <= 0xffff_ffff,
        ensures
            forall|t: int| 0 <= t < r@.len() ==> #[trigger] r@[t] < groups@.len(),
            forall|cx: int, cy: int, k: int|
                cx0 <= cx <= cx1 && cy0 <= cy <= cy1 && 0 <= k < groups@.len() && #[trigger] listed(
                    self.cells@,
                    cx,
                    cy,
                    k,
                ) ==> r@.contains(k as usize),
    {
        let mut out: Vec<usize> = Vec::new();
        let mut cy: u64 = cy0;
        while cy <= cy1
            invariant
                cy0 <= cy,
                cy0 <= cy1 ==> cy <= cy1 + 1,
                cx1 <= 0xffff_ffff,
                cy1 <= 0xffff_ffff,
                holds(*self, groups@, groups@.len() as int),
                forall|t: int| 0 <= t < out@.len() ==> #[trigger] out@[t] < groups@.len(),
                forall|x: int, y: int, k: int|
                    cx0 <= x <= cx1 && cy0 <= y < cy && 0 <= k < groups@.len() && #[trigger] listed(
                        self.cells@,
                        x,
                        y,
                        k,
                    ) ==> out@.contains(k as usize),
            decreases cy1 + 1 - cy,
        {
            let mut cx: u64 = cx0;
            while cx <= cx1
                invariant
                    cx0 <= cx,
                    cx0 <= cx1 ==> cx <= cx1 + 1,
                    cy0 <= cy <= cy1,
                    cx1 <= 0xffff_ffff,
                    cy1 <= 0xffff_ffff,
                    holds(*self, groups@, groups@.len() as int),
                    forall|t: int| 0 <= t < out@.len() ==> #[trigger] out@[t] < groups@.len(),
                    forall|x: int, y: int, k: int|
                        cx0 <= x <= cx1 && cy0 <= y < cy && 0 <= k < groups@.len()
                            && #[trigger] listed(self.cells@, x, y, k) ==> out@.contains(
                            k as usize,
                        ),
                    forall|x: int, k: int|
                        cx0 <= x < cx && 0 <= k < groups@.len() && #[trigger] listed(
                            self.cells@,
                            x,
                            cy as int,
                            k,
                        ) ==> out@.contains(k as usize),
                decreases cx1 + 1 - cx,
            {
                let ghost out0 = out@;
                let key: u64 = cy * 0x1_0000_0000 + cx;
                match self.cells.get(&key) {
                    Some(list) => {
                        append_all(&mut out, list);
                        proof {
                            assert(self.cells@.contains_key(key) && self.cells@[key] == *list);
                            assert forall|t: int| 0 <= t < out@.len() implies #[trigger] out@[t]
                                < groups@.len() by {
                                if t >= out0.len() {
                                    assert(entry(self.cells@, key, t - out0.len(), out@[t]));
                                } else {
                                    assert(out@[t] == out0[t]);
                                }
                            }
                            assert forall|k: int| 0 <= k < groups@.len() && #[trigger] listed(
                                self.cells@,
                                cx as int,
                                cy as int,
                                k,
                            ) implies out@.contains(k as usize) by {
                                let t = choose|t: int| #[trigger]
                                    entry(
                                        self.cells@,
                                        cell_key(cx as int, cy as int) as u64,
                                        t,
                                        k as usize,
                                    );
                                assert(cell_key(cx as int, cy as int) as u64 == key);
                                assert(out@[out0.len() + t] == k as usize);
                            }
                        }
                    },
                    None => {
                        proof {
                            assert forall|k: int| 0 <= k < groups@.len() implies !#[trigger] listed(
                                self.cells@,
                                cx as int,
                                cy as int,
                                k,
                            ) by {
                                assert(cell_key(cx as int, cy as int) as u64 == key);
                            }
                        }
                    },
                }
                proof {
                    assert forall|k: usize| #[trigger] out0.contains(k) implies out@.contains(k) by {
                        let t = choose|t: int| 0 <= t < out0.len() && out0[t] == k;
                        assert(out@[t] == k);
                    }
                }
                cx = cx + 1;
            }
            cy = cy + 1;
        }
        out
    }
}

fn append_all(out: &mut Vec<usize>, list: &Vec<usize>)
    ensures
        final(out)@ == old(out)@ + list@,
{
    let ghost o0 = out@;
    let mut i: usize = 0;
    while i < list.len()
        invariant
            i <= list@.len(),
            out@ == o0 + list@.take(i as int),
        decreases list@.len() - i,
    {
        out.push(list[i]);
        assert(list@.take(i + 1) =~= list@.take(i as int).push(list@[i as int]));
        i = i + 1;
    }
    assert(list@.take(list@.len() as int) =~= list@);
}

/// The values of a list, ascending and each once.
fn ascending(list: &Vec<usize>, n: usize) -> (r: Vec<usize>)
    requires
        forall|t: int| 0 <= t < list@.len() ==> #[trigger] list@[t] < n,
    ensures
        forall|i: int, j: int| 0 <= i < j < r@.len() ==> #[trigger] r@[i] < #[trigger] r@[j],
        forall|t: int| 0 <= t < r@.len() ==> #[trigger] r@[t] < n,
        forall|v: usize| #[trigger] list@.contains(v) ==> r@.contains(v),
{
    let mut keys: Vec<SortKey> = Vec::new();
    let mut i: usize = 0;
    while i < list.len()
        invariant
            i <= list@.len(),
            keys@.len() == i,
            forall|k: int| 0 <= k < i ==> #[trigger] keys@[k] == (list@[k] as u64, 0u64, 0u64, 0u64),
        decreases list@.len() - i,
    {
        keys.push((list[i] as u64, 0, 0, 0));
        i = i + 1;
    }
    let order = sorting::sort_order(&keys);
    let mut out: Vec<usize> = Vec::new();
    let mut i: usize = 0;
    while i < order.len()
        invariant
            i <= order@.len(),
            keys@.len() == list@.len(),
            order@.len() == list@.len(),
            sorting::is_order(keys@, order@, 0, keys@.len() as int),
            forall|k: int|
                0 <= k < keys@.len() ==> #[trigger] keys@[k] == (list@[k] as u64, 0u64, 0u64, 0u64),
            forall|t: int| 0 <= t < list@.len() ==> #[trigger] list@[t] < n,
            forall|a: int, b: int| 0 <= a < b < out@.len() ==> #[trigger] out@[a] < #[trigger] out@[b],
            forall|t: int| 0 <= t < out@.len() ==> #[trigger] out@[t] < n,
            forall|t: int| 0 <= t < i ==> out@.contains(list@[(#[trigger] order@[t]) as int]),
            out@.len() > 0 ==> i > 0 && out@[out@.len() - 1] == list@[order@[i - 1] as int],
            i > 0 ==> out@.len() > 0,
        decreases order@.len() - i,
    {
        let v: usize = list[order[i]];
        let ghost out0 = out@;
        if out.len() == 0 || out[out.len() - 1] != v {
            proof {
                if out@.len() > 0 {
                    let a = order@[i - 1];
                    let b = order@[i as int];
                    assert(sorting::pos_lt(keys@, a as int, b as int));
                    assert(keys@[a as int].0 == list@[a as int] && keys@[b as int].0 == list@[b as int]);
                    assert forall|t: int| 0 <= t < out@.len() implies #[trigger] out@[t] < v by {
                        if t < out@.len() - 1 {
                            assert(out@[t] < out@[out@.len() - 1]);
                        }
                    }
                }
            }
            out.push(v);
            assert(out@[out0.len() as int] == v);
        } else {
            assert(out@[out@.len() - 1] == v);
        }
        proof {
            assert forall|k: usize| #[trigger] out0.contains(k) implies out@.contains(k) by {
                let t = choose|t: int| 0 <= t < out0.len() && out0[t] == k;
                assert(out@[t] == k);
            }
        }
        i = i + 1;
    }
    proof {
        assert forall|v: usize| #[trigger] list@.contains(v) implies out@.contains(v) by {
            let k = choose|k: int| 0 <= k < list@.len() && list@[k] == v;
            assert(order@.contains(k as usize));
            let t = choose|t: int| 0 <= t < order@.len() && order@[t] == k as usize;
            assert(out@.contains(list@[order@[t] as int]));
        }
    }
    out
}

} // verus!
