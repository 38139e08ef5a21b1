//! From a label map to groups: sliver reattachment and region measurement.
use vstd::prelude::*;
use crate::counting;
use crate::flood;
use crate::geometry::{Bbox, IconGroup};
use crate::group;
use crate::mask;
use crate::sorting;

verus! {

/// Labels are `-1` or a number below the cell count, and `-1` outside the
/// component.
pub open spec fn labels_ok(comp: Seq<bool>, labels: Seq<i32>) -> bool {
    &&& labels.len() == comp.len()
    &&& forall|k: int| 0 <= k < labels.len() ==> -1 <= #[trigger] labels[k] < comp.len()
    &&& forall|k: int| 0 <= k < labels.len() && !comp[k] ==> #[trigger] labels[k] == -1
}

/// Cell `k` belongs to region `l`.
pub open spec fn in_region(comp: Seq<bool>, labels: Seq<i32>, l: int) -> spec_fn(int) -> bool {
    |k: int| comp[k] && labels[k] == l
}

/// The number of cells of region `l`.
pub open spec fn region_area(comp: Seq<bool>, labels: Seq<i32>, l: int) -> int {
    counting::count_below(in_region(comp, labels, l), comp.len() as int)
}

/// Region `l` has a cell.
pub open spec fn is_live(comp: Seq<bool>, labels: Seq<i32>) -> spec_fn(int) -> bool {
    |l: int| region_area(comp, labels, l) > 0
}

/// The number of regions.
pub open spec fn region_count(comp: Seq<bool>, labels: Seq<i32>) -> int {
    counting::count_below(is_live(comp, labels), comp.len() as int)
}

/// The cells of the component.
pub open spec fn members(comp: Seq<bool>) -> spec_fn(int) -> bool {
    |k: int| comp[k]
}

/// The number of cells of the component.
pub open spec fn member_count(comp: Seq<bool>) -> int {
    counting::count_below(members(comp), comp.len() as int)
}

/// Region `l` is smaller than `frac` thousandths of the mean region.
pub open spec fn is_sliver(comp: Seq<bool>, labels: Seq<i32>, frac: int, l: int) -> bool {
    let area = region_area(comp, labels, l);
    area > 0 && area * 1000 * region_count(comp, labels) < frac * member_count(comp)
}

/// The slivers among the labels below `n`, ascending.
pub open spec fn sliver_list(comp: Seq<bool>, labels: Seq<i32>, frac: int, n: int) -> Seq<int>
    decreases n,
{
    if n <= 0 {
        Seq::empty()
    } else {
        let prev = sliver_list(comp, labels, frac, n - 1);
        if is_sliver(comp, labels, frac, n - 1) {
            prev.push(n - 1)
        } else {
            prev
        }
    }
}

/// Neighbours of cell `k` that carry label `l`.
pub open spec fn neighbour_with(cw: int, labels: Seq<i32>, k: int, l: int) -> spec_fn(int) -> bool {
    |j: int| flood::adj(cw, true, k, j) && labels[j] == l
}

/// Contacts of cell `k` of region `lab` with region `other`.
pub open spec fn cell_contacts(comp: Seq<bool>, cw: int, labels: Seq<i32>, lab: int, other: int) -> spec_fn(
    int,
) -> int {
    |k: int|
        if comp[k] && labels[k] == lab {
            counting::count_below(neighbour_with(cw, labels, k, other), comp.len() as int)
        } else {
            0
        }
}

/// The length of the border between regions `lab` and `other`.
pub open spec fn contacts(comp: Seq<bool>, cw: int, labels: Seq<i32>, lab: int, other: int) -> int {
    counting::sum_below(cell_contacts(comp, cw, labels, lab, other), comp.len() as int)
}

/// Region `t` is the neighbour of `lab` with the longest border, the lowest
/// label among equals.
pub open spec fn is_target(comp: Seq<bool>, cw: int, labels: Seq<i32>, lab: int, t: int) -> bool {
    &&& 0 <= t < comp.len()
    &&& t != lab
    &&& contacts(comp, cw, labels, lab, t) > 0
    &&& forall|o: int|
        0 <= o < comp.len() && o != lab ==> #[trigger] contacts(comp, cw, labels, lab, o) < contacts(
            comp,
            cw,
            labels,
            lab,
            t,
        ) || (contacts(comp, cw, labels, lab, o) == contacts(comp, cw, labels, lab, t) && t <= o)
}

/// Region `lab` has a neighbour.
pub open spec fn has_target(comp: Seq<bool>, cw: int, labels: Seq<i32>, lab: int) -> bool {
    exists|t: int| #[trigger] is_target(comp, cw, labels, lab, t)
}

/// Region `lab` joined with region `t`.
pub open spec fn relabelled(comp: Seq<bool>, labels: Seq<i32>, lab: int, t: int) -> Seq<i32> {
    Seq::new(
        labels.len(),
        |k: int|
            if comp[k] && labels[k] == lab {
                t as i32
            } else {
                labels[k]
            },
    )
}

/// The labels after region `lab` has joined its target, if it has one.
pub open spec fn absorbed(comp: Seq<bool>, cw: int, labels: Seq<i32>, lab: int) -> Seq<i32> {
    if has_target(comp, cw, labels, lab) {
        relabelled(comp, labels, lab, choose|t: int| #[trigger] is_target(comp, cw, labels, lab, t))
    } else {
        labels
    }
}

/// The labels after the first `n` slivers have joined their targets in turn.
pub open spec fn absorbed_all(comp: Seq<bool>, cw: int, labels: Seq<i32>, slivers: Seq<int>, n: int) -> Seq<i32>
    decreases n,
{
    if n <= 0 {
        labels
    } else {
        absorbed(comp, cw, absorbed_all(comp, cw, labels, slivers, n - 1), slivers[n - 1])
    }
}

/// How many of the first `n` slivers found a target.
pub open spec fn absorbed_count(comp: Seq<bool>, cw: int, labels: Seq<i32>, slivers: Seq<int>, n: int) -> int
    decreases n,
{
    if n <= 0 {
        0
    } else {
        absorbed_count(comp, cw, labels, slivers, n - 1) + (if has_target(
            comp,
            cw,
            absorbed_all(comp, cw, labels, slivers, n - 1),
            slivers[n - 1],
        ) {
            1int
        } else {
            0int
        })
    }
}

/// All slivers of a label map, ascending.
pub open spec fn all_slivers(comp: Seq<bool>, labels: Seq<i32>, frac: int) -> Seq<int> {
    sliver_list(comp, labels, frac, comp.len() as int)
}

/// The labels after one round.
pub open spec fn next_labels(comp: Seq<bool>, cw: int, labels: Seq<i32>, frac: int) -> Seq<i32> {
    let s = all_slivers(comp, labels, frac);
    absorbed_all(comp, cw, labels, s, s.len() as int)
}

/// How many slivers one round reattaches.
pub open spec fn round_count(comp: Seq<bool>, cw: int, labels: Seq<i32>, frac: int) -> int {
    let s = all_slivers(comp, labels, frac);
    absorbed_count(comp, cw, labels, s, s.len() as int)
}

/// No further round changes anything: fewer than two regions, or no sliver that
/// has a neighbour.
pub open spec fn is_settled(comp: Seq<bool>, cw: int, labels: Seq<i32>, frac: int) -> bool {
    region_count(comp, labels) < 2 || round_count(comp, cw, labels, frac) == 0
}

/// The labels after up to `rounds` rounds.
pub open spec fn settled_labels(comp: Seq<bool>, cw: int, labels: Seq<i32>, frac: int, rounds: nat) -> Seq<i32>
    decreases rounds,
{
    if rounds == 0 || is_settled(comp, cw, labels, frac) {
        labels
    } else {
        settled_labels(
            comp,
            cw,
            next_labels(comp, cw, labels, frac),
            frac,
            (rounds - 1) as nat,
        )
    }
}

/// How many slivers up to `rounds` rounds reattach.
pub open spec fn settled_count(comp: Seq<bool>, cw: int, labels: Seq<i32>, frac: int, rounds: nat) -> int
    decreases rounds,
{
    if rounds == 0 || is_settled(comp, cw, labels, frac) {
        0
    } else {
        round_count(comp, cw, labels, frac) + settled_count(
            comp,
            cw,
            next_labels(comp, cw, labels, frac),
            frac,
            (rounds - 1) as nat,
        )
    }
}

// ---- reattachment ---------------------------------------------------------------

/// The area of every region.
fn count_areas(comp: &Vec<bool>, labels: &Vec<i32>) -> (r: Vec<u32>)
    requires
        labels_ok(comp@, labels@),
        comp@.len() <= mask::MAX_PIXELS,
    ensures
        r@.len() == comp@.len(),
        forall|l: int|
            0 <= l < r@.len() ==> #[trigger] r@[l] == region_area(comp@, labels@, l) && r@[l]
                <= comp@.len(),
{
    let n: usize = comp.len();
    let mut areas: Vec<u32> = Vec::new();
    let mut i: usize = 0;
    while i < n
        invariant
            i <= n,
            areas@.len() == i,
            forall|l: int| 0 <= l < i ==> #[trigger] areas@[l] == 0,
        decreases n - i,
    {
        areas.push(0);
        i = i + 1;
    }
    let mut i: usize = 0;
    while i < n
        invariant
            i <= n,
            n == comp@.len(),
            n <= mask::MAX_PIXELS,
            labels_ok(comp@, labels@),
            areas@.len() == n,
            forall|l: int|
                0 <= l < n ==> #[trigger] areas@[l] == counting::count_below(
                    in_region(comp@, labels@, l),
                    i as int,
                ) && areas@[l] <= i,
        decreases n - i,
    {
        if comp[i] && labels[i] >= 0 {
            assert(-1 <= labels@[i as int] < comp@.len());
            let l: usize = labels[i] as usize;
            assert(areas@[l as int] <= i);
            let v: u32 = areas[l];
            areas.set(l, v + 1);
        }
        i = i + 1;
    }
    areas
}

/// The border of region `lab` with every other region.
fn count_contacts(comp: &Vec<bool>, cw: usize, ch: usize, labels: &Vec<i32>, lab: i32) -> (r: Vec<u64>)
    requires
        0 < cw,
        comp@.len() == cw * ch,
        comp@.len() <= mask::MAX_PIXELS,
        labels_ok(comp@, labels@),
        0 <= lab,
    ensures
        r@.len() == comp@.len(),
        forall|o: int|
            0 <= o < r@.len() && o != lab ==> #[trigger] r@[o] == contacts(
                comp@,
                cw as int,
                labels@,
                lab as int,
                o,
            ),
{
    let n: usize = comp.len();
    let mut out: Vec<u64> = Vec::new();
    let ghost c = comp@;
    let ghost w = cw as int;
    let ghost lb = labels@;
    let mut i: usize = 0;
    while i < n
        invariant
            i <= n,
            out@.len() == i,
            forall|o: int| 0 <= o < i ==> #[trigger] out@[o] == 0,
        decreases n - i,
    {
        out.push(0);
        i = i + 1;
    }
    let mut i: usize = 0;
    while i < n
        invariant
            i <= n,
            n == c.len(),
            n <= mask::MAX_PIXELS,
            c == comp@,
            lb == labels@,
            w == cw,
            0 < cw,
            c.len() == cw * ch,
            labels_ok(c, lb),
            0 <= lab,
            out@.len() == n,
            forall|o: int|
                0 <= o < n && o != lab ==> #[trigger] out@[o] == counting::sum_below(
                    cell_contacts(c, w, lb, lab as int, o),
                    i as int,
                ),
            forall|o: int| 0 <= o < n ==> #[trigger] out@[o] <= 8 * i,
        decreases n - i,
    {
        if comp[i] && labels[i] == lab {
            let nb = flood::neighbours(cw, ch, true, i);
            let ghost out0 = out@;
            let mut j: usize = 0;
            while j < nb.len()
                invariant
                    j <= nb@.len(),
                    i < n,
                    nb@.len() <= 8,
                    n == c.len(),
                    n <= mask::MAX_PIXELS,
                    lb == labels@,
                    labels_ok(c, lb),
                    out@.len() == n,
                    out0.len() == n,
                    forall|k: int| 0 <= k < nb@.len() ==> (#[trigger] nb@[k]) < n,
                    forall|o: int|
                        0 <= o < n && o != lab ==> #[trigger] out@[o] == out0[o]
                            + counting::count_below(labelled_at(nb@, lb, o), j as int),
                    forall|o: int| 0 <= o < n ==> #[trigger] out@[o] <= out0[o] + j,
                    forall|o: int| 0 <= o < n ==> #[trigger] out0[o] <= 8 * i,
                decreases nb@.len() - j,
            {
                let nl: i32 = labels[nb[j]];
                assert(-1 <= lb[nb@[j as int] as int] < c.len());
                if nl >= 0 && nl != lab {
                    assert(out0[nl as int] <= 8 * i);
                    assert(out@[nl as int] <= out0[nl as int] + j);
                    let v: u64 = out[nl as usize];
                    out.set(nl as usize, v + 1);
                }
                j = j + 1;
            }
            proof {
                assert forall|o: int| 0 <= o < n && o != lab implies #[trigger] out@[o]
                    == counting::sum_below(cell_contacts(c, w, lb, lab as int, o), i + 1) by {
                    let f = |k: int| lb[k] == o;
                    counting::count_listed(nb@, f, n as int);
                    let listed = |k: int| nb@.contains(k as usize) && f(k);
                    let at = |k: int| f(nb@[k] as int);
                    assert forall|k: int| 0 <= k < n implies #[trigger] listed(k)
                        == neighbour_with(w, lb, i as int, o)(k) by {
                        if nb@.contains(k as usize) {
                            let q = choose|q: int| 0 <= q < nb@.len() && nb@[q] == k as usize;
                            assert(flood::adj(w, true, i as int, nb@[q] as int));
                        }
                    }
                    counting::count_ext(
                        listed,
                        neighbour_with(w, lb, i as int, o),
                        n as int,
                    );
                    counting::count_ext(at, labelled_at(nb@, lb, o), nb@.len() as int);
                    assert(out0[o] == counting::sum_below(
                        cell_contacts(c, w, lb, lab as int, o),
                        i as int,
                    ));
                }
                assert forall|o: int| 0 <= o < n implies #[trigger] out@[o] <= 8 * (i + 1) by {
                    assert(out@[o] <= out0[o] + nb@.len());
                    assert(out0[o] <= 8 * i);
                }
            }
        }
        i = i + 1;
    }
    out
}

spec fn labelled_at(nb: Seq<usize>, labels: Seq<i32>, o: int) -> spec_fn(int) -> bool {
    |k: int| labels[nb[k] as int] == o
}

/// The neighbour of `lab` with the longest border, if it has one.
fn find_target(comp: &Vec<bool>, cw: usize, ch: usize, labels: &Vec<i32>, lab: i32) -> (r: Option<i32>)
    requires
        0 < cw,
        comp@.len() == cw * ch,
        comp@.len() <= mask::MAX_PIXELS,
        labels_ok(comp@, labels@),
        0 <= lab,
    ensures
        match r {
            Some(t) => is_target(comp@, cw as int, labels@, lab as int, t as int),
            None => !has_target(comp@, cw as int, labels@, lab as int),
        },
{
    let n: usize = comp.len();
    let counts = count_contacts(comp, cw, ch, labels, lab);
    let mut best: Option<usize> = None;
    let mut o: usize = 0;
    while o < n
        invariant
            o <= n,
            n == comp@.len(),
            n <= mask::MAX_PIXELS,
            counts@.len() == n,
            0 <= lab,
            match best {
                Some(t) => t < o && t != lab && counts@[t as int] > 0 && forall|p: int|
                    0 <= p < o && p != lab ==> #[trigger] counts@[p] < counts@[t as int] || (
                    counts@[p] == counts@[t as int] && t <= p),
                None => forall|p: int| 0 <= p < o && p != lab ==> #[trigger] counts@[p] == 0,
            },
        decreases n - o,
    {
        if o != lab as usize {
            match best {
                Some(t) => {
                    if counts[o] > counts[t] {
                        best = Some(o);
                    }
                },
                None => {
                    if counts[o] > 0 {
                        best = Some(o);
                    }
                },
            }
        }
        o = o + 1;
    }
    let ghost c = comp@;
    let ghost w = cw as int;
    let ghost lb = labels@;
    match best {
        Some(t) => {
            proof {
                assert(counts@[t as int] == contacts(c, w, lb, lab as int, t as int));
                assert forall|p: int| 0 <= p < c.len() && p != lab implies #[trigger] contacts(
                    c,
                    w,
                    lb,
                    lab as int,
                    p,
                ) < contacts(c, w, lb, lab as int, t as int) || (contacts(c, w, lb, lab as int, p)
                    == contacts(c, w, lb, lab as int, t as int) && t <= p) by {
                    assert(counts@[p] == contacts(c, w, lb, lab as int, p));
                }
            }
            Some(t as i32)
        },
        None => {
            assert forall|t: int| !#[trigger] is_target(c, w, lb, lab as int, t) by {
                if is_target(c, w, lb, lab as int, t) {
                    assert(counts@[t] == contacts(c, w, lb, lab as int, t));
                }
            }
            None
        },
    }
}

/// Two targets of one region are the same.
proof fn target_unique(comp: Seq<bool>, cw: int, labels: Seq<i32>, lab: int, a: int, b: int)
    requires
        is_target(comp, cw, labels, lab, a),
        is_target(comp, cw, labels, lab, b),
    ensures
        a == b,
{
    assert(contacts(comp, cw, labels, lab, a) <= contacts(comp, cw, labels, lab, b));
    assert(contacts(comp, cw, labels, lab, b) <= contacts(comp, cw, labels, lab, a));
}

/// Joins region `lab` with its longest neighbour.
fn absorb(comp: &Vec<bool>, cw: usize, ch: usize, labels: &mut Vec<i32>, lab: i32) -> (hit: bool)
    requires
        0 < cw,
        comp@.len() == cw * ch,
        comp@.len() <= mask::MAX_PIXELS,
        labels_ok(comp@, old(labels)@),
        0 <= lab,
    ensures
        labels_ok(comp@, final(labels)@),
        final(labels)@ == absorbed(comp@, cw as int, old(labels)@, lab as int),
        hit == has_target(comp@, cw as int, old(labels)@, lab as int),
{
    let ghost lb = labels@;
    match find_target(comp, cw, ch, labels, lab) {
        Some(t) => {
            let n: usize = comp.len();
            let mut i: usize = 0;
            while i < n
                invariant
                    i <= n,
                    n == comp@.len(),
                    labels@.len() == n,
                    lb.len() == n,
                    forall|k: int|
                        0 <= k < i ==> #[trigger] labels@[k] == relabelled(
                            comp@,
                            lb,
                            lab as int,
                            t as int,
                        )[k],
                    forall|k: int| i <= k < n ==> #[trigger] labels@[k] == lb[k],
                decreases n - i,
            {
                if comp[i] && labels[i] == lab {
                    labels.set(i, t);
                }
                i = i + 1;
            }
            proof {
                assert(labels@ =~= relabelled(comp@, lb, lab as int, t as int));
                let u = choose|u: int| #[trigger]
                    is_target(comp@, cw as int, lb, lab as int, u);
                assert(is_target(comp@, cw as int, lb, lab as int, t as int));
                target_unique(comp@, cw as int, lb, lab as int, t as int, u);
                assert forall|k: int| 0 <= k < n implies -1 <= #[trigger] labels@[k]
                    < comp@.len() by {
                    assert(-1 <= lb[k] < comp@.len());
                }
            }
            true
        },
        None => false,
    }
}

/// Reattaches sliver regions to the neighbour they share the longest border
/// with, ties to the lowest label, until that changes nothing any more.
/// `sliver_frac` is in thousandths of the mean region area. Returns the labels
/// and the number of reattached slivers.
pub fn reattach_slivers(comp: &Vec<bool>, cw: usize, ch: usize, labels: Vec<i32>, sliver_frac: u32) -> (r: (
    Vec<i32>,
    u64,
))
    requires
        0 < cw,
        comp@.len() == cw * ch,
        comp@.len() <= mask::MAX_PIXELS,
        labels_ok(comp@, labels@),
    ensures
        labels_ok(comp@, r.0@),
        r.0@ == settled_labels(comp@, cw as int, labels@, sliver_frac as int, comp@.len()),
        r.1 == settled_count(comp@, cw as int, labels@, sliver_frac as int, comp@.len()),
        is_settled(comp@, cw as int, r.0@, sliver_frac as int),
        r.1 <= comp@.len(),
{
    let n: usize = comp.len();
    let ghost c = comp@;
    let ghost w = cw as int;
    let ghost lb = labels@;
    let frac: u128 = sliver_frac as u128;
    let mut total: u128 = 0;
    let mut i: usize = 0;
    let ghost f = members(c);
    while i < n
        invariant
            i <= n,
            n == comp@.len(),
            f == members(comp@),
            total == counting::count_below(f, i as int),
            total <= i,
        decreases n - i,
    {
        if comp[i] {
            total = total + 1;
        }
        i = i + 1;
    }
    let mut labels = labels;
    let mut reattached: u64 = 0;
    let mut round: usize = 0;
    let mut done: bool = false;
    proof {
        counting::count_bounds(is_live(c, lb), n as int);
    }
    while round < n && !done
        invariant
            round <= n,
            n == c.len(),
            n <= mask::MAX_PIXELS,
            c == comp@,
            w == cw,
            0 < cw,
            c.len() == cw * ch,
            frac == sliver_frac,
            total == member_count(c),
            total <= n,
            labels_ok(c, labels@),
            reattached + region_count(c, labels@) == region_count(c, lb),
            region_count(c, lb) <= n,
            round <= reattached,
            done ==> settled_labels(c, w, lb, frac as int, n as nat) == labels@ && settled_count(
                c,
                w,
                lb,
                frac as int,
                n as nat,
            ) == reattached,
            done ==> is_settled(c, w, labels@, frac as int),
            !done ==> settled_labels(c, w, lb, frac as int, n as nat) == settled_labels(
                c,
                w,
                labels@,
                frac as int,
                (n - round) as nat,
            ) && settled_count(c, w, lb, frac as int, n as nat) == reattached + settled_count(
                c,
                w,
                labels@,
                frac as int,
                (n - round) as nat,
            ),
        decreases
                n - round + (if done {
                    0int
                } else {
                    1int
                }),
    {
        let ghost cur = labels@;
        let areas = count_areas(comp, &labels);
        let mut live: u128 = 0;
        let mut l: usize = 0;
        let ghost g = is_live(c, cur);
        while l < n
            invariant
                l <= n,
                n == c.len(),
                areas@.len() == n,
                g == is_live(c, cur),
                forall|k: int| 0 <= k < n ==> #[trigger] areas@[k] == region_area(c, cur, k),
                live == counting::count_below(g, l as int),
                live <= l,
            decreases n - l,
        {
            assert(areas@[l as int] == region_area(c, cur, l as int));
            if areas[l] > 0 {
                live = live + 1;
            }
            l = l + 1;
        }
        if live < 2 {
            done = true;
        } else {
            let mut slivers: Vec<i32> = Vec::new();
            let mut l: usize = 0;
            while l < n
                invariant
                    l <= n,
                    n == c.len(),
                    n <= mask::MAX_PIXELS,
                    areas@.len() == n,
                    live == region_count(c, cur),
                    live <= n,
                    total == member_count(c),
                    total <= n,
                    frac <= u32::MAX,
                    forall|k: int|
                        0 <= k < n ==> #[trigger] areas@[k] == region_area(c, cur, k) && areas@[k]
                            <= n,
                    slivers@.len() <= l,
                    slivers@.map_values(|x: i32| x as int) == sliver_list(
                        c,
                        cur,
                        frac as int,
                        l as int,
                    ),
                    forall|k: int| 0 <= k < slivers@.len() ==> 0 <= #[trigger] slivers@[k] < n,
                decreases n - l,
            {
                assert(areas@[l as int] == region_area(c, cur, l as int) && areas@[l as int] <= n);
                let a: u128 = areas[l] as u128;
                proof {
                    assert(a * 1000 * live <= 0x7fff_ffff * 1000 * 0x7fff_ffff) by (nonlinear_arith)
                        requires
                            0 <= a <= 0x7fff_ffff,
                            0 <= live <= 0x7fff_ffff,
                    ;
                    assert(frac * total <= 0xffff_ffff * 0x7fff_ffff) by (nonlinear_arith)
                        requires
                            0 <= frac <= 0xffff_ffff,
                            0 <= total <= 0x7fff_ffff,
                    ;
                }
                let ghost s0 = slivers@;
                if a > 0 && a * 1000 * live < frac * total {
                    slivers.push(l as i32);
                    assert(slivers@.map_values(|x: i32| x as int) =~= s0.map_values(
                        |x: i32| x as int,
                    ).push(l as int));
                }
                l = l + 1;
            }
            let ghost sl = all_slivers(c, cur, frac as int);
            let mut j: usize = 0;
            let ghost before = reattached;
            let mut hits: u64 = 0;
            while j < slivers.len()
                invariant
                    j <= slivers@.len(),
                    slivers@.len() <= n,
                    n == c.len(),
                    n <= mask::MAX_PIXELS,
                    c == comp@,
                    w == cw,
                    0 < cw,
                    c.len() == cw * ch,
                    sl == slivers@.map_values(|x: i32| x as int),
                    forall|k: int| 0 <= k < slivers@.len() ==> 0 <= #[trigger] slivers@[k] < n,
                    labels_ok(c, labels@),
                    labels@ == absorbed_all(c, w, cur, sl, j as int),
                    hits == absorbed_count(c, w, cur, sl, j as int),
                    hits <= j,
                decreases slivers@.len() - j,
            {
                assert(sl[j as int] == slivers@[j as int]);
                if absorb(comp, cw, ch, &mut labels, slivers[j]) {
                    hits = hits + 1;
                }
                j = j + 1;
            }
            proof {
                round_lowers_count(c, w, cur, frac as int);
                counting::count_bounds(is_live(c, labels@), n as int);
            }
            if hits == 0 {
                proof {
                    idle_round(c, w, cur, sl, sl.len() as int);
                }
                done = true;
            } else {
                reattached = reattached + hits;
                round = round + 1;
            }
        }
    }
    proof {
        counting::count_bounds(is_live(c, labels@), n as int);
    }
    (labels, reattached)
}

/// A round without a hit changes nothing.
proof fn idle_round(comp: Seq<bool>, cw: int, labels: Seq<i32>, slivers: Seq<int>, n: int)
    requires
        0 <= n <= slivers.len(),
        absorbed_count(comp, cw, labels, slivers, n) == 0,
    ensures
        absorbed_all(comp, cw, labels, slivers, n) == labels,
    decreases n,
{
    if n > 0 {
        hits_not_negative(comp, cw, labels, slivers, n - 1);
        idle_round(comp, cw, labels, slivers, n - 1);
    }
}

proof fn hits_not_negative(comp: Seq<bool>, cw: int, labels: Seq<i32>, slivers: Seq<int>, n: int)
    ensures
        absorbed_count(comp, cw, labels, slivers, n) >= 0,
    decreases n,
{
    if n > 0 {
        hits_not_negative(comp, cw, labels, slivers, n - 1);
    }
}

/// Regions with a common border are both there.
proof fn contact_is_live(comp: Seq<bool>, cw: int, labels: Seq<i32>, lab: int, t: int)
    requires
        labels_ok(comp, labels),
        0 <= t,
        contacts(comp, cw, labels, lab, t) > 0,
    ensures
        region_area(comp, labels, t) > 0,
{
    let n = comp.len() as int;
    let f = cell_contacts(comp, cw, labels, lab, t);
    counting::sum_some(f, n);
    let k = choose|k: int| 0 <= k < n && #[trigger] f(k) > 0;
    let g = neighbour_with(cw, labels, k, t);
    counting::count_some(g, n);
    let j = choose|j: int| 0 <= j < n && #[trigger] g(j);
    assert(in_region(comp, labels, t)(j));
    counting::count_positive(in_region(comp, labels, t), n, j);
}

/// A region that joins its target is one region less.
proof fn joining_lowers_count(comp: Seq<bool>, cw: int, labels: Seq<i32>, lab: int, t: int)
    requires
        labels_ok(comp, labels),
        comp.len() <= mask::MAX_PIXELS,
        0 <= lab < comp.len(),
        region_area(comp, labels, lab) > 0,
        is_target(comp, cw, labels, lab, t),
    ensures
        region_count(comp, relabelled(comp, labels, lab, t)) == region_count(comp, labels) - 1,
        forall|l: int|
            0 <= l < comp.len() && l != lab && #[trigger] region_area(comp, labels, l) > 0 ==> region_area(
                comp,
                relabelled(comp, labels, lab, t),
                l,
            ) > 0,
{
    let n = comp.len() as int;
    let next = relabelled(comp, labels, lab, t);
    contact_is_live(comp, cw, labels, lab, t);
    assert forall|l: int| 0 <= l < n && l != lab && l != t implies region_area(comp, next, l)
        == #[trigger] region_area(comp, labels, l) by {
        counting::count_ext(in_region(comp, next, l), in_region(comp, labels, l), n);
    }
    counting::count_le(in_region(comp, labels, t), in_region(comp, next, t), n);
    counting::count_span(in_region(comp, next, lab), 0, n, false);
    let f = is_live(comp, labels);
    let g = is_live(comp, next);
    assert forall|l: int| 0 <= l < n && l != lab implies #[trigger] f(l) == g(l) by {
        if l != t {
            assert(region_area(comp, next, l) == region_area(comp, labels, l));
        }
    }
    counting::count_drop(f, g, n, lab);
}

proof fn absorbing_lowers_count(comp: Seq<bool>, cw: int, labels: Seq<i32>, slivers: Seq<int>, n: int)
    requires
        labels_ok(comp, labels),
        comp.len() <= mask::MAX_PIXELS,
        0 <= n <= slivers.len(),
        forall|i: int|
            0 <= i < slivers.len() ==> 0 <= #[trigger] slivers[i] < comp.len() && region_area(
                comp,
                labels,
                slivers[i],
            ) > 0,
        forall|i: int, j: int| 0 <= i < j < slivers.len() ==> #[trigger] slivers[i] < #[trigger] slivers[j],
    ensures
        region_count(comp, absorbed_all(comp, cw, labels, slivers, n)) == region_count(comp, labels)
            - absorbed_count(comp, cw, labels, slivers, n),
        forall|i: int|
            n <= i < slivers.len() ==> region_area(
                comp,
                absorbed_all(comp, cw, labels, slivers, n),
                #[trigger] slivers[i],
            ) > 0,
    decreases n,
{
    if n > 0 {
        absorbing_lowers_count(comp, cw, labels, slivers, n - 1);
        absorb_keeps_range(comp, cw, labels, slivers, n - 1);
        let prev = absorbed_all(comp, cw, labels, slivers, n - 1);
        let lab = slivers[n - 1];
        if has_target(comp, cw, prev, lab) {
            let t = choose|t: int| #[trigger] is_target(comp, cw, prev, lab, t);
            joining_lowers_count(comp, cw, prev, lab, t);
            assert forall|i: int| n <= i < slivers.len() implies region_area(
                comp,
                relabelled(comp, prev, lab, t),
                #[trigger] slivers[i],
            ) > 0 by {
                assert(lab < slivers[i]);
                assert(region_area(comp, prev, slivers[i]) > 0);
            }
        }
    }
}

proof fn slivers_are_live(comp: Seq<bool>, labels: Seq<i32>, frac: int, n: int)
    requires
        0 <= n <= comp.len(),
    ensures
        forall|i: int|
            0 <= i < sliver_list(comp, labels, frac, n).len() ==> 0 <= #[trigger] sliver_list(
                comp,
                labels,
                frac,
                n,
            )[i] < n && region_area(comp, labels, sliver_list(comp, labels, frac, n)[i]) > 0,
        forall|i: int, j: int|
            0 <= i < j < sliver_list(comp, labels, frac, n).len() ==> #[trigger] sliver_list(
                comp,
                labels,
                frac,
                n,
            )[i] < #[trigger] sliver_list(comp, labels, frac, n)[j],
    decreases n,
{
    if n > 0 {
        slivers_are_live(comp, labels, frac, n - 1);
        let prev = sliver_list(comp, labels, frac, n - 1);
        let list = sliver_list(comp, labels, frac, n);
        assert forall|i: int| 0 <= i < list.len() implies 0 <= #[trigger] list[i] < n && region_area(
            comp,
            labels,
            list[i],
        ) > 0 by {
            if i < prev.len() {
                assert(list[i] == prev[i]);
            }
        }
        assert forall|i: int, j: int| 0 <= i < j < list.len() implies #[trigger] list[i]
            < #[trigger] list[j] by {
            assert(list[i] == prev[i]);
            if j < prev.len() {
                assert(list[j] == prev[j]);
            }
        }
    }
}

/// Every sliver that a round reattaches is one region less.
pub proof fn round_lowers_count(comp: Seq<bool>, cw: int, labels: Seq<i32>, frac: int)
    requires
        labels_ok(comp, labels),
        comp.len() <= mask::MAX_PIXELS,
    ensures
        region_count(comp, next_labels(comp, cw, labels, frac)) == region_count(comp, labels)
            - round_count(comp, cw, labels, frac),
        round_count(comp, cw, labels, frac) >= 0,
{
    let s = all_slivers(comp, labels, frac);
    slivers_are_live(comp, labels, frac, comp.len() as int);
    absorbing_lowers_count(comp, cw, labels, s, s.len() as int);
    hits_not_negative(comp, cw, labels, s, s.len() as int);
}

/// Reattachment ends: after as many rounds as there are regions no further one
/// changes anything.
pub proof fn reattachment_settles(comp: Seq<bool>, cw: int, labels: Seq<i32>, frac: int, rounds: nat)
    requires
        labels_ok(comp, labels),
        comp.len() <= mask::MAX_PIXELS,
        rounds >= region_count(comp, labels),
    ensures
        is_settled(comp, cw, settled_labels(comp, cw, labels, frac, rounds), frac),
    decreases rounds,
{
    if rounds > 0 && !is_settled(comp, cw, labels, frac) {
        round_lowers_count(comp, cw, labels, frac);
        let s = all_slivers(comp, labels, frac);
        absorb_keeps_range(comp, cw, labels, s, s.len() as int);
        reattachment_settles(
            comp,
            cw,
            next_labels(comp, cw, labels, frac),
            frac,
            (rounds - 1) as nat,
        );
    }
}

/// Reattachment never takes a label away from a component cell.
pub proof fn reattach_keeps_labels(comp: Seq<bool>, cw: int, labels: Seq<i32>, frac: int, rounds: nat, k: int)
    requires
        labels.len() == comp.len(),
        0 <= k < comp.len(),
        comp[k],
        labels[k] >= 0,
        comp.len() <= mask::MAX_PIXELS,
    ensures
        settled_labels(comp, cw, labels, frac, rounds).len() == comp.len(),
        settled_labels(comp, cw, labels, frac, rounds)[k] >= 0,
    decreases rounds,
{
    if !(rounds == 0 || is_settled(comp, cw, labels, frac)) {
        let s = all_slivers(comp, labels, frac);
        absorb_keeps(comp, cw, labels, s, s.len() as int, k);
        reattach_keeps_labels(
            comp,
            cw,
            next_labels(comp, cw, labels, frac),
            frac,
            (rounds - 1) as nat,
            k,
        );
    }
}

/// Reattachment keeps labels in range.
pub proof fn reattach_keeps_range(comp: Seq<bool>, cw: int, labels: Seq<i32>, frac: int, rounds: nat)
    requires
        labels_ok(comp, labels),
        comp.len() <= mask::MAX_PIXELS,
    ensures
        labels_ok(comp, settled_labels(comp, cw, labels, frac, rounds)),
    decreases rounds,
{
    if !(rounds == 0 || is_settled(comp, cw, labels, frac)) {
        let s = all_slivers(comp, labels, frac);
        absorb_keeps_range(comp, cw, labels, s, s.len() as int);
        reattach_keeps_range(
            comp,
            cw,
            next_labels(comp, cw, labels, frac),
            frac,
            (rounds - 1) as nat,
        );
    }
}

proof fn absorb_keeps_range(comp: Seq<bool>, cw: int, labels: Seq<i32>, slivers: Seq<int>, n: int)
    requires
        labels_ok(comp, labels),
        comp.len() <= mask::MAX_PIXELS,
    ensures
        labels_ok(comp, absorbed_all(comp, cw, labels, slivers, n)),
    decreases n,
{
    if n > 0 {
        absorb_keeps_range(comp, cw, labels, slivers, n - 1);
        let prev = absorbed_all(comp, cw, labels, slivers, n - 1);
        let next = absorbed(comp, cw, prev, slivers[n - 1]);
        assert forall|k: int| 0 <= k < next.len() implies -1 <= #[trigger] next[k] < comp.len() by {
            assert(-1 <= prev[k] < comp.len());
        }
    }
}

proof fn absorb_keeps(comp: Seq<bool>, cw: int, labels: Seq<i32>, slivers: Seq<int>, n: int, k: int)
    requires
        labels.len() == comp.len(),
        0 <= k < comp.len(),
        labels[k] >= 0,
        comp.len() <= mask::MAX_PIXELS,
    ensures
        absorbed_all(comp, cw, labels, slivers, n).len() == comp.len(),
        absorbed_all(comp, cw, labels, slivers, n)[k] >= 0,
    decreases n,
{
    if n > 0 {
        absorb_keeps(comp, cw, labels, slivers, n - 1, k);
    }
}

// ---- regions to groups -----------------------------------------------------------

/// The sheet pixel of cell `k` of a crop at `off`.
pub open spec fn sheet_pixel(off: Bbox, k: int) -> (int, int) {
    (off.x + k % (off.w as int), off.y + k / (off.w as int))
}

/// `k` is the first cell of region `l`.
pub open spec fn is_first_cell(comp: Seq<bool>, labels: Seq<i32>, l: int, k: int) -> bool {
    &&& 0 <= k < comp.len()
    &&& in_region(comp, labels, l)(k)
    &&& forall|j: int| 0 <= j < k ==> !#[trigger] in_region(comp, labels, l)(j)
}

/// Region `l` has a cell in column `x` of the sheet.
pub open spec fn region_column(comp: Seq<bool>, labels: Seq<i32>, off: Bbox, l: int, n: int, x: int) -> bool {
    exists|k: int|
        0 <= k < n && #[trigger] in_region(comp, labels, l)(k) && sheet_pixel(off, k).0 == x
}

/// Region `l` has a cell in row `y` of the sheet.
pub open spec fn region_row(comp: Seq<bool>, labels: Seq<i32>, off: Bbox, l: int, n: int, y: int) -> bool {
    exists|k: int|
        0 <= k < n && #[trigger] in_region(comp, labels, l)(k) && sheet_pixel(off, k).1 == y
}

/// `b` is the tight box around region `l`.
pub open spec fn boxes_region(comp: Seq<bool>, labels: Seq<i32>, off: Bbox, l: int, b: Bbox) -> bool {
    let n = comp.len() as int;
    &&& forall|k: int|
        0 <= k < n && #[trigger] in_region(comp, labels, l)(k) ==> b.covers(
            sheet_pixel(off, k).0,
            sheet_pixel(off, k).1,
        )
    &&& region_column(comp, labels, off, l, n, b.x as int)
    &&& region_column(comp, labels, off, l, n, b.right() - 1)
    &&& region_row(comp, labels, off, l, n, b.y as int)
    &&& region_row(comp, labels, off, l, n, b.bottom() - 1)
}

/// `g` describes region `l`: tight box, ink and first cell.
pub open spec fn is_region_group(comp: Seq<bool>, labels: Seq<i32>, off: Bbox, l: int, g: IconGroup) -> bool {
    &&& g.area == region_area(comp, labels, l)
    &&& g.area > 0
    &&& boxes_region(comp, labels, off, l, g.bbox)
    &&& exists|k: int| #[trigger]
        is_first_cell(comp, labels, l, k) && sheet_pixel(off, k) == group::origin_of(g)
}

/// `out` lists the regions of a label map in canonical order; `names[i]` is the
/// label of `out[i]`.
pub open spec fn lists_regions(comp: Seq<bool>, labels: Seq<i32>, off: Bbox, names: Seq<int>, out: Seq<IconGroup>) -> bool {
    &&& names.len() == out.len()
    &&& forall|i: int|
        0 <= i < out.len() ==> 0 <= #[trigger] names[i] < comp.len() && is_region_group(
            comp,
            labels,
            off,
            names[i],
            out[i],
        )
    &&& forall|i: int, j: int| 0 <= i < j < names.len() ==> #[trigger] names[i] != #[trigger] names[j]
    &&& forall|l: int|
        0 <= l < comp.len() && #[trigger] region_area(comp, labels, l) > 0 ==> names.contains(l)
    &&& forall|i: int, j: int|
        0 <= i < j < out.len() ==> sorting::key_lt(
            group::group_key(#[trigger] out[i]),
            group::group_key(#[trigger] out[j]),
        )
}

/// `out` are the regions of a label map.
pub open spec fn is_region_list(comp: Seq<bool>, labels: Seq<i32>, off: Bbox, out: Seq<IconGroup>) -> bool {
    exists|names: Seq<int>| #[trigger] lists_regions(comp, labels, off, names, out)
}

/// The running measurements of one region.
#[derive(Clone, Copy)]
struct Acc {
    label: usize,
    first: usize,
    minx: u32,
    miny: u32,
    maxx: u32,
    maxy: u32,
    area: u32,
}

/// `a` measures the cells of its region among the first `n`.
spec fn measures(comp: Seq<bool>, labels: Seq<i32>, off: Bbox, n: int, a: Acc) -> bool {
    let l = a.label as int;
    &&& l < comp.len()
    &&& a.first < n
    &&& is_first_cell(comp, labels, l, a.first as int)
    &&& a.area == counting::count_below(in_region(comp, labels, l), n)
    &&& a.area > 0
    &&& a.minx <= a.maxx
    &&& a.miny <= a.maxy
    &&& off.x <= a.minx
    &&& a.maxx < off.right()
    &&& off.y <= a.miny
    &&& a.maxy < off.bottom()
    &&& forall|k: int|
        0 <= k < n && #[trigger] in_region(comp, labels, l)(k) ==> a.minx <= sheet_pixel(off, k).0
            <= a.maxx && a.miny <= sheet_pixel(off, k).1 <= a.maxy
    &&& region_column(comp, labels, off, l, n, a.minx as int)
    &&& region_column(comp, labels, off, l, n, a.maxx as int)
    &&& region_row(comp, labels, off, l, n, a.miny as int)
    &&& region_row(comp, labels, off, l, n, a.maxy as int)
}

proof fn column_stays(comp: Seq<bool>, labels: Seq<i32>, off: Bbox, l: int, n: int, v: int)
    ensures
        region_column(comp, labels, off, l, n, v) ==> region_column(
            comp,
            labels,
            off,
            l,
            n + 1,
            v,
        ),
        region_row(comp, labels, off, l, n, v) ==> region_row(comp, labels, off, l, n + 1, v),
{
    if region_column(comp, labels, off, l, n, v) {
        let k = choose|k: int|
            0 <= k < n && #[trigger] in_region(comp, labels, l)(k) && sheet_pixel(off, k).0 == v;
        assert(0 <= k < n + 1 && in_region(comp, labels, l)(k));
    }
    if region_row(comp, labels, off, l, n, v) {
        let k = choose|k: int|
            0 <= k < n && #[trigger] in_region(comp, labels, l)(k) && sheet_pixel(off, k).1 == v;
        assert(0 <= k < n + 1 && in_region(comp, labels, l)(k));
    }
}

/// A cell outside the region leaves its measurements as they are.
proof fn measures_stays(comp: Seq<bool>, labels: Seq<i32>, off: Bbox, n: int, a: Acc)
    requires
        measures(comp, labels, off, n, a),
        0 <= n < comp.len(),
        !in_region(comp, labels, a.label as int)(n),
    ensures
        measures(comp, labels, off, n + 1, a),
{
    let l = a.label as int;
    column_stays(comp, labels, off, l, n, a.minx as int);
    column_stays(comp, labels, off, l, n, a.maxx as int);
    column_stays(comp, labels, off, l, n, a.miny as int);
    column_stays(comp, labels, off, l, n, a.maxy as int);
}

/// Turns a label map into groups: tight box, ink area and first cell of each
/// region, in canonical order.
pub fn regions_to_groups(comp: &Vec<bool>, labels: &Vec<i32>, off: &Bbox) -> (r: Vec<IconGroup>)
    requires
        0 < off.w,
        0 < off.h,
        comp@.len() == off.w * off.h,
        comp@.len() <= mask::MAX_PIXELS,
        off.right() <= u32::MAX,
        off.bottom() <= u32::MAX,
        labels_ok(comp@, labels@),
    ensures
        is_region_list(comp@, labels@, *off, r@),
{
    let n: usize = comp.len();
    let cw: usize = off.w as usize;
    let ghost c = comp@;
    let ghost lb = labels@;
    let mut slot: Vec<usize> = Vec::new();
    let mut i: usize = 0;
    while i < n
        invariant
            i <= n,
            slot@.len() == i,
            forall|k: int| 0 <= k < i ==> #[trigger] slot@[k] == n,
        decreases n - i,
    {
        slot.push(n);
        i = i + 1;
    }
    let mut accs: Vec<Acc> = Vec::new();
    let mut i: usize = 0;
    while i < n
        invariant
            i <= n,
            n == c.len(),
            n <= mask::MAX_PIXELS,
            c == comp@,
            lb == labels@,
            cw == off.w,
            0 < off.w,
            0 < off.h,
            c.len() == off.w * off.h,
            off.right() <= u32::MAX,
            off.bottom() <= u32::MAX,
            labels_ok(c, lb),
            slot@.len() == n,
            accs@.len() <= i,
            forall|j: int| 0 <= j < accs@.len() ==> measures(c, lb, *off, i as int, #[trigger] accs@[j]),
            forall|j: int| 0 <= j < accs@.len() ==> slot@[(#[trigger] accs@[j]).label as int] == j,
            forall|l: int|
                0 <= l < n ==> (#[trigger] slot@[l] == n && forall|k: int|
                    0 <= k < i ==> !#[trigger] in_region(c, lb, l)(k)) || (slot@[l] < accs@.len()
                    && accs@[slot@[l] as int].label == l),
        decreases n - i,
    {
        let ghost accs0 = accs@;
        let ghost slot0 = slot@;
        if comp[i] && labels[i] >= 0 {
            assert(-1 <= lb[i as int] < c.len());
            let l: usize = labels[i] as usize;
            proof {
                mask::lemma_pixel_split(off.w as int, off.h as int, i as int);
            }
            let x: u32 = off.x + (i % cw) as u32;
            let y: u32 = off.y + (i / cw) as u32;
            assert(sheet_pixel(*off, i as int) == (x as int, y as int));
            assert(in_region(c, lb, l as int)(i as int));
            if slot[l] == n {
                let a = Acc { label: l, first: i, minx: x, miny: y, maxx: x, maxy: y, area: 1 };
                let at: usize = accs.len();
                slot.set(l, at);
                accs.push(a);
                proof {
                    counting::count_span(in_region(c, lb, l as int), 0, i as int, false);
                    assert(region_column(c, lb, *off, l as int, i + 1, x as int));
                    assert(region_row(c, lb, *off, l as int, i + 1, y as int));
                    assert(measures(c, lb, *off, i + 1, a));
                }
            } else {
                let at: usize = slot[l];
                let a = accs[at];
                proof {
                    assert(measures(c, lb, *off, i as int, accs@[at as int]));
                    counting::count_bounds(in_region(c, lb, l as int), i as int);
                }
                let b = Acc {
                    label: l,
                    first: a.first,
                    minx: if x < a.minx {
                        x
                    } else {
                        a.minx
                    },
                    miny: if y < a.miny {
                        y
                    } else {
                        a.miny
                    },
                    maxx: if x > a.maxx {
                        x
                    } else {
                        a.maxx
                    },
                    maxy: if y > a.maxy {
                        y
                    } else {
                        a.maxy
                    },
                    area: a.area + 1,
                };
                accs.set(at, b);
                proof {
                    column_stays(c, lb, *off, l as int, i as int, a.minx as int);
                    column_stays(c, lb, *off, l as int, i as int, a.maxx as int);
                    column_stays(c, lb, *off, l as int, i as int, a.miny as int);
                    column_stays(c, lb, *off, l as int, i as int, a.maxy as int);
                    assert(region_column(c, lb, *off, l as int, i + 1, x as int));
                    assert(region_row(c, lb, *off, l as int, i + 1, y as int));
                    assert(measures(c, lb, *off, i + 1, b));
                }
            }
            proof {
                assert forall|j: int| 0 <= j < accs@.len() implies measures(
                    c,
                    lb,
                    *off,
                    i + 1,
                    #[trigger] accs@[j],
                ) by {
                    if accs@[j].label != l {
                        assert(accs@[j] == accs0[j]);
                        measures_stays(c, lb, *off, i as int, accs0[j]);
                    }
                }
            }
        } else {
            proof {
                assert forall|j: int| 0 <= j < accs@.len() implies measures(
                    c,
                    lb,
                    *off,
                    i + 1,
                    #[trigger] accs@[j],
                ) by {
                    measures_stays(c, lb, *off, i as int, accs0[j]);
                }
            }
        }
        i = i + 1;
    }
    let mut groups: Vec<IconGroup> = Vec::new();
    let mut j: usize = 0;
    while j < accs.len()
        invariant
            j <= accs@.len(),
            n == c.len(),
            cw == off.w,
            0 < off.w,
            0 < off.h,
            c.len() == off.w * off.h,
            off.right() <= u32::MAX,
            off.bottom() <= u32::MAX,
            n <= mask::MAX_PIXELS,
            forall|k: int|
                0 <= k < accs@.len() ==> measures(c, lb, *off, n as int, #[trigger] accs@[k]),
            groups@.len() == j,
            forall|k: int|
                0 <= k < j ==> is_region_group(
                    c,
                    lb,
                    *off,
                    accs@[k].label as int,
                    #[trigger] groups@[k],
                ) && group::origin_of(groups@[k]) == sheet_pixel(*off, accs@[k].first as int),
        decreases accs@.len() - j,
    {
        let a = accs[j];
        proof {
            assert(measures(c, lb, *off, n as int, accs@[j as int]));
            mask::lemma_pixel_split(off.w as int, off.h as int, a.first as int);
        }
        let g = IconGroup {
            bbox: Bbox {
                x: a.minx,
                y: a.miny,
                w: a.maxx - a.minx + 1,
                h: a.maxy - a.miny + 1,
            },
            area: a.area,
            origin: (off.x + (a.first % cw) as u32, off.y + (a.first / cw) as u32),
        };
        groups.push(g);
        proof {
            assert(is_first_cell(c, lb, a.label as int, a.first as int) && sheet_pixel(
                *off,
                a.first as int,
            ) == group::origin_of(g));
            assert(boxes_region(c, lb, *off, a.label as int, g.bbox));
            assert(is_region_group(c, lb, *off, a.label as int, g));
        }
        j = j + 1;
    }
    let out = group::sort_groups(&groups);
    let ghost total: usize = groups.len();
    proof {
        let raw: Seq<int> = Seq::new(accs@.len(), |k: int| accs@[k].label as int);
        assert forall|a: int, b: int| 0 <= a < b < raw.len() implies #[trigger] raw[a]
            != #[trigger] raw[b] by {
            assert(slot@[accs@[a].label as int] == a);
            assert(slot@[accs@[b].label as int] == b);
        }
        assert forall|l: int| 0 <= l < c.len() && #[trigger] region_area(c, lb, l) > 0 implies raw.contains(
            l,
        ) by {
            if slot@[l] == n {
                counting::count_span(in_region(c, lb, l), 0, n as int, false);
            }
            assert(raw[slot@[l] as int] == l);
        }
        assert forall|a: int, b: int| 0 <= a < b < groups@.len() implies group::origin_of(
            #[trigger] groups@[a],
        ) != group::origin_of(#[trigger] groups@[b]) by {
            let fa = accs@[a].first as int;
            let fb = accs@[b].first as int;
            assert(raw[a] != raw[b]);
            assert(measures(c, lb, *off, n as int, accs@[a]));
            assert(measures(c, lb, *off, n as int, accs@[b]));
            if group::origin_of(groups@[a]) == group::origin_of(groups@[b]) {
                mask::lemma_pixel_split(off.w as int, off.h as int, fa);
                mask::lemma_pixel_split(off.w as int, off.h as int, fb);
                assert(fa == fb);
            }
        }
        sorted_regions(c, lb, *off, raw, groups@, out@);
    }
    out
}

/// Sorting a complete listing of regions keeps it complete.
proof fn sorted_regions(comp: Seq<bool>, labels: Seq<i32>, off: Bbox, raw: Seq<int>, groups: Seq<IconGroup>, out: Seq<IconGroup>)
    requires
        group::is_sorted_listing(groups, out),
        groups.len() <= usize::MAX,
        raw.len() == groups.len(),
        forall|i: int|
            0 <= i < groups.len() ==> 0 <= #[trigger] raw[i] < comp.len() && is_region_group(
                comp,
                labels,
                off,
                raw[i],
                groups[i],
            ),
        forall|i: int, j: int| 0 <= i < j < raw.len() ==> #[trigger] raw[i] != #[trigger] raw[j],
        forall|l: int|
            0 <= l < comp.len() && #[trigger] region_area(comp, labels, l) > 0 ==> raw.contains(l),
        forall|k: int, l: int|
            0 <= k < l < groups.len() ==> group::origin_of(#[trigger] groups[k])
                != group::origin_of(#[trigger] groups[l]),
    ensures
        is_region_list(comp, labels, off, out),
{
    let order = choose|order: Seq<usize>| #[trigger]
        sorting::is_order(group::keys_of(groups), order, 0, groups.len() as int) && out
            == group::picked(groups, order);
    let keys = group::keys_of(groups);
    let names: Seq<int> = Seq::new(out.len(), |i: int| raw[order[i] as int]);
    assert forall|i: int, j: int| 0 <= i < j < out.len() implies sorting::key_lt(
        group::group_key(#[trigger] out[i]),
        group::group_key(#[trigger] out[j]),
    ) by {
        let a = order[i] as int;
        let b = order[j] as int;
        assert(sorting::pos_lt(keys, a, b));
        assert(keys[a] == group::group_key(groups[a]));
        assert(keys[b] == group::group_key(groups[b]));
        if keys[a] == keys[b] {
            assert(group::origin_of(groups[a]) == group::origin_of(groups[b]));
        }
    }
    assert forall|i: int, j: int| 0 <= i < j < names.len() implies #[trigger] names[i]
        != #[trigger] names[j] by {
        assert(sorting::pos_lt(keys, order[i] as int, order[j] as int));
        assert(order[i] != order[j]);
        if order[i] < order[j] {
            assert(raw[order[i] as int] != raw[order[j] as int]);
        } else {
            assert(raw[order[j] as int] != raw[order[i] as int]);
        }
    }
    assert forall|l: int| 0 <= l < comp.len() && #[trigger] region_area(comp, labels, l) > 0 implies names.contains(
        l,
    ) by {
        assert(raw.contains(l));
        let k = choose|k: int| 0 <= k < raw.len() && raw[k] == l;
        assert(order.contains(k as usize));
        let i = choose|i: int| 0 <= i < order.len() && order[i] == k as usize;
        assert(names[i] == l);
    }
    assert(lists_regions(comp, labels, off, names, out));
}

// ---- ink is conserved ---------------------------------------------------------------

/// The areas of a list of groups.
pub open spec fn areas_of(out: Seq<IconGroup>) -> spec_fn(int) -> int {
    |i: int| out[i].area as int
}

/// The component cells that carry a label.
pub open spec fn labelled(comp: Seq<bool>, labels: Seq<i32>) -> spec_fn(int) -> bool {
    |k: int| comp[k] && labels[k] >= 0
}

/// Regions partition the labelled cells of the component: their areas add up to
/// the number of those cells.
pub proof fn regions_conserve_ink(comp: Seq<bool>, labels: Seq<i32>, off: Bbox, out: Seq<IconGroup>)
    requires
        labels_ok(comp, labels),
        is_region_list(comp, labels, off, out),
    ensures
        counting::sum_below(areas_of(out), out.len() as int) == counting::count_below(
            labelled(comp, labels),
            comp.len() as int,
        ),
{
    let names = choose|names: Seq<int>| #[trigger] lists_regions(comp, labels, off, names, out);
    assert forall|l: int| 0 <= l < comp.len() && !names.contains(l) implies #[trigger] region_area(
        comp,
        labels,
        l,
    ) <= 0 by {}
    assert forall|i: int| 0 <= i < out.len() implies #[trigger] areas_of(out)(i) == partial(
        comp,
        labels,
        names,
        comp.len() as int,
    )(i) by {
        assert(is_region_group(comp, labels, off, names[i], out[i]));
    }
    counting::sum_ext(
        areas_of(out),
        partial(comp, labels, names, comp.len() as int),
        out.len() as int,
    );
    conserve_below(comp, labels, names, comp.len() as int);
}

spec fn partial(comp: Seq<bool>, labels: Seq<i32>, names: Seq<int>, n: int) -> spec_fn(int) -> int {
    |i: int| counting::count_below(in_region(comp, labels, names[i]), n)
}

spec fn hit(comp: Seq<bool>, labels: Seq<i32>, names: Seq<int>, k: int) -> spec_fn(int) -> int {
    |i: int|
        if in_region(comp, labels, names[i])(k) {
            1
        } else {
            0
        }
}

proof fn sum_split(f: spec_fn(int) -> int, g: spec_fn(int) -> int, h: spec_fn(int) -> int, n: int)
    requires
        forall|i: int| 0 <= i < n ==> #[trigger] f(i) == g(i) + h(i),
    ensures
        counting::sum_below(f, n) == counting::sum_below(g, n) + counting::sum_below(h, n),
    decreases n,
{
    if n > 0 {
        sum_split(f, g, h, n - 1);
    }
}

/// A cell is counted once when its label is named, and not at all otherwise.
proof fn hit_once(comp: Seq<bool>, labels: Seq<i32>, names: Seq<int>, k: int, m: int)
    requires
        forall|i: int, j: int| 0 <= i < j < names.len() ==> #[trigger] names[i] != #[trigger] names[j],
        0 <= m <= names.len(),
    ensures
        counting::sum_below(hit(comp, labels, names, k), m) == (if comp[k] && names.take(m).contains(
            labels[k] as int,
        ) {
            1int
        } else {
            0int
        }),
    decreases m,
{
    let l = labels[k] as int;
    if m > 0 {
        hit_once(comp, labels, names, k, m - 1);
        let a = names.take(m - 1);
        let b = names.take(m);
        if a.contains(l) {
            let i = choose|i: int| 0 <= i < a.len() && a[i] == l;
            assert(b[i] == l);
            assert(names[i] != names[m - 1]);
        }
        if names[m - 1] == l {
            assert(b[m - 1] == l);
        }
        if b.contains(l) {
            let i = choose|i: int| 0 <= i < b.len() && b[i] == l;
            if i < m - 1 {
                assert(a[i] == l);
            }
        }
    }
}

proof fn conserve_below(comp: Seq<bool>, labels: Seq<i32>, names: Seq<int>, n: int)
    requires
        labels_ok(comp, labels),
        0 <= n <= comp.len(),
        forall|i: int, j: int| 0 <= i < j < names.len() ==> #[trigger] names[i] != #[trigger] names[j],
        forall|i: int| 0 <= i < names.len() ==> 0 <= #[trigger] names[i],
        forall|l: int|
            0 <= l < comp.len() && #[trigger] region_area(comp, labels, l) > 0 ==> names.contains(l),
    ensures
        counting::sum_below(partial(comp, labels, names, n), names.len() as int)
            == counting::count_below(labelled(comp, labels), n),
    decreases n,
{
    let m = names.len() as int;
    if n == 0 {
        zero_sum(partial(comp, labels, names, 0), m);
    } else {
        conserve_below(comp, labels, names, n - 1);
        let k = n - 1;
        sum_split(
            partial(comp, labels, names, n),
            partial(comp, labels, names, k),
            hit(comp, labels, names, k),
            m,
        );
        hit_once(comp, labels, names, k, m);
        assert(names.take(m) =~= names);
        let l = labels[k] as int;
        assert(-1 <= labels[k] < comp.len());
        if comp[k] && l >= 0 {
            counting::count_positive(in_region(comp, labels, l), comp.len() as int, k);
            assert(region_area(comp, labels, l) > 0);
            assert(names.contains(l));
        } else if comp[k] {
            if names.contains(l) {
                let i = choose|i: int| 0 <= i < names.len() && names[i] == l;
                assert(0 <= names[i]);
            }
        }
    }
}

proof fn zero_sum(f: spec_fn(int) -> int, n: int)
    requires
        forall|i: int| 0 <= i < n ==> #[trigger] f(i) == 0,
    ensures
        counting::sum_below(f, n) == 0,
    decreases n,
{
    if n > 0 {
        zero_sum(f, n - 1);
    }
}

// ---- one outcome --------------------------------------------------------------------

proof fn region_group_unique(comp: Seq<bool>, labels: Seq<i32>, off: Bbox, l: int, a: IconGroup, b: IconGroup)
    requires
        is_region_group(comp, labels, off, l, a),
        is_region_group(comp, labels, off, l, b),
    ensures
        a == b,
{
    let n = comp.len() as int;
    let p = a.bbox;
    let q = b.bbox;
    let k1 = choose|k: int|
        0 <= k < n && #[trigger] in_region(comp, labels, l)(k) && sheet_pixel(off, k).0 == p.x;
    let k2 = choose|k: int|
        0 <= k < n && #[trigger] in_region(comp, labels, l)(k) && sheet_pixel(off, k).0 == p.right() - 1;
    let k3 = choose|k: int|
        0 <= k < n && #[trigger] in_region(comp, labels, l)(k) && sheet_pixel(off, k).1 == p.y;
    let k4 = choose|k: int|
        0 <= k < n && #[trigger] in_region(comp, labels, l)(k) && sheet_pixel(off, k).1 == p.bottom() - 1;
    let j1 = choose|k: int|
        0 <= k < n && #[trigger] in_region(comp, labels, l)(k) && sheet_pixel(off, k).0 == q.x;
    let j2 = choose|k: int|
        0 <= k < n && #[trigger] in_region(comp, labels, l)(k) && sheet_pixel(off, k).0 == q.right() - 1;
    let j3 = choose|k: int|
        0 <= k < n && #[trigger] in_region(comp, labels, l)(k) && sheet_pixel(off, k).1 == q.y;
    let j4 = choose|k: int|
        0 <= k < n && #[trigger] in_region(comp, labels, l)(k) && sheet_pixel(off, k).1 == q.bottom() - 1;
    assert(q.covers(sheet_pixel(off, k1).0, sheet_pixel(off, k1).1));
    assert(q.covers(sheet_pixel(off, k2).0, sheet_pixel(off, k2).1));
    assert(q.covers(sheet_pixel(off, k3).0, sheet_pixel(off, k3).1));
    assert(q.covers(sheet_pixel(off, k4).0, sheet_pixel(off, k4).1));
    assert(p.covers(sheet_pixel(off, j1).0, sheet_pixel(off, j1).1));
    assert(p.covers(sheet_pixel(off, j2).0, sheet_pixel(off, j2).1));
    assert(p.covers(sheet_pixel(off, j3).0, sheet_pixel(off, j3).1));
    assert(p.covers(sheet_pixel(off, j4).0, sheet_pixel(off, j4).1));
    let x = choose|k: int| #[trigger]
        is_first_cell(comp, labels, l, k) && sheet_pixel(off, k) == group::origin_of(a);
    let y = choose|k: int| #[trigger]
        is_first_cell(comp, labels, l, k) && sheet_pixel(off, k) == group::origin_of(b);
    if x < y {
        assert(!in_region(comp, labels, l)(x));
    } else if y < x {
        assert(!in_region(comp, labels, l)(y));
    }
}

proof fn region_again(
    comp: Seq<bool>,
    labels: Seq<i32>,
    off: Bbox,
    n1: Seq<int>,
    a: Seq<IconGroup>,
    n2: Seq<int>,
    b: Seq<IconGroup>,
    i: int,
) -> (j: int)
    requires
        lists_regions(comp, labels, off, n1, a),
        lists_regions(comp, labels, off, n2, b),
        0 <= i < a.len(),
    ensures
        0 <= j < b.len(),
        b[j] == a[i],
{
    let l = n1[i];
    assert(region_area(comp, labels, l) > 0);
    let j = choose|j: int| 0 <= j < n2.len() && n2[j] == l;
    assert(0 <= n2[j]);
    region_group_unique(comp, labels, off, l, a[i], b[j]);
    j
}

proof fn regions_prefix(
    comp: Seq<bool>,
    labels: Seq<i32>,
    off: Bbox,
    n1: Seq<int>,
    a: Seq<IconGroup>,
    n2: Seq<int>,
    b: Seq<IconGroup>,
    n: int,
)
    requires
        lists_regions(comp, labels, off, n1, a),
        lists_regions(comp, labels, off, n2, b),
        0 <= n <= a.len(),
    ensures
        n <= b.len(),
        forall|i: int| 0 <= i < n ==> a[i] == b[i],
    decreases n,
{
    if n > 0 {
        let k = n - 1;
        regions_prefix(comp, labels, off, n1, a, n2, b, k);
        let j = region_again(comp, labels, off, n1, a, n2, b, k);
        if j < k {
            assert(a[j] == b[j]);
            assert(sorting::key_lt(group::group_key(a[j]), group::group_key(a[k])));
        }
        let l = region_again(comp, labels, off, n2, b, n1, a, k);
        if l < k {
            assert(a[l] == b[l]);
            assert(sorting::key_lt(group::group_key(b[l]), group::group_key(b[k])));
        }
        if j > k && l > k {
            assert(sorting::key_lt(group::group_key(b[k]), group::group_key(b[j])));
            assert(sorting::key_lt(group::group_key(a[k]), group::group_key(a[l])));
        }
        assert(a[k] == b[k]);
    }
}

/// A label map has one list of regions.
pub proof fn regions_are_unique(
    comp: Seq<bool>,
    labels: Seq<i32>,
    off: Bbox,
    a: Seq<IconGroup>,
    b: Seq<IconGroup>,
)
    requires
        is_region_list(comp, labels, off, a),
        is_region_list(comp, labels, off, b),
    ensures
        a == b,
{
    let n1 = choose|names: Seq<int>| #[trigger] lists_regions(comp, labels, off, names, a);
    let n2 = choose|names: Seq<int>| #[trigger] lists_regions(comp, labels, off, names, b);
    regions_prefix(comp, labels, off, n1, a, n2, b, a.len() as int);
    regions_prefix(comp, labels, off, n2, b, n1, a, b.len() as int);
    assert(a =~= b);
}

// ---- what a region is ---------------------------------------------------------------

/// A region is a sliver exactly where its cells, times the number of regions, come
/// to less than the given fraction of all cells.
pub proof fn slivers_are_far_below_the_mean(comp: Seq<bool>, labels: Seq<i32>, frac: int, l: int)
    ensures
        is_sliver(comp, labels, frac, l) == ({
            let n = comp.len() as int;
            let own = counting::count_below(|k: int| comp[k] && labels[k] == l, n);
            let all = counting::count_below(|k: int| comp[k], n);
            own > 0 && 1000 * (own * region_count(comp, labels)) < frac * all
        }),
{
    let n = comp.len() as int;
    let own = counting::count_below(|k: int| comp[k] && labels[k] == l, n);
    counting::count_ext(|k: int| comp[k] && labels[k] == l, in_region(comp, labels, l), n);
    counting::count_ext(|k: int| comp[k], members(comp), n);
    let c = region_count(comp, labels);
    assert(own * 1000 * c == 1000 * (own * c)) by (nonlinear_arith);
}

/// The regions counted are the labels with a cell.
pub proof fn regions_are_labels_in_use(comp: Seq<bool>, labels: Seq<i32>)
    ensures
        region_count(comp, labels) == counting::count_below(
            |l: int| exists|k: int| 0 <= k < comp.len() && comp[k] && #[trigger] labels[k] == l,
            comp.len() as int,
        ),
{
    let n = comp.len() as int;
    let f = |l: int| exists|k: int| 0 <= k < comp.len() && comp[k] && #[trigger] labels[k] == l;
    assert forall|l: int| 0 <= l < n implies #[trigger] f(l) == is_live(comp, labels)(l) by {
        let g = in_region(comp, labels, l);
        if f(l) {
            let k = choose|k: int| 0 <= k < comp.len() && comp[k] && #[trigger] labels[k] == l;
            counting::count_positive(g, n, k);
        }
        if region_area(comp, labels, l) > 0 {
            counting::count_some(g, n);
            let k = choose|k: int| 0 <= k < n && #[trigger] g(k);
            assert(labels[k] == l);
        }
    }
    counting::count_ext(f, is_live(comp, labels), n);
}

/// A listed region has the cells with its label: as many as its area, its box the
/// least round them, and its origin the first of them row by row. The label is
/// returned.
pub proof fn region_holds_the_cells_of_its_label(
    comp: Seq<bool>,
    labels: Seq<i32>,
    off: Bbox,
    out: Seq<IconGroup>,
    i: int,
) -> (l: int)
    requires
        is_region_list(comp, labels, off, out),
        off.w > 0,
        comp.len() == off.w * off.h,
        0 <= i < out.len(),
    ensures
        out[i].area == counting::count_below(|k: int| comp[k] && labels[k] == l, comp.len() as int),
        out[i].area > 0,
        forall|k: int|
            0 <= k < comp.len() && comp[k] && #[trigger] labels[k] == l ==> out[i].bbox.x <= off.x + k % (off.w as int)
                < out[i].bbox.x + out[i].bbox.w && out[i].bbox.y <= off.y + k / (off.w as int) < out[i].bbox.y
                + out[i].bbox.h,
        exists|k: int|
            0 <= k < comp.len() && comp[k] && #[trigger] labels[k] == l && off.x + k % (off.w as int)
                == out[i].bbox.x,
        exists|k: int|
            0 <= k < comp.len() && comp[k] && #[trigger] labels[k] == l && off.x + k % (off.w as int)
                == out[i].bbox.x + out[i].bbox.w - 1,
        exists|k: int|
            0 <= k < comp.len() && comp[k] && #[trigger] labels[k] == l && off.y + k / (off.w as int)
                == out[i].bbox.y,
        exists|k: int|
            0 <= k < comp.len() && comp[k] && #[trigger] labels[k] == l && off.y + k / (off.w as int)
                == out[i].bbox.y + out[i].bbox.h - 1,
        exists|k: int|
            0 <= k < comp.len() && comp[k] && #[trigger] labels[k] == l && out[i].origin.0 == off.x + k % (
            off.w as int) && out[i].origin.1 == off.y + k / (off.w as int) && forall|j: int|
                0 <= j < k && comp[j] ==> #[trigger] labels[j] != l,
{
    let n = comp.len() as int;
    let names = choose|names: Seq<int>| #[trigger] lists_regions(comp, labels, off, names, out);
    let l = names[i];
    let g = out[i];
    let f = in_region(comp, labels, l);
    assert(is_region_group(comp, labels, off, l, g));
    counting::count_ext(|k: int| comp[k] && labels[k] == l, f, n);
    assert forall|k: int| 0 <= k < comp.len() && comp[k] && #[trigger] labels[k] == l implies g.bbox.x <= off.x + k % (
    off.w as int) < g.bbox.x + g.bbox.w && g.bbox.y <= off.y + k / (off.w as int) < g.bbox.y + g.bbox.h by {
        assert(f(k));
    }
    let k0 = choose|k: int| 0 <= k < n && #[trigger] f(k) && sheet_pixel(off, k).0 == g.bbox.x;
    assert(labels[k0] == l);
    let k1 = choose|k: int| 0 <= k < n && #[trigger] f(k) && sheet_pixel(off, k).0 == g.bbox.right() - 1;
    assert(labels[k1] == l);
    let k2 = choose|k: int| 0 <= k < n && #[trigger] f(k) && sheet_pixel(off, k).1 == g.bbox.y;
    assert(labels[k2] == l);
    let k3 = choose|k: int| 0 <= k < n && #[trigger] f(k) && sheet_pixel(off, k).1 == g.bbox.bottom() - 1;
    assert(labels[k3] == l);
    let k = choose|k: int| #[trigger] is_first_cell(comp, labels, l, k) && sheet_pixel(off, k) == group::origin_of(g);
    assert forall|j: int| 0 <= j < k && comp[j] implies #[trigger] labels[j] != l by {
        assert(!f(j));
    }
    assert(labels[k] == l);
    l
}

/// Cell `j` is one of region `other` next to cell `k`, corners included, on a grid of
/// `cw` columns.
pub open spec fn lies_around(labels: Seq<i32>, cw: int, other: int, k: int) -> spec_fn(int) -> bool {
    |j: int| labels[j] == other && j != k && -1 <= j % cw - k % cw <= 1 && -1 <= j / cw - k / cw <= 1
}

/// How many cells of region `other` lie around cell `k` of region `lab`.
pub open spec fn cells_around(comp: Seq<bool>, cw: int, labels: Seq<i32>, lab: int, other: int) -> spec_fn(
    int,
) -> int {
    |k: int|
        if comp[k] && labels[k] == lab {
            counting::count_below(lies_around(labels, cw, other, k), comp.len() as int)
        } else {
            0
        }
}

/// How often cells of a region touch cells of another.
pub open spec fn touches(comp: Seq<bool>, cw: int, labels: Seq<i32>, lab: int, other: int) -> int {
    counting::sum_below(cells_around(comp, cw, labels, lab, other), comp.len() as int)
}

proof fn contacts_are_touches(comp: Seq<bool>, cw: int, ch: int, labels: Seq<i32>, lab: int, other: int)
    requires
        cw > 0,
        comp.len() == cw * ch,
    ensures
        contacts(comp, cw, labels, lab, other) == touches(comp, cw, labels, lab, other),
{
    let n = comp.len() as int;
    let f = cells_around(comp, cw, labels, lab, other);
    let g = cell_contacts(comp, cw, labels, lab, other);
    assert forall|k: int| 0 <= k < n implies #[trigger] g(k) == f(k) by {
        let p = lies_around(labels, cw, other, k);
        let q = neighbour_with(cw, labels, k, other);
        assert forall|j: int| 0 <= j < n implies #[trigger] q(j) == p(j) by {
            mask::lemma_pixel_split(cw, ch, k);
            mask::lemma_pixel_split(cw, ch, j);
            flood::neighbours_differ_by_one(cw, true, k % cw, k / cw, j % cw, j / cw);
        }
        counting::count_ext(q, p, n);
    }
    counting::sum_ext(g, f, n);
}

/// A sliver goes to the region that it touches most, of equals the one with the
/// least label, and stays where it touches none; no other cell changes.
pub proof fn slivers_join_what_they_touch_most(
    comp: Seq<bool>,
    cw: int,
    ch: int,
    labels: Seq<i32>,
    lab: int,
    o: int,
    k: int,
)
    requires
        labels_ok(comp, labels),
        cw > 0,
        comp.len() == cw * ch,
        comp.len() <= i32::MAX,
        0 <= o < comp.len(),
        o != lab,
        0 <= k < comp.len(),
    ensures
        ({
            let r = absorbed(comp, cw, labels, lab);
            &&& r.len() == labels.len()
            &&& !(comp[k] && labels[k] == lab) ==> r[k] == labels[k]
            &&& comp[k] && labels[k] == lab && r[k] != lab ==> {
                let t = r[k] as int;
                &&& 0 <= t < comp.len()
                &&& touches(comp, cw, labels, lab, t) > 0
                &&& touches(comp, cw, labels, lab, o) < touches(comp, cw, labels, lab, t) || (touches(
                    comp,
                    cw,
                    labels,
                    lab,
                    o,
                ) == touches(comp, cw, labels, lab, t) && t <= o)
            }
        }),
{
    contacts_are_touches(comp, cw, ch, labels, lab, o);
    if has_target(comp, cw, labels, lab) {
        let t = choose|t: int| #[trigger] is_target(comp, cw, labels, lab, t);
        contacts_are_touches(comp, cw, ch, labels, lab, t);
    }
}

} // verus!
