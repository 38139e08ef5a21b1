//! Seeds and region labels of one component: non-maximum suppression,
//! marker-controlled watershed and the profile cut.
//!
//! Everything is ordered by integers: distances are thousandths of a pixel and
//! every tie breaks on the scan index, so a labelling is a function of its
//! input alone.
use vstd::prelude::*;
use crate::connect;
use crate::counting;
use crate::flood;
use crate::mask;
use crate::sorting;
use crate::sorting::SortKey;

verus! {

// ---- seeds ------------------------------------------------------------------

/// Cell `a` is a stronger peak than cell `b`: farther from background, then
/// earlier in scan order.
pub open spec fn stronger(dt: Seq<i32>, a: int, b: int) -> bool {
    dt[a] > dt[b] || (dt[a] == dt[b] && a < b)
}

/// `cand` lists the component cells with at least `min_dt`, strongest first.
pub open spec fn is_peak_list(comp: Seq<bool>, dt: Seq<i32>, min_dt: int, cand: Seq<usize>) -> bool {
    &&& forall|i: int|
        0 <= i < cand.len() ==> (#[trigger] cand[i]) < comp.len() && comp[cand[i] as int]
            && dt[cand[i] as int] >= min_dt
    &&& forall|k: int|
        0 <= k < comp.len() && comp[k] && dt[k] >= min_dt ==> #[trigger] cand.contains(k as usize)
    &&& forall|i: int, j: int|
        0 <= i < j < cand.len() ==> stronger(dt, #[trigger] cand[i] as int, #[trigger] cand[j] as int)
}

/// The squared distance between two cells.
pub open spec fn cell_dist2(cw: int, a: int, b: int) -> int {
    (a % cw - b % cw) * (a % cw - b % cw) + (a / cw - b / cw) * (a / cw - b / cw)
}

/// Cell `c` is at least the radius away from every seed; the squared radius is
/// `r2` four-millionths of a pixel squared.
pub open spec fn is_clear(cw: int, r2: int, seeds: Seq<u32>, c: int) -> bool {
    forall|i: int|
        0 <= i < seeds.len() ==> cell_dist2(cw, c, #[trigger] seeds[i] as int) * 4000000 >= r2
}

/// The seeds chosen from the first `n` peaks: each peak that is clear of the
/// seeds before it, until `cap` are taken.
pub open spec fn greedy_seeds(cw: int, r2: int, cap: int, cand: Seq<usize>, n: int) -> Seq<u32>
    decreases n,
{
    if n <= 0 {
        Seq::empty()
    } else {
        let prev = greedy_seeds(cw, r2, cap, cand, n - 1);
        if prev.len() < cap && is_clear(cw, r2, prev, cand[n - 1] as int) {
            prev.push(cand[n - 1] as u32)
        } else {
            prev
        }
    }
}

/// `seeds` are the suppressed peaks of the component.
pub open spec fn is_seed_list(
    comp: Seq<bool>,
    dt: Seq<i32>,
    cw: int,
    r2: int,
    min_dt: int,
    cap: int,
    seeds: Seq<u32>,
) -> bool {
    exists|cand: Seq<usize>| #[trigger]
        is_peak_list(comp, dt, min_dt, cand) && seeds == greedy_seeds(
            cw,
            r2,
            cap,
            cand,
            cand.len() as int,
        )
}

fn dist2(cw: usize, a: usize, b: usize) -> (r: u128)
    requires
        0 < cw,
        a < 0x8000_0000,
        b < 0x8000_0000,
    ensures
        r == cell_dist2(cw as int, a as int, b as int),
        r <= 0x8000_0000 * 0x1_0000_0000,
{
    let (px, py): (usize, usize) = (a % cw, a / cw);
    let (qx, qy): (usize, usize) = (b % cw, b / cw);
    proof {
        assert(px <= a && py <= a) by (nonlinear_arith)
            requires
                px == a % cw,
                py == a / cw,
                0 < cw,
        ;
        assert(qx <= b && qy <= b) by (nonlinear_arith)
            requires
                qx == b % cw,
                qy == b / cw,
                0 < cw,
        ;
    }
    let dx: u128 = if px > qx {
        (px - qx) as u128
    } else {
        (qx - px) as u128
    };
    let dy: u128 = if py > qy {
        (py - qy) as u128
    } else {
        (qy - py) as u128
    };
    assert(dx * dx == (px - qx) * (px - qx) && dy * dy == (py - qy) * (py - qy)) by (
    nonlinear_arith)
        requires
            dx == px - qx || dx == qx - px,
            dy == py - qy || dy == qy - py,
    ;
    assert(dx * dx <= 0x8000_0000 * 0x8000_0000 && dy * dy <= 0x8000_0000 * 0x8000_0000) by (
    nonlinear_arith)
        requires
            0 <= dx <= 0x8000_0000,
            0 <= dy <= 0x8000_0000,
    ;
    dx * dx + dy * dy
}

/// Greedy non-maximum suppression: strongest peak first, each accepted only
/// when it is farther than the radius from every accepted seed.
pub fn nms_seeds(comp: &Vec<bool>, dtq: &Vec<i32>, cw: usize, r2: u128, min_dtq: i64, max_seeds: u32) -> (r: Vec<u32>)
    requires
        0 < cw,
        comp@.len() <= mask::MAX_PIXELS,
        dtq@.len() == comp@.len(),
        forall|k: int| 0 <= k < dtq@.len() ==> 0 <= #[trigger] dtq@[k],
    ensures
        is_seed_list(comp@, dtq@, cw as int, r2 as int, min_dtq as int, max_seeds as int, r@),
{
    // Peaks in scan order, then strongest first.
    let n: usize = comp.len();
    let mut peaks: Vec<usize> = Vec::new();
    let mut keys: Vec<SortKey> = Vec::new();
    let mut i: usize = 0;
    while i < n
        invariant
            i <= n,
            n == comp@.len(),
            dtq@.len() == n,
            forall|k: int| 0 <= k < n ==> 0 <= #[trigger] dtq@[k],
            keys@.len() == peaks@.len(),
            forall|k: int|
                0 <= k < peaks@.len() ==> (#[trigger] peaks@[k]) < i && comp@[peaks@[k] as int]
                    && dtq@[peaks@[k] as int] >= min_dtq,
            forall|k: int|
                0 <= k < peaks@.len() ==> #[trigger] keys@[k] == peak_key(dtq@, peaks@[k]),
            forall|k: int|
                0 <= k < i && comp@[k] && dtq@[k] >= min_dtq ==> #[trigger] peaks@.contains(
                    k as usize,
                ),
            forall|k: int, l: int|
                0 <= k < l < peaks@.len() ==> #[trigger] peaks@[k] < #[trigger] peaks@[l],
        decreases n - i,
    {
        let ghost peaks0 = peaks@;
        if comp[i] && dtq[i] as i64 >= min_dtq {
            peaks.push(i);
            keys.push(((i32::MAX - dtq[i]) as u64, 0, 0, 0));
        }
        proof {
            assert forall|k: int|
                0 <= k < i + 1 && comp@[k] && dtq@[k] >= min_dtq implies #[trigger] peaks@.contains(
                k as usize,
            ) by {
                if k < i {
                    assert(peaks0.contains(k as usize));
                    let j = choose|j: int| 0 <= j < peaks0.len() && peaks0[j] == k as usize;
                    assert(peaks@[j] == k as usize);
                } else {
                    assert(peaks@[peaks0.len() as int] == k as usize);
                }
            }
        }
        i = i + 1;
    }
    let order = sorting::sort_order(&keys);
    let mut cand: Vec<usize> = Vec::new();
    let mut i: usize = 0;
    while i < order.len()
        invariant
            i <= order@.len(),
            keys@.len() == peaks@.len(),
            sorting::is_order(keys@, order@, 0, keys@.len() as int),
            cand@.len() == i,
            forall|k: int| 0 <= k < i ==> #[trigger] cand@[k] == peaks@[order@[k] as int],
        decreases order@.len() - i,
    {
        cand.push(peaks[order[i]]);
        i = i + 1;
    }
    proof {
        assert forall|a: int, b: int| 0 <= a < b < cand@.len() implies stronger(
            dtq@,
            #[trigger] cand@[a] as int,
            #[trigger] cand@[b] as int,
        ) by {
            assert(sorting::pos_lt(keys@, order@[a] as int, order@[b] as int));
            assert(keys@[order@[a] as int] == peak_key(dtq@, peaks@[order@[a] as int]));
            assert(keys@[order@[b] as int] == peak_key(dtq@, peaks@[order@[b] as int]));
        }
        assert forall|k: int|
            0 <= k < comp@.len() && comp@[k] && dtq@[k] >= min_dtq implies #[trigger] cand@.contains(
            k as usize,
        ) by {
            assert(peaks@.contains(k as usize));
            let j = choose|j: int| 0 <= j < peaks@.len() && peaks@[j] == k as usize;
            assert(order@.contains(j as usize));
            let l = choose|l: int| 0 <= l < order@.len() && order@[l] == j as usize;
            assert(cand@[l] == k as usize);
        }
        assert(is_peak_list(comp@, dtq@, min_dtq as int, cand@));
    }
    let mut seeds: Vec<u32> = Vec::new();
    let mut i: usize = 0;
    while i < cand.len()
        invariant
            i <= cand@.len(),
            0 < cw,
            n == comp@.len(),
            n <= mask::MAX_PIXELS,
            is_peak_list(comp@, dtq@, min_dtq as int, cand@),
            seeds@ == greedy_seeds(cw as int, r2 as int, max_seeds as int, cand@, i as int),
            forall|k: int| 0 <= k < seeds@.len() ==> (#[trigger] seeds@[k]) < n,
        decreases cand@.len() - i,
    {
        let c: usize = cand[i];
        if (seeds.len() as u64) < max_seeds as u64 {
            let mut clear: bool = true;
            let mut j: usize = 0;
            while j < seeds.len()
                invariant
                    j <= seeds@.len(),
                    0 < cw,
                    c < n,
                    n <= mask::MAX_PIXELS,
                    forall|k: int| 0 <= k < seeds@.len() ==> (#[trigger] seeds@[k]) < n,
                    clear <==> forall|k: int|
                        0 <= k < j ==> cell_dist2(cw as int, c as int, #[trigger] seeds@[k] as int)
                            * 4000000 >= r2,
                decreases seeds@.len() - j,
            {
                let d: u128 = dist2(cw, c, seeds[j] as usize);
                if d * 4_000_000 < r2 {
                    clear = false;
                }
                j = j + 1;
            }
            if clear {
                seeds.push(c as u32);
            }
        }
        i = i + 1;
    }
    seeds
}

spec fn peak_key(dt: Seq<i32>, k: usize) -> SortKey {
    ((i32::MAX - dt[k as int]) as u64, 0u64, 0u64, 0u64)
}

/// Seeds are distinct cells of the component.
pub proof fn seeds_are_members(
    comp: Seq<bool>,
    dt: Seq<i32>,
    cw: int,
    r2: int,
    min_dt: int,
    cap: int,
    seeds: Seq<u32>,
)
    requires
        is_seed_list(comp, dt, cw, r2, min_dt, cap, seeds),
        comp.len() <= mask::MAX_PIXELS,
        r2 > 0,
        cap >= 0,
    ensures
        seeds.len() <= cap,
        forall|i: int|
            0 <= i < seeds.len() ==> (#[trigger] seeds[i]) < comp.len() && comp[seeds[i] as int],
        forall|i: int, j: int| 0 <= i < j < seeds.len() ==> #[trigger] seeds[i] != #[trigger] seeds[j],
{
    let cand = choose|cand: Seq<usize>| #[trigger]
        is_peak_list(comp, dt, min_dt, cand) && seeds == greedy_seeds(
            cw,
            r2,
            cap,
            cand,
            cand.len() as int,
        );
    greedy_members(comp, dt, cw, r2, min_dt, cap, cand, cand.len() as int);
}

proof fn greedy_members(
    comp: Seq<bool>,
    dt: Seq<i32>,
    cw: int,
    r2: int,
    min_dt: int,
    cap: int,
    cand: Seq<usize>,
    n: int,
)
    requires
        is_peak_list(comp, dt, min_dt, cand),
        comp.len() <= mask::MAX_PIXELS,
        r2 > 0,
        cap >= 0,
        0 <= n <= cand.len(),
    ensures
        ({
            let s = greedy_seeds(cw, r2, cap, cand, n);
            &&& s.len() <= cap
            &&& forall|i: int| 0 <= i < s.len() ==> (#[trigger] s[i]) < comp.len() && comp[s[i] as int]
            &&& forall|i: int, j: int| 0 <= i < j < s.len() ==> #[trigger] s[i] != #[trigger] s[j]
        }),
    decreases n,
{
    if n > 0 {
        greedy_members(comp, dt, cw, r2, min_dt, cap, cand, n - 1);
        let prev = greedy_seeds(cw, r2, cap, cand, n - 1);
        let c = cand[n - 1] as int;
        if prev.len() < cap && is_clear(cw, r2, prev, c) {
            assert forall|i: int| 0 <= i < prev.len() implies #[trigger] prev[i] != c as u32 by {
                if prev[i] == c as u32 {
                    assert(cell_dist2(cw, c, c) == 0) by (nonlinear_arith);
                }
            }
        }
    }
}

// ---- watershed ----------------------------------------------------------------

/// Cell `c` has been expanded among the first `n` expansions.
pub open spec fn is_popped(pops: Seq<usize>, n: int, c: int) -> bool {
    exists|j: int| 0 <= j < n && #[trigger] pops[j] == c
}

/// Component cell `c` touches one of the first `n` expanded cells.
pub open spec fn is_touched(comp: Seq<bool>, cw: int, pops: Seq<usize>, n: int, c: int) -> bool {
    comp[c] && exists|j: int| 0 <= j < n && flood::adj(cw, true, #[trigger] pops[j] as int, c)
}

/// Cell `c` is a seed.
pub open spec fn is_seed(seeds: Seq<u32>, c: int) -> bool {
    exists|i: int| 0 <= i < seeds.len() && #[trigger] seeds[i] == c
}

/// Cell `c` waits for its expansion after `n` expansions.
pub open spec fn is_pending(
    comp: Seq<bool>,
    cw: int,
    seeds: Seq<u32>,
    pops: Seq<usize>,
    n: int,
    c: int,
) -> bool {
    &&& 0 <= c < comp.len()
    &&& is_seed(seeds, c) || is_touched(comp, cw, pops, n, c)
    &&& !is_popped(pops, n, c)
}

/// `pops` is the order in which the flood expands: always the strongest of the
/// waiting cells, until none waits.
pub open spec fn is_flooding(
    comp: Seq<bool>,
    dt: Seq<i32>,
    cw: int,
    seeds: Seq<u32>,
    pops: Seq<usize>,
) -> bool {
    &&& forall|n: int|
        0 <= n < pops.len() ==> is_pending(comp, cw, seeds, pops, n, #[trigger] pops[n] as int)
            && forall|c: int| #[trigger]
            is_pending(comp, cw, seeds, pops, n, c) && c != pops[n] ==> stronger(
                dt,
                pops[n] as int,
                c,
            )
    &&& forall|c: int| !#[trigger] is_pending(comp, cw, seeds, pops, pops.len() as int, c)
}

/// Expansion `j` is the first that touches cell `c`.
pub open spec fn first_touch(cw: int, pops: Seq<usize>, j: int, c: int) -> bool {
    &&& flood::adj(cw, true, pops[j] as int, c)
    &&& forall|k: int| 0 <= k < j ==> !flood::adj(cw, true, #[trigger] pops[k] as int, c)
}

/// The label of cell `c` after `n` expansions: its seed number, or the label of
/// the first expanded cell that touches it, or `-1`.
pub open spec fn label_is(
    comp: Seq<bool>,
    cw: int,
    seeds: Seq<u32>,
    pops: Seq<usize>,
    n: int,
    labels: Seq<i32>,
    c: int,
) -> bool {
    if is_seed(seeds, c) {
        exists|i: int| 0 <= i < seeds.len() && #[trigger] seeds[i] == c && labels[c] == i
    } else if is_touched(comp, cw, pops, n, c) {
        exists|j: int|
            0 <= j < n && #[trigger] first_touch(cw, pops, j, c) && labels[c]
                == labels[pops[j] as int]
    } else {
        labels[c] == -1
    }
}

/// `labels` is the watershed labelling of the component from `seeds`.
pub open spec fn is_watershed(
    comp: Seq<bool>,
    dt: Seq<i32>,
    cw: int,
    seeds: Seq<u32>,
    labels: Seq<i32>,
) -> bool {
    &&& labels.len() == comp.len()
    &&& exists|pops: Seq<usize>| #[trigger]
        is_flooding(comp, dt, cw, seeds, pops) && forall|c: int|
            0 <= c < comp.len() ==> #[trigger] label_is(
                comp,
                cw,
                seeds,
                pops,
                pops.len() as int,
                labels,
                c,
            )
}

spec fn unlabelled(labels: Seq<i32>) -> spec_fn(int) -> bool {
    |k: int| labels[k] == -1
}

/// The state of the flood after `pops` have been expanded.
spec fn flooding(
    comp: Seq<bool>,
    dt: Seq<i32>,
    cw: int,
    seeds: Seq<u32>,
    pops: Seq<usize>,
    labels: Seq<i32>,
    queue: Seq<usize>,
) -> bool {
    &&& labels.len() == comp.len()
    &&& dt.len() == comp.len()
    &&& forall|n: int|
        0 <= n < pops.len() ==> is_pending(comp, cw, seeds, pops, n, #[trigger] pops[n] as int)
            && forall|c: int| #[trigger]
            is_pending(comp, cw, seeds, pops, n, c) && c != pops[n] ==> stronger(
                dt,
                pops[n] as int,
                c,
            )
    &&& forall|c: int|
        0 <= c < comp.len() ==> #[trigger] label_is(
            comp,
            cw,
            seeds,
            pops,
            pops.len() as int,
            labels,
            c,
        )
    &&& forall|c: int|
        0 <= c < comp.len() ==> (-1 <= #[trigger] labels[c] < seeds.len()) && (labels[c] != -1
            <==> is_seed(seeds, c) || is_touched(comp, cw, pops, pops.len() as int, c))
    &&& forall|i: int|
        0 <= i < queue.len() ==> is_pending(
            comp,
            cw,
            seeds,
            pops,
            pops.len() as int,
            #[trigger] queue[i] as int,
        )
    &&& forall|c: int| #[trigger]
        is_pending(comp, cw, seeds, pops, pops.len() as int, c) ==> queue.contains(c as usize)
    &&& forall|i: int, j: int|
        0 <= i < j < queue.len() ==> stronger(dt, #[trigger] queue[j] as int, #[trigger] queue[i] as int)
}

/// Inserts cell `c` at its place in a queue that is sorted weakest first.
fn enqueue(dt: &Vec<i32>, queue: &mut Vec<usize>, c: usize)
    requires
        c < dt@.len(),
        forall|i: int|
            0 <= i < old(queue)@.len() ==> (#[trigger] old(queue)@[i]) < dt@.len() && old(
                queue,
            )@[i] != c,
        forall|i: int, j: int|
            0 <= i < j < old(queue)@.len() ==> stronger(
                dt@,
                #[trigger] old(queue)@[j] as int,
                #[trigger] old(queue)@[i] as int,
            ),
        old(queue)@.len() < usize::MAX,
    ensures
        exists|p: int|
            0 <= p <= old(queue)@.len() && final(queue)@ == #[trigger] old(queue)@.insert(p, c),
        forall|i: int, j: int|
            0 <= i < j < final(queue)@.len() ==> stronger(
                dt@,
                #[trigger] final(queue)@[j] as int,
                #[trigger] final(queue)@[i] as int,
            ),
{
    let mut p: usize = queue.len();
    let ghost q0 = queue@;
    while p > 0 && (dt[queue[p - 1]] > dt[c] || (dt[queue[p - 1]] == dt[c] && queue[p - 1] < c))
        invariant
            p <= queue@.len(),
            queue@ == q0,
            c < dt@.len(),
            forall|i: int| 0 <= i < q0.len() ==> (#[trigger] q0[i]) < dt@.len(),
            forall|i: int| p <= i < q0.len() ==> stronger(dt@, #[trigger] q0[i] as int, c as int),
        decreases p,
    {
        p = p - 1;
    }
    queue.insert(p, c);
    proof {
        assert(queue@ == q0.insert(p as int, c));
        assert forall|i: int| 0 <= i < p implies stronger(dt@, c as int, #[trigger] q0[i] as int) by {
            if i < p - 1 {
                assert(stronger(dt@, q0[p - 1] as int, q0[i] as int));
            }
        }
        assert forall|i: int, j: int| 0 <= i < j < queue@.len() implies stronger(
            dt@,
            #[trigger] queue@[j] as int,
            #[trigger] queue@[i] as int,
        ) by {
            if i < p && j > p {
                assert(stronger(dt@, q0[j - 1] as int, q0[i] as int));
            } else if j < p {
                assert(stronger(dt@, q0[j] as int, q0[i] as int));
            } else if i > p {
                assert(stronger(dt@, q0[j - 1] as int, q0[i - 1] as int));
            }
        }
    }
}

proof fn insert_contains(s: Seq<usize>, p: int, c: usize, x: usize)
    requires
        0 <= p <= s.len(),
    ensures
        s.insert(p, c).contains(x) <==> s.contains(x) || x == c,
{
    let t = s.insert(p, c);
    if s.contains(x) {
        let i = choose|i: int| 0 <= i < s.len() && s[i] == x;
        if i < p {
            assert(t[i] == x);
        } else {
            assert(t[i + 1] == x);
        }
    }
    if x == c {
        assert(t[p] == c);
    }
    if t.contains(x) {
        let i = choose|i: int| 0 <= i < t.len() && t[i] == x;
        if i < p {
            assert(s[i] == x);
        } else if i > p {
            assert(s[i - 1] == x);
        }
    }
}

/// Labels every cell of the component by priority flooding from the seeds:
/// always the waiting cell with the largest distance, ties to the lowest scan
/// index.
pub fn watershed(comp: &Vec<bool>, dtq: &Vec<i32>, cw: usize, ch: usize, seeds: &Vec<u32>) -> (r: Vec<i32>)
    requires
        0 < cw,
        comp@.len() == cw * ch,
        comp@.len() <= mask::MAX_PIXELS,
        dtq@.len() == comp@.len(),
        seeds@.len() <= i32::MAX,
        forall|i: int|
            0 <= i < seeds@.len() ==> (#[trigger] seeds@[i]) < comp@.len()
                && comp@[seeds@[i] as int],
        forall|i: int, j: int|
            0 <= i < j < seeds@.len() ==> #[trigger] seeds@[i] != #[trigger] seeds@[j],
    ensures
        is_watershed(comp@, dtq@, cw as int, seeds@, r@),
        forall|k: int| 0 <= k < r@.len() ==> -1 <= #[trigger] r@[k] < seeds@.len(),
{
    let n: usize = comp.len();
    let mut labels: Vec<i32> = Vec::new();
    let mut i: usize = 0;
    while i < n
        invariant
            i <= n,
            labels@.len() == i,
            forall|k: int| 0 <= k < i ==> #[trigger] labels@[k] == -1,
        decreases n - i,
    {
        labels.push(-1);
        i = i + 1;
    }
    let ghost c = comp@;
    let ghost w = cw as int;
    let ghost sd = seeds@;
    let ghost dt = dtq@;
    let mut queue: Vec<usize> = Vec::new();
    let mut i: usize = 0;
    while i < seeds.len()
        invariant
            i <= seeds@.len(),
            n == c.len(),
            n <= mask::MAX_PIXELS,
            c == comp@,
            sd == seeds@,
            dt == dtq@,
            dt.len() == n,
            sd.len() <= i32::MAX,
            labels@.len() == n,
            forall|k: int| 0 <= k < sd.len() ==> (#[trigger] sd[k]) < n && c[sd[k] as int],
            forall|k: int, l: int| 0 <= k < l < sd.len() ==> #[trigger] sd[k] != #[trigger] sd[l],
            forall|k: int| 0 <= k < i ==> labels@[#[trigger] sd[k] as int] == k,
            forall|k: int| 0 <= k < n && #[trigger] labels@[k] != -1 ==> is_seed(sd.take(i as int), k),
            queue@.len() == i,
            forall|k: int|
                0 <= k < queue@.len() ==> (#[trigger] queue@[k]) < n && is_seed(
                    sd.take(i as int),
                    queue@[k] as int,
                ),
            forall|k: int| 0 <= k < i ==> queue@.contains(#[trigger] sd[k] as usize),
            forall|a: int, b: int|
                0 <= a < b < queue@.len() ==> stronger(
                    dt,
                    #[trigger] queue@[b] as int,
                    #[trigger] queue@[a] as int,
                ),
        decreases seeds@.len() - i,
    {
        let s: usize = seeds[i] as usize;
        let ghost q0 = queue@;
        let ghost labels0 = labels@;
        proof {
            assert forall|k: int| 0 <= k < q0.len() implies #[trigger] q0[k] != s by {
                if q0[k] == s {
                    let t = sd.take(i as int);
                    let j = choose|j: int| 0 <= j < t.len() && #[trigger] t[j] == q0[k] as int;
                    assert(sd[j] == sd[i as int]);
                }
            }
        }
        labels.set(s, i as i32);
        enqueue(dtq, &mut queue, s);
        proof {
            let p = choose|p: int| 0 <= p <= q0.len() && queue@ == #[trigger] q0.insert(p, s);
            let t0 = sd.take(i as int);
            let t1 = sd.take(i + 1);
            assert forall|x: int| is_seed(t0, x) implies #[trigger] is_seed(t1, x) by {
                let j = choose|j: int| 0 <= j < t0.len() && #[trigger] t0[j] == x;
                assert(t1[j] == x);
            }
            assert(t1[i as int] == s);
            assert(is_seed(t1, s as int));
            assert forall|k: int| 0 <= k < queue@.len() implies (#[trigger] queue@[k]) < n
                && is_seed(t1, queue@[k] as int) by {
                assert(queue@.contains(queue@[k]));
                insert_contains(q0, p, s, queue@[k]);
                if queue@[k] != s {
                    let l = choose|l: int| 0 <= l < q0.len() && q0[l] == queue@[k];
                    assert(is_seed(t0, q0[l] as int));
                }
            }
            assert forall|k: int| 0 <= k < i + 1 implies queue@.contains(
                #[trigger] sd[k] as usize,
            ) by {
                insert_contains(q0, p, s, sd[k] as usize);
            }
        }
        i = i + 1;
    }
    let ghost mut pops: Seq<usize> = Seq::empty();
    proof {
        assert(sd.take(sd.len() as int) =~= sd);
        assert forall|k: int| 0 <= k < n implies #[trigger] label_is(c, w, sd, pops, 0, labels@, k)
            && (-1 <= labels@[k] < sd.len()) && (labels@[k] != -1 <==> is_seed(sd, k)
            || is_touched(c, w, pops, 0, k)) by {
            if is_seed(sd, k) {
                let j = choose|j: int| 0 <= j < sd.len() && #[trigger] sd[j] == k;
                assert(labels@[sd[j] as int] == j);
            }
        }
        assert forall|k: int| #[trigger] is_pending(c, w, sd, pops, 0, k) implies queue@.contains(
            k as usize,
        ) by {
            let j = choose|j: int| 0 <= j < sd.len() && #[trigger] sd[j] == k;
            assert(queue@.contains(sd[j] as usize));
        }
        assert(flooding(c, dt, w, sd, pops, labels@, queue@));
        queue_small(dt, queue@, labels@, n as int);
    }
    while queue.len() > 0
        invariant
            n == c.len(),
            n <= mask::MAX_PIXELS,
            c == comp@,
            sd == seeds@,
            dt == dtq@,
            w == cw,
            0 < cw,
            c.len() == cw * ch,
            sd.len() <= i32::MAX,
            flooding(c, dt, w, sd, pops, labels@, queue@),
            queue@.len() <= n,
        decreases counting::count_below(unlabelled(labels@), n as int) + queue@.len(),
    {
        let ghost q0 = queue@;
        let last: usize = queue.len() - 1;
        let idx: usize = queue[last];
        queue.truncate(last);
        let lab: i32 = labels[idx];
        let ghost labels0 = labels@;
        let ghost pops0 = pops;
        let ghost m = pops.len() as int;
        let nb = flood::neighbours(cw, ch, true, idx);
        let mut i: usize = 0;
        proof {
            assert(queue@ == q0.take(last as int));
            assert(is_pending(c, w, sd, pops0, m, q0[last as int] as int));
            assert(labels0[idx as int] != -1);
            assert forall|k: int| #[trigger] is_pending(c, w, sd, pops0, m, k) && k != idx implies queue@.contains(
                k as usize,
            ) && stronger(dt, idx as int, k) by {
                assert(q0.contains(k as usize));
                let j = choose|j: int| 0 <= j < q0.len() && q0[j] == k as usize;
                assert(j != last);
                assert(queue@[j] == k as usize);
                assert(stronger(dt, q0[last as int] as int, q0[j] as int));
            }
            queue_distinct(dt, q0);
        }
        while i < nb.len()
            invariant
                i <= nb@.len(),
                n == c.len(),
                n <= mask::MAX_PIXELS,
                c == comp@,
                dt == dtq@,
                dt.len() == n,
                c.len() == cw * ch,
                sd.len() <= i32::MAX,
                flood::lists_neighbours(cw as int, true, n as int, idx as int, nb@),
                labels@.len() == n,
                labels0.len() == n,
                -1 < lab < sd.len(),
                lab == labels0[idx as int],
                idx < n,
                labels@[idx as int] == lab,
                forall|k: int|
                    0 <= k < n ==> #[trigger] labels@[k] == (if labels0[k] == -1 && c[k]
                        && nb@.take(i as int).contains(k as usize) {
                        lab
                    } else {
                        labels0[k]
                    }),
                forall|a: int, b: int|
                    0 <= a < b < queue@.len() ==> stronger(
                        dt,
                        #[trigger] queue@[b] as int,
                        #[trigger] queue@[a] as int,
                    ),
                forall|a: int| 0 <= a < queue@.len() ==> (#[trigger] queue@[a]) < n && labels@[queue@[a] as int] != -1,
                forall|k: int|
                    0 <= k < n ==> (#[trigger] queue@.contains(k as usize) <==> q0.take(
                        last as int,
                    ).contains(k as usize) || (labels0[k] == -1 && labels@[k] != -1)),
                queue@.len() + counting::count_below(unlabelled(labels@), n as int) == last
                    + counting::count_below(unlabelled(labels0), n as int),
                queue@.len() <= n,
            decreases nb@.len() - i,
        {
            let b: usize = nb[i];
            let ghost labels1 = labels@;
            let ghost q1 = queue@;
            proof {
                take_next(nb@, i as int);
                queue_small(dt, q1, labels1, n as int);
            }
            if comp[b] && labels[b] == -1 {
                labels.set(b, lab);
                enqueue(dtq, &mut queue, b);
                proof {
                    let p = choose|p: int| 0 <= p <= q1.len() && queue@ == #[trigger] q1.insert(p, b);
                    counting::count_drop(
                        unlabelled(labels1),
                        unlabelled(labels@),
                        n as int,
                        b as int,
                    );
                    assert forall|k: int| 0 <= k < n implies (#[trigger] queue@.contains(k as usize)
                        <==> q0.take(last as int).contains(k as usize) || (labels0[k] == -1
                        && labels@[k] != -1)) by {
                        insert_contains(q1, p, b, k as usize);
                        assert(q1.contains(k as usize) <==> q0.take(last as int).contains(
                            k as usize,
                        ) || (labels0[k] == -1 && labels1[k] != -1));
                    }
                    assert forall|a: int| 0 <= a < queue@.len() implies (#[trigger] queue@[a]) < n
                        && labels@[queue@[a] as int] != -1 by {
                        assert(queue@.contains(queue@[a]));
                        insert_contains(q1, p, b, queue@[a]);
                        if queue@[a] != b {
                            let l = choose|l: int| 0 <= l < q1.len() && q1[l] == queue@[a];
                            assert(labels1[q1[l] as int] != -1);
                        }
                    }
                    queue_small(dt, queue@, labels@, n as int);
                }
            }
            i = i + 1;
        }
        proof {
            assert(nb@.take(nb@.len() as int) =~= nb@);
            pops = pops0.push(idx);
            expand(c, dt, w, sd, pops0, idx, labels0, labels@, nb@, q0, queue@);
            counting::count_bounds(unlabelled(labels@), n as int);
        }
    }
    proof {
        assert forall|k: int| !#[trigger] is_pending(c, w, sd, pops, pops.len() as int, k) by {
            if is_pending(c, w, sd, pops, pops.len() as int, k) {
                assert(queue@.contains(k as usize));
            }
        }
        assert(is_flooding(c, dt, w, sd, pops));
    }
    labels
}

proof fn take_next(nb: Seq<usize>, i: int)
    requires
        0 <= i < nb.len(),
    ensures
        forall|x: usize| #[trigger]
            nb.take(i + 1).contains(x) <==> nb.take(i).contains(x) || x == nb[i],
{
    assert forall|x: usize| #[trigger] nb.take(i + 1).contains(x) <==> nb.take(i).contains(x) || x
        == nb[i] by {
        if nb.take(i).contains(x) {
            let k = choose|k: int| 0 <= k < i && nb.take(i)[k] == x;
            assert(nb.take(i + 1)[k] == x);
        }
        if x == nb[i] {
            assert(nb.take(i + 1)[i] == x);
        }
        if nb.take(i + 1).contains(x) {
            let t = nb.take(i + 1);
            let k = choose|k: int| 0 <= k < t.len() && t[k] == x;
            if k < i {
                assert(nb.take(i)[k] == x);
            }
        }
    }
}

/// A sorted queue lists no cell twice.
proof fn queue_distinct(dt: Seq<i32>, q: Seq<usize>)
    requires
        forall|a: int, b: int|
            0 <= a < b < q.len() ==> stronger(dt, #[trigger] q[b] as int, #[trigger] q[a] as int),
    ensures
        q.no_duplicates(),
{
    assert forall|a: int, b: int| 0 <= a < q.len() && 0 <= b < q.len() && a != b implies q[a]
        != q[b] by {
        if a < b {
            assert(stronger(dt, q[b] as int, q[a] as int));
        } else {
            assert(stronger(dt, q[a] as int, q[b] as int));
        }
    }
}

/// A queue of distinct cells is no longer than the grid.
proof fn queue_small(dt: Seq<i32>, q: Seq<usize>, labels: Seq<i32>, n: int)
    requires
        forall|a: int, b: int|
            0 <= a < b < q.len() ==> stronger(dt, #[trigger] q[b] as int, #[trigger] q[a] as int),
        forall|a: int| 0 <= a < q.len() ==> (#[trigger] q[a]) < n,
        0 <= n,
    ensures
        q.len() <= n,
{
    queue_distinct(dt, q);
    let s = q.map_values(|x: usize| x as int).to_set();
    let t = q.map_values(|x: usize| x as int);
    assert(t.no_duplicates());
    t.unique_seq_to_set();
    let r = vstd::set_lib::set_int_range(0, n);
    vstd::set_lib::lemma_int_range(0, n);
    assert(s.subset_of(r)) by {
        assert forall|x: int| s.contains(x) implies r.contains(x) by {
            let i = choose|i: int| 0 <= i < t.len() && t[i] == x;
            assert(q[i] < n);
        }
    }
    vstd::set_lib::lemma_len_subset(s, r);
}

/// Expanding the strongest waiting cell carries the flood one step on.
proof fn expand(
    c: Seq<bool>,
    dt: Seq<i32>,
    w: int,
    sd: Seq<u32>,
    pops0: Seq<usize>,
    idx: usize,
    labels0: Seq<i32>,
    labels: Seq<i32>,
    nb: Seq<usize>,
    q0: Seq<usize>,
    queue: Seq<usize>,
)
    requires
        c.len() <= mask::MAX_PIXELS,
        flooding(c, dt, w, sd, pops0, labels0, q0),
        q0.len() > 0,
        q0.no_duplicates(),
        idx == q0[q0.len() - 1],
        flood::lists_neighbours(w, true, c.len() as int, idx as int, nb),
        labels.len() == c.len(),
        forall|k: int|
            0 <= k < c.len() ==> #[trigger] labels[k] == (if labels0[k] == -1 && c[k] && nb.contains(
                k as usize,
            ) {
                labels0[idx as int]
            } else {
                labels0[k]
            }),
        forall|a: int, b: int|
            0 <= a < b < queue.len() ==> stronger(
                dt,
                #[trigger] queue[b] as int,
                #[trigger] queue[a] as int,
            ),
        forall|a: int| 0 <= a < queue.len() ==> (#[trigger] queue[a]) < c.len(),
        forall|k: int|
            0 <= k < c.len() ==> (#[trigger] queue.contains(k as usize) <==> q0.take(
                q0.len() - 1,
            ).contains(k as usize) || (labels0[k] == -1 && labels[k] != -1)),
    ensures
        flooding(c, dt, w, sd, pops0.push(idx), labels, queue),
{
    let m = pops0.len() as int;
    let pops = pops0.push(idx);
    let n = c.len() as int;
    // Earlier expansions see the same waiting cells.
    assert forall|i: int, k: int| 0 <= i <= m implies is_popped(pops, i, k) == #[trigger] is_popped(
        pops0,
        i,
        k,
    ) by {
        if is_popped(pops, i, k) {
            let j = choose|j: int| 0 <= j < i && #[trigger] pops[j] == k;
            assert(pops0[j] == k);
        }
        if is_popped(pops0, i, k) {
            let j = choose|j: int| 0 <= j < i && #[trigger] pops0[j] == k;
            assert(pops[j] == k);
        }
    }
    assert forall|i: int, k: int| 0 <= i <= m implies is_touched(c, w, pops, i, k)
        == #[trigger] is_touched(c, w, pops0, i, k) by {
        if is_touched(c, w, pops, i, k) {
            let j = choose|j: int| 0 <= j < i && flood::adj(w, true, #[trigger] pops[j] as int, k);
            assert(flood::adj(w, true, pops0[j] as int, k));
        }
        if is_touched(c, w, pops0, i, k) {
            let j = choose|j: int| 0 <= j < i && flood::adj(w, true, #[trigger] pops0[j] as int, k);
            assert(flood::adj(w, true, pops[j] as int, k));
        }
    }
    assert forall|i: int, k: int| 0 <= i <= m implies is_pending(c, w, sd, pops, i, k)
        == #[trigger] is_pending(c, w, sd, pops0, i, k) by {
        assert(is_popped(pops, i, k) == is_popped(pops0, i, k));
        assert(is_touched(c, w, pops, i, k) == is_touched(c, w, pops0, i, k));
    }
    assert(is_pending(c, w, sd, pops0, m, q0[q0.len() - 1] as int));
    assert forall|i: int| 0 <= i < pops.len() implies is_pending(
        c,
        w,
        sd,
        pops,
        i,
        #[trigger] pops[i] as int,
    ) && forall|k: int| #[trigger] is_pending(c, w, sd, pops, i, k) && k != pops[i] ==> stronger(
        dt,
        pops[i] as int,
        k,
    ) by {
        if i < m {
            assert(pops[i] == pops0[i]);
            assert(is_pending(c, w, sd, pops0, i, pops0[i] as int));
            assert(is_pending(c, w, sd, pops, i, pops0[i] as int));
            assert forall|k: int| #[trigger]
                is_pending(c, w, sd, pops, i, k) && k != pops[i] implies stronger(
                dt,
                pops[i] as int,
                k,
            ) by {
                assert(is_pending(c, w, sd, pops0, i, k));
            }
        } else {
            assert(is_pending(c, w, sd, pops, m, idx as int));
            assert forall|k: int| #[trigger]
                is_pending(c, w, sd, pops, i, k) && k != pops[i] implies stronger(
                dt,
                pops[i] as int,
                k,
            ) by {
                assert(is_pending(c, w, sd, pops0, m, k));
                assert(q0.contains(k as usize));
                let j = choose|j: int| 0 <= j < q0.len() && q0[j] == k as usize;
                assert(stronger(dt, q0[q0.len() - 1] as int, q0[j] as int));
            }
        }
    }
    // One more expansion touches its neighbours.
    assert forall|k: int| 0 <= k < n implies (#[trigger] is_touched(c, w, pops, m + 1, k)
        <==> is_touched(c, w, pops0, m, k) || (c[k] && nb.contains(k as usize))) by {
        if is_touched(c, w, pops, m + 1, k) {
            let j = choose|j: int|
                0 <= j < m + 1 && flood::adj(w, true, #[trigger] pops[j] as int, k);
            if j < m {
                assert(flood::adj(w, true, pops0[j] as int, k));
            }
        }
        if is_touched(c, w, pops0, m, k) {
            let j = choose|j: int| 0 <= j < m && flood::adj(w, true, #[trigger] pops0[j] as int, k);
            assert(flood::adj(w, true, pops[j] as int, k));
        }
        if c[k] && nb.contains(k as usize) {
            let j = choose|j: int| 0 <= j < nb.len() && nb[j] == k as usize;
            assert(flood::adj(w, true, idx as int, nb[j] as int));
            assert(flood::adj(w, true, pops[m] as int, k));
        }
    }
    assert forall|k: int| is_popped(pops, m + 1, k) == (#[trigger] is_popped(pops0, m, k) || k
        == idx) by {
        if is_popped(pops, m + 1, k) {
            let j = choose|j: int| 0 <= j < m + 1 && #[trigger] pops[j] == k;
            if j < m {
                assert(pops0[j] == k);
            }
        }
        if is_popped(pops0, m, k) {
            let j = choose|j: int| 0 <= j < m && #[trigger] pops0[j] == k;
            assert(pops[j] == k);
        }
        if k == idx {
            assert(pops[m] == k);
        }
    }
    assert forall|k: int| 0 <= k < n implies (-1 <= #[trigger] labels[k] < sd.len()) && (labels[k]
        != -1 <==> is_seed(sd, k) || is_touched(c, w, pops, m + 1, k)) by {
        assert(-1 <= labels0[k] < sd.len());
        assert(-1 <= labels0[idx as int] < sd.len());
        assert(labels0[idx as int] != -1);
    }
    assert forall|k: int| 0 <= k < n implies #[trigger] label_is(
        c,
        w,
        sd,
        pops,
        m + 1,
        labels,
        k,
    ) by {
        assert(label_is(c, w, sd, pops0, m, labels0, k));
        assert(-1 <= labels0[k] < sd.len());
        if is_seed(sd, k) {
        } else if is_touched(c, w, pops0, m, k) {
            let j = choose|j: int|
                0 <= j < m && #[trigger] first_touch(w, pops0, j, k) && labels0[k]
                    == labels0[pops0[j] as int];
            assert(first_touch(w, pops, j, k)) by {
                assert forall|l: int| 0 <= l < j implies !flood::adj(
                    w,
                    true,
                    #[trigger] pops[l] as int,
                    k,
                ) by {
                    assert(!flood::adj(w, true, pops0[l] as int, k));
                }
            }
            assert(is_pending(c, w, sd, pops0, j, pops0[j] as int));
            assert(labels0[pops0[j] as int] != -1);
            assert(labels[pops[j] as int] == labels0[pops0[j] as int]);
        } else if is_touched(c, w, pops, m + 1, k) {
            assert(first_touch(w, pops, m, k)) by {
                assert forall|l: int| 0 <= l < m implies !flood::adj(
                    w,
                    true,
                    #[trigger] pops[l] as int,
                    k,
                ) by {
                    assert(pops[l] == pops0[l]);
                }
                let j = choose|j: int|
                    0 <= j < m + 1 && flood::adj(w, true, #[trigger] pops[j] as int, k);
                if j < m {
                    assert(flood::adj(w, true, pops0[j] as int, k));
                }
            }
            assert(labels[k] == labels0[idx as int]);
            assert(labels[pops[m] as int] == labels0[idx as int]);
        }
    }
    let rest = q0.take(q0.len() - 1);
    assert forall|k: int| rest.contains(k as usize) && 0 <= k < n implies #[trigger] is_pending(
        c,
        w,
        sd,
        pops,
        m + 1,
        k,
    ) by {
        let j = choose|j: int| 0 <= j < rest.len() && rest[j] == k as usize;
        assert(q0[j] == k as usize);
        assert(is_pending(c, w, sd, pops0, m, q0[j] as int));
        assert(is_popped(pops, m + 1, k) == (is_popped(pops0, m, k) || k == idx));
        assert(is_touched(c, w, pops, m + 1, k) <==> is_touched(c, w, pops0, m, k) || (c[k]
            && nb.contains(k as usize)));
    }
    assert forall|i: int| 0 <= i < queue.len() implies is_pending(
        c,
        w,
        sd,
        pops,
        m + 1,
        #[trigger] queue[i] as int,
    ) by {
        let k = queue[i] as int;
        assert(queue.contains(k as usize));
        if !rest.contains(k as usize) {
            assert(labels0[k] == -1 && labels[k] != -1);
            assert(is_touched(c, w, pops, m + 1, k));
            if is_popped(pops0, m, k) {
                let j = choose|j: int| 0 <= j < m && #[trigger] pops0[j] == k;
                assert(is_pending(c, w, sd, pops0, j, pops0[j] as int));
                touched_later(c, w, pops0, j, m, k);
                assert(labels0[k] != -1);
            }
            assert(is_popped(pops, m + 1, k) == (is_popped(pops0, m, k) || k == idx));
        }
    }
    assert forall|k: int| #[trigger] is_pending(c, w, sd, pops, m + 1, k) implies queue.contains(
        k as usize,
    ) by {
        assert(is_popped(pops, m + 1, k) == (is_popped(pops0, m, k) || k == idx));
        if labels0[k] == -1 {
            assert(labels[k] != -1);
        } else {
            assert(is_pending(c, w, sd, pops0, m, k));
            assert(q0.contains(k as usize));
            let j = choose|j: int| 0 <= j < q0.len() && q0[j] == k as usize;
            assert(j < q0.len() - 1);
            assert(rest[j] == k as usize);
        }
        assert(queue.contains(k as usize));
    }
}

proof fn touched_later(c: Seq<bool>, w: int, pops: Seq<usize>, i: int, m: int, k: int)
    requires
        0 <= i <= m <= pops.len(),
    ensures
        is_touched(c, w, pops, i, k) ==> is_touched(c, w, pops, m, k),
{
    if is_touched(c, w, pops, i, k) {
        let j = choose|j: int| 0 <= j < i && flood::adj(w, true, #[trigger] pops[j] as int, k);
        assert(0 <= j < m && flood::adj(w, true, pops[j] as int, k));
    }
}

// ---- every cell gets a label -------------------------------------------------

/// When the component is one piece that holds a seed, no cell is left out.
pub proof fn watershed_is_total(
    comp: Seq<bool>,
    dt: Seq<i32>,
    cw: int,
    seeds: Seq<u32>,
    labels: Seq<i32>,
    start: int,
)
    requires
        0 < cw,
        is_watershed(comp, dt, cw, seeds, labels),
        forall|i: int|
            0 <= i < seeds.len() ==> (#[trigger] seeds[i]) < comp.len() && comp[seeds[i] as int],
        seeds.len() > 0,
        forall|k: int|
            0 <= k < comp.len() && #[trigger] comp[k] ==> connect::reaches(
                flood::step8(cw, comp),
                start,
                k,
            ),
    ensures
        forall|k: int| 0 <= k < comp.len() && comp[k] ==> #[trigger] labels[k] >= 0,
{
    let pops = choose|pops: Seq<usize>| #[trigger]
        is_flooding(comp, dt, cw, seeds, pops) && forall|c: int|
            0 <= c < comp.len() ==> #[trigger] label_is(
                comp,
                cw,
                seeds,
                pops,
                pops.len() as int,
                labels,
                c,
            );
    let m = pops.len() as int;
    let step = flood::step8(cw, comp);
    let keep = |k: int| 0 <= k < comp.len() && is_popped(pops, m, k);
    let s = seeds[0] as int;
    assert(is_seed(seeds, s));
    assert(keep(s)) by {
        assert(!is_pending(comp, cw, seeds, pops, m, s));
    }
    assert forall|x: int, y: int| #[trigger] step(x, y) && keep(x) implies keep(y) by {
        let j = choose|j: int| 0 <= j < m && #[trigger] pops[j] == x;
        assert(flood::adj(cw, true, pops[j] as int, y));
        assert(is_touched(comp, cw, pops, m, y));
        assert(!is_pending(comp, cw, seeds, pops, m, y));
    }
    assert forall|x: int, y: int| #[trigger] step(x, y) implies step(y, x) by {
        flood::step_sym(cw, true, comp, x, y);
    }
    assert forall|k: int| 0 <= k < comp.len() && comp[k] implies #[trigger] labels[k] >= 0 by {
        connect::reaches_sym(step, start, s);
        connect::reaches_trans(step, s, start, k);
        connect::reaches_keeps(step, keep, s, k);
        let j = choose|j: int| 0 <= j < m && #[trigger] pops[j] == k;
        assert(is_pending(comp, cw, seeds, pops, j, pops[j] as int));
        touched_later(comp, cw, pops, j, m, k);
        popped_labelled(comp, dt, cw, seeds, pops, labels, j);
    }
}

/// An expanded cell has a label.
proof fn popped_labelled(
    comp: Seq<bool>,
    dt: Seq<i32>,
    cw: int,
    seeds: Seq<u32>,
    pops: Seq<usize>,
    labels: Seq<i32>,
    j: int,
)
    requires
        is_flooding(comp, dt, cw, seeds, pops),
        forall|c: int|
            0 <= c < comp.len() ==> #[trigger] label_is(
                comp,
                cw,
                seeds,
                pops,
                pops.len() as int,
                labels,
                c,
            ),
        0 <= j < pops.len(),
    ensures
        labels[pops[j] as int] >= 0,
    decreases j,
{
    let m = pops.len() as int;
    let k = pops[j] as int;
    assert(is_pending(comp, cw, seeds, pops, j, pops[j] as int));
    touched_later(comp, cw, pops, j, m, k);
    assert(label_is(comp, cw, seeds, pops, m, labels, k));
    if !is_seed(seeds, k) {
        let i = choose|i: int|
            0 <= i < m && #[trigger] first_touch(cw, pops, i, k) && labels[k]
                == labels[pops[i] as int];
        // The first touch came no later than some touch before expansion j.
        let l = choose|l: int| 0 <= l < j && flood::adj(cw, true, #[trigger] pops[l] as int, k);
        if i > l {
            assert(!flood::adj(cw, true, pops[l] as int, k));
        }
        popped_labelled(comp, dt, cw, seeds, pops, labels, i);
    }
}

// ---- the profile cut -----------------------------------------------------------

/// The least width of a band.
pub const MIN_BAND: usize = 2;

/// The coordinate of cell `k` along the cut axis.
pub open spec fn axis_coord(cw: int, ch: int, k: int) -> int {
    if cw >= ch {
        k % cw
    } else {
        k / cw
    }
}

/// The length of the cut axis.
pub open spec fn axis_len(cw: int, ch: int) -> int {
    if cw >= ch {
        cw
    } else {
        ch
    }
}

/// Component cells at coordinate `c` of the cut axis.
pub open spec fn at_coord(comp: Seq<bool>, cw: int, ch: int, c: int) -> spec_fn(int) -> bool {
    |k: int| comp[k] && axis_coord(cw, ch, k) == c
}

/// The ink at coordinate `c` of the cut axis.
pub open spec fn profile_at(comp: Seq<bool>, cw: int, ch: int, c: int) -> int {
    counting::count_below(at_coord(comp, cw, ch, c), comp.len() as int)
}

/// `c` is the coordinate in `lo..hi` with the least ink, the first among equals.
#[verifier::opaque]
pub open spec fn is_lowest(comp: Seq<bool>, cw: int, ch: int, lo: int, hi: int, c: int) -> bool {
    &&& lo <= c < hi
    &&& forall|d: int|
        lo <= d < hi ==> profile_at(comp, cw, ch, c) < #[trigger] profile_at(comp, cw, ch, d) || (
        profile_at(comp, cw, ch, c) == profile_at(comp, cw, ch, d) && c <= d)
}

/// Where the search for cut `i` starts.
pub open spec fn cut_low(cuts: Seq<usize>, i: int) -> int {
    if i == 0 {
        2
    } else {
        cuts[i - 1] + 2
    }
}

/// Where the search for cut `i` of `k` bands ends.
pub open spec fn cut_high(len: int, k: int, i: int) -> int {
    let h = len - (k - 1 - i) * 2;
    if h < 0 {
        0
    } else {
        h
    }
}

/// Cut `i` lies at the lowest ink of its range.
pub open spec fn is_cut(comp: Seq<bool>, cw: int, ch: int, k: int, cuts: Seq<usize>, i: int) -> bool {
    is_lowest(
        comp,
        cw,
        ch,
        cut_low(cuts, i),
        cut_high(axis_len(cw, ch), k, i),
        cuts[i] as int,
    )
}

/// `cuts` are the cuts into at most `k` bands: each at the lowest ink its
/// neighbours leave room for, until no room is left.
pub open spec fn is_cut_list(comp: Seq<bool>, cw: int, ch: int, k: int, cuts: Seq<usize>) -> bool {
    let len = axis_len(cw, ch);
    &&& cuts.len() <= k - 1
    &&& forall|i: int|
        0 <= i < cuts.len() ==> #[trigger] is_cut(comp, cw, ch, k, cuts, i)
    &&& cuts.len() < k - 1 ==> cut_low(cuts, cuts.len() as int) >= cut_high(
        len,
        k,
        cuts.len() as int,
    )
}

/// Cuts at or before coordinate `c`.
pub open spec fn cuts_upto(cuts: Seq<usize>, c: int) -> spec_fn(int) -> bool {
    |i: int| cuts[i] <= c
}

/// `labels` numbers each component cell by its band; other cells get `-1`.
pub open spec fn is_profile_cut(comp: Seq<bool>, cw: int, ch: int, k: int, labels: Seq<i32>) -> bool {
    &&& labels.len() == comp.len()
    &&& k < 2 ==> forall|c: int| 0 <= c < comp.len() ==> #[trigger] labels[c] == -1
    &&& k >= 2 ==> exists|cuts: Seq<usize>| #[trigger]
        is_cut_list(comp, cw, ch, k, cuts) && forall|c: int|
            0 <= c < comp.len() ==> #[trigger] labels[c] == (if comp[c] {
                counting::count_below(
                    cuts_upto(cuts, axis_coord(cw, ch, c)),
                    cuts.len() as int,
                )
            } else {
                -1
            })
}

proof fn lowest_bounds(comp: Seq<bool>, cw: int, ch: int, lo: int, hi: int, c: int)
    requires
        is_lowest(comp, cw, ch, lo, hi, c),
    ensures
        lo <= c < hi,
{
    reveal(is_lowest);
}

/// The coordinate in `lo..hi` with the least ink, the first among equals.
fn lowest(
    profile: &Vec<u32>,
    lo: usize,
    hi: usize,
    Ghost(c): Ghost<Seq<bool>>,
    Ghost(w): Ghost<int>,
    Ghost(h): Ghost<int>,
) -> (best: usize)
    requires
        lo < hi <= profile@.len(),
        forall|e: int| 0 <= e < profile@.len() ==> #[trigger] profile@[e] == profile_at(c, w, h, e),
    ensures
        is_lowest(c, w, h, lo as int, hi as int, best as int),
{
    let mut best: usize = lo;
    let mut d: usize = lo;
    while d < hi
        invariant
            lo <= d <= hi <= profile@.len(),
            lo <= best < hi,
            best < d || best == lo,
            forall|e: int|
                0 <= e < profile@.len() ==> #[trigger] profile@[e] == profile_at(c, w, h, e),
            forall|e: int|
                lo <= e < d ==> profile@[best as int] < #[trigger] profile@[e] || (
                profile@[best as int] == profile@[e] && best <= e),
        decreases hi - d,
    {
        if profile[d] < profile[best] {
            best = d;
        }
        d = d + 1;
    }
    reveal(is_lowest);
    assert forall|e: int| lo <= e < hi implies profile_at(c, w, h, best as int)
        < #[trigger] profile_at(c, w, h, e) || (profile_at(c, w, h, best as int) == profile_at(
        c,
        w,
        h,
        e,
    ) && best <= e) by {
        assert(profile@[e] == profile_at(c, w, h, e));
        assert(profile@[best as int] == profile_at(c, w, h, best as int));
    }
    best
}

/// Cuts the component into `k` bands along its long axis.
pub fn profile_cut(comp: &Vec<bool>, cw: usize, ch: usize, k: usize) -> (r: Vec<i32>)
    requires
        0 < cw,
        0 < ch,
        comp@.len() == cw * ch,
        comp@.len() <= mask::MAX_PIXELS,
        k <= u32::MAX,
    ensures
        is_profile_cut(comp@, cw as int, ch as int, k as int, r@),
        forall|i: int| 0 <= i < r@.len() ==> -1 <= #[trigger] r@[i] < k && r@[i] < comp@.len(),
{
    let n: usize = comp.len();
    let mut labels: Vec<i32> = Vec::new();
    let ghost c = comp@;
    let ghost w = cw as int;
    let ghost h = ch as int;
    if k < 2 {
        let mut i: usize = 0;
        while i < n
            invariant
                i <= n,
                labels@.len() == i,
                forall|j: int| 0 <= j < i ==> #[trigger] labels@[j] == -1,
            decreases n - i,
        {
            labels.push(-1);
            i = i + 1;
        }
        return labels;
    }
    let horizontal: bool = cw >= ch;
    let len: usize = if horizontal {
        cw
    } else {
        ch
    };
    proof {
        assert(cw <= cw * ch && ch <= cw * ch) by (nonlinear_arith)
            requires
                0 < cw,
                0 < ch,
        ;
    }
    let mut profile: Vec<u32> = Vec::new();
    let mut i: usize = 0;
    while i < len
        invariant
            i <= len,
            profile@.len() == i,
            forall|d: int| 0 <= d < i ==> #[trigger] profile@[d] == 0,
        decreases len - i,
    {
        profile.push(0);
        i = i + 1;
    }
    let mut i: usize = 0;
    while i < n
        invariant
            i <= n,
            0 < cw,
            0 < ch,
            n == c.len(),
            c == comp@,
            c.len() == cw * ch,
            n <= mask::MAX_PIXELS,
            w == cw,
            h == ch,
            horizontal == (cw >= ch),
            len == axis_len(w, h),
            profile@.len() == len,
            forall|d: int|
                0 <= d < len ==> #[trigger] profile@[d] == counting::count_below(
                    at_coord(c, w, h, d),
                    i as int,
                ) && profile@[d] <= i,
        decreases n - i,
    {
        proof {
            mask::lemma_pixel_split(w, h, i as int);
        }
        if comp[i] {
            let coord: usize = if horizontal {
                i % cw
            } else {
                i / cw
            };
            let ghost p0 = profile@;
            assert(profile@[coord as int] <= i);
            let v: u32 = profile[coord];
            profile.set(coord, v + 1);
        }
        i = i + 1;
    }
    let mut cuts: Vec<usize> = Vec::new();
    let mut i: usize = 0;
    let mut open: bool = true;
    while i < k - 1 && open
        invariant
            2 <= k <= u32::MAX,
            i <= k - 1,
            open ==> cuts@.len() == i,
            c == comp@,
            len == axis_len(w, h),
            len <= mask::MAX_PIXELS,
            profile@.len() == len,
            forall|d: int| 0 <= d < len ==> #[trigger] profile@[d] == profile_at(c, w, h, d),
            cuts@.len() <= k - 1,
            forall|j: int|
                0 <= j < cuts@.len() ==> #[trigger] is_cut(c, w, h, k as int, cuts@, j),
            !open ==> cut_low(cuts@, cuts@.len() as int) >= cut_high(
                len as int,
                k as int,
                cuts@.len() as int,
            ),
        decreases
                k - i + (if open {
                    1int
                } else {
                    0int
                }),
    {
        proof {
            if i > 0 {
                assert(is_cut(c, w, h, k as int, cuts@, i - 1));
                lowest_bounds(
                    c,
                    w,
                    h,
                    cut_low(cuts@, i - 1),
                    cut_high(len as int, k as int, i - 1),
                    cuts@[i - 1] as int,
                );
            }
        }
        let lo: usize = if cuts.len() == 0 {
            MIN_BAND
        } else {
            cuts[cuts.len() - 1] + MIN_BAND
        };
        let keep: u64 = (k - 1 - i) as u64 * 2;
        let hi: usize = if (len as u64) < keep {
            0
        } else {
            (len as u64 - keep) as usize
        };
        if lo >= hi {
            open = false;
        } else {
            let best: usize = lowest(&profile, lo, hi, Ghost(c), Ghost(w), Ghost(h));
            let ghost cuts0 = cuts@;
            cuts.push(best);
            proof {
                assert forall|j: int| 0 <= j < cuts@.len() implies #[trigger] is_cut(
                    c,
                    w,
                    h,
                    k as int,
                    cuts@,
                    j,
                ) by {
                    if j < i {
                        assert(is_cut(c, w, h, k as int, cuts0, j));
                    }
                }
            }
            i = i + 1;
        }
    }
    assert(is_cut_list(c, w, h, k as int, cuts@));
    proof {
        cuts_fit(c, w, h, k as int, cuts@, cuts@.len() as int);
    }
    let mut i: usize = 0;
    while i < n
        invariant
            i <= n,
            0 < cw,
            0 < ch,
            n == c.len(),
            c == comp@,
            c.len() == cw * ch,
            n <= mask::MAX_PIXELS,
            w == cw,
            h == ch,
            horizontal == (cw >= ch),
            cuts@.len() <= k - 1,
            cuts@.len() < n,
            labels@.len() == i,
            forall|j: int|
                0 <= j < i ==> #[trigger] labels@[j] == (if c[j] {
                    counting::count_below(cuts_upto(cuts@, axis_coord(w, h, j)), cuts@.len() as int)
                } else {
                    -1
                }),
            forall|j: int| 0 <= j < i ==> -1 <= #[trigger] labels@[j] < k && labels@[j] < n,
        decreases n - i,
    {
        if comp[i] {
            let coord: usize = if horizontal {
                i % cw
            } else {
                i / cw
            };
            let mut band: i32 = 0;
            let mut j: usize = 0;
            let ghost f = cuts_upto(cuts@, coord as int);
            while j < cuts.len()
                invariant
                    j <= cuts@.len(),
                    cuts@.len() < mask::MAX_PIXELS,
                    f == cuts_upto(cuts@, coord as int),
                    band == counting::count_below(f, j as int),
                    0 <= band <= j,
                decreases cuts@.len() - j,
            {
                if cuts[j] <= coord {
                    band = band + 1;
                }
                j = j + 1;
            }
            labels.push(band);
        } else {
            labels.push(-1);
        }
        i = i + 1;
    }
    labels
}

/// Cuts lie two apart on the axis, so there are fewer of them than cells.
proof fn cuts_fit(comp: Seq<bool>, cw: int, ch: int, k: int, cuts: Seq<usize>, n: int)
    requires
        0 < cw,
        0 < ch,
        comp.len() == cw * ch,
        is_cut_list(comp, cw, ch, k, cuts),
        0 <= n <= cuts.len(),
    ensures
        n > 0 ==> 2 * n <= cuts[n - 1] < axis_len(cw, ch),
        n < comp.len(),
    decreases n,
{
    assert(cw <= cw * ch && ch <= cw * ch && 0 < cw * ch) by (nonlinear_arith)
        requires
            0 < cw,
            0 < ch,
    ;
    if n > 0 {
        cuts_fit(comp, cw, ch, k, cuts, n - 1);
        assert(is_cut(comp, cw, ch, k, cuts, n - 1));
        lowest_bounds(
            comp,
            cw,
            ch,
            cut_low(cuts, n - 1),
            cut_high(axis_len(cw, ch), k, n - 1),
            cuts[n - 1] as int,
        );
    }
}

/// A cut into two or more bands labels every component cell.
pub proof fn profile_cut_is_total(comp: Seq<bool>, cw: int, ch: int, k: int, labels: Seq<i32>)
    requires
        is_profile_cut(comp, cw, ch, k, labels),
        k >= 2,
    ensures
        forall|c: int| 0 <= c < comp.len() && comp[c] ==> #[trigger] labels[c] >= 0,
{
    let cuts = choose|cuts: Seq<usize>| #[trigger]
        is_cut_list(comp, cw, ch, k, cuts) && forall|c: int|
            0 <= c < comp.len() ==> #[trigger] labels[c] == (if comp[c] {
                counting::count_below(
                    cuts_upto(cuts, axis_coord(cw, ch, c)),
                    cuts.len() as int,
                )
            } else {
                -1
            });
    assert forall|c: int| 0 <= c < comp.len() && comp[c] implies #[trigger] labels[c] >= 0 by {
        counting::count_bounds(cuts_upto(cuts, axis_coord(cw, ch, c)), cuts.len() as int);
    }
}

// ---- one outcome --------------------------------------------------------------------

proof fn peaks_prefix(comp: Seq<bool>, dt: Seq<i32>, min_dt: int, a: Seq<usize>, b: Seq<usize>, n: int)
    requires
        is_peak_list(comp, dt, min_dt, a),
        is_peak_list(comp, dt, min_dt, b),
        0 <= n <= a.len(),
    ensures
        n <= b.len(),
        forall|i: int| 0 <= i < n ==> a[i] == b[i],
    decreases n,
{
    if n > 0 {
        let k = n - 1;
        peaks_prefix(comp, dt, min_dt, a, b, k);
        assert(b.contains(a[k] as int as usize));
        let j = choose|j: int| 0 <= j < b.len() && b[j] == a[k];
        if j < k {
            assert(stronger(dt, a[j] as int, a[k] as int));
        }
        assert(a.contains(b[k] as int as usize));
        let l = choose|l: int| 0 <= l < a.len() && a[l] == b[k];
        if l < k {
            assert(stronger(dt, b[l] as int, b[k] as int));
        }
        if j > k && l > k {
            assert(stronger(dt, b[k] as int, b[j] as int));
            assert(stronger(dt, a[k] as int, a[l] as int));
        }
    }
}

/// A component has one list of seeds.
pub proof fn seeds_are_unique(
    comp: Seq<bool>,
    dt: Seq<i32>,
    cw: int,
    r2: int,
    min_dt: int,
    cap: int,
    a: Seq<u32>,
    b: Seq<u32>,
)
    requires
        is_seed_list(comp, dt, cw, r2, min_dt, cap, a),
        is_seed_list(comp, dt, cw, r2, min_dt, cap, b),
    ensures
        a == b,
{
    let x = choose|cand: Seq<usize>| #[trigger]
        is_peak_list(comp, dt, min_dt, cand) && a == greedy_seeds(cw, r2, cap, cand, cand.len() as int);
    let y = choose|cand: Seq<usize>| #[trigger]
        is_peak_list(comp, dt, min_dt, cand) && b == greedy_seeds(cw, r2, cap, cand, cand.len() as int);
    peaks_prefix(comp, dt, min_dt, x, y, x.len() as int);
    peaks_prefix(comp, dt, min_dt, y, x, y.len() as int);
    assert(x =~= y);
}

proof fn greedy_distinct(cw: int, r2: int, cap: int, cand: Seq<usize>, n: int)
    requires
        r2 > 0,
        0 <= n <= cand.len(),
        forall|i: int| 0 <= i < cand.len() ==> #[trigger] cand[i] <= u32::MAX,
    ensures
        forall|i: int, j: int|
            0 <= i < j < greedy_seeds(cw, r2, cap, cand, n).len() ==> #[trigger] greedy_seeds(
                cw,
                r2,
                cap,
                cand,
                n,
            )[i] != #[trigger] greedy_seeds(cw, r2, cap, cand, n)[j],
    decreases n,
{
    if n > 0 {
        greedy_distinct(cw, r2, cap, cand, n - 1);
        let prev = greedy_seeds(cw, r2, cap, cand, n - 1);
        let c = cand[n - 1] as int;
        if prev.len() < cap && is_clear(cw, r2, prev, c) {
            assert forall|i: int| 0 <= i < prev.len() implies #[trigger] prev[i] != c as u32 by {
                assert(cell_dist2(cw, c, prev[i] as int) * 4000000 >= r2);
                if prev[i] == c {
                    assert(cell_dist2(cw, c, c) == 0) by {
                        assert((c % cw - c % cw) * (c % cw - c % cw) == 0) by (nonlinear_arith);
                        assert((c / cw - c / cw) * (c / cw - c / cw) == 0) by (nonlinear_arith);
                    }
                }
            }
        }
    }
}

/// No two seeds are the same cell.
pub proof fn seeds_are_distinct(
    comp: Seq<bool>,
    dt: Seq<i32>,
    cw: int,
    r2: int,
    min_dt: int,
    cap: int,
    seeds: Seq<u32>,
)
    requires
        is_seed_list(comp, dt, cw, r2, min_dt, cap, seeds),
        r2 > 0,
        comp.len() <= u32::MAX,
    ensures
        forall|i: int, j: int| 0 <= i < j < seeds.len() ==> #[trigger] seeds[i] != #[trigger] seeds[j],
{
    let x = choose|cand: Seq<usize>| #[trigger]
        is_peak_list(comp, dt, min_dt, cand) && seeds == greedy_seeds(
            cw,
            r2,
            cap,
            cand,
            cand.len() as int,
        );
    greedy_distinct(cw, r2, cap, x, x.len() as int);
}

proof fn pending_same(comp: Seq<bool>, cw: int, seeds: Seq<u32>, a: Seq<usize>, b: Seq<usize>, n: int, c: int)
    requires
        0 <= n <= a.len(),
        n <= b.len(),
        forall|i: int| 0 <= i < n ==> a[i] == b[i],
        is_pending(comp, cw, seeds, a, n, c),
    ensures
        is_pending(comp, cw, seeds, b, n, c),
{
    if !is_seed(seeds, c) {
        let j = choose|j: int| 0 <= j < n && flood::adj(cw, true, #[trigger] a[j] as int, c);
        assert(flood::adj(cw, true, b[j] as int, c));
    }
    if is_popped(b, n, c) {
        let j = choose|j: int| 0 <= j < n && #[trigger] b[j] == c;
        assert(a[j] == c);
    }
}

proof fn pops_prefix(comp: Seq<bool>, dt: Seq<i32>, cw: int, seeds: Seq<u32>, a: Seq<usize>, b: Seq<usize>, n: int)
    requires
        is_flooding(comp, dt, cw, seeds, a),
        is_flooding(comp, dt, cw, seeds, b),
        0 <= n <= a.len(),
    ensures
        n <= b.len(),
        forall|i: int| 0 <= i < n ==> a[i] == b[i],
    decreases n,
{
    if n > 0 {
        let k = n - 1;
        pops_prefix(comp, dt, cw, seeds, a, b, k);
        assert(is_pending(comp, cw, seeds, a, k, a[k] as int));
        pending_same(comp, cw, seeds, a, b, k, a[k] as int);
        if k == b.len() {
            assert(!is_pending(comp, cw, seeds, b, b.len() as int, a[k] as int));
        }
        assert(is_pending(comp, cw, seeds, b, k, b[k] as int));
        pending_same(comp, cw, seeds, b, a, k, b[k] as int);
        if a[k] != b[k] {
            assert(stronger(dt, a[k] as int, b[k] as int));
            assert(stronger(dt, b[k] as int, a[k] as int));
        }
    }
}

proof fn label_same(
    comp: Seq<bool>,
    cw: int,
    seeds: Seq<u32>,
    pops: Seq<usize>,
    a: Seq<i32>,
    b: Seq<i32>,
    c: int,
    n: int,
)
    requires
        0 <= c < comp.len(),
        0 <= n <= pops.len(),
        forall|i: int, j: int| 0 <= i < j < seeds.len() ==> #[trigger] seeds[i] != #[trigger] seeds[j],
        label_is(comp, cw, seeds, pops, pops.len() as int, a, c),
        label_is(comp, cw, seeds, pops, pops.len() as int, b, c),
        is_seed(seeds, c) || is_touched(comp, cw, pops, n, c) || !is_touched(
            comp,
            cw,
            pops,
            pops.len() as int,
            c,
        ),
        forall|j: int| 0 <= j < n ==> #[trigger] a[pops[j] as int] == b[pops[j] as int],
    ensures
        a[c] == b[c],
{
    if is_seed(seeds, c) {
        let i = choose|i: int| 0 <= i < seeds.len() && #[trigger] seeds[i] == c && a[c] == i;
        let j = choose|j: int| 0 <= j < seeds.len() && #[trigger] seeds[j] == c && b[c] == j;
        if i < j {
            assert(seeds[i] != seeds[j]);
        } else if j < i {
            assert(seeds[j] != seeds[i]);
        }
    } else if is_touched(comp, cw, pops, pops.len() as int, c) {
        let t = choose|t: int| 0 <= t < n && flood::adj(cw, true, #[trigger] pops[t] as int, c);
        let i = choose|i: int|
            0 <= i < pops.len() && #[trigger] first_touch(cw, pops, i, c) && a[c] == a[pops[i] as int];
        let j = choose|j: int|
            0 <= j < pops.len() && #[trigger] first_touch(cw, pops, j, c) && b[c] == b[pops[j] as int];
        if i < j {
            assert(!flood::adj(cw, true, pops[i] as int, c));
        } else if j < i {
            assert(!flood::adj(cw, true, pops[j] as int, c));
        }
        if t < i {
            assert(!flood::adj(cw, true, pops[t] as int, c));
        }
        assert(a[pops[i] as int] == b[pops[i] as int]);
    }
}

proof fn popped_same(
    comp: Seq<bool>,
    dt: Seq<i32>,
    cw: int,
    seeds: Seq<u32>,
    pops: Seq<usize>,
    a: Seq<i32>,
    b: Seq<i32>,
    n: int,
)
    requires
        is_flooding(comp, dt, cw, seeds, pops),
        0 <= n <= pops.len(),
        forall|i: int, j: int| 0 <= i < j < seeds.len() ==> #[trigger] seeds[i] != #[trigger] seeds[j],
        forall|c: int|
            0 <= c < comp.len() ==> #[trigger] label_is(comp, cw, seeds, pops, pops.len() as int, a, c),
        forall|c: int|
            0 <= c < comp.len() ==> #[trigger] label_is(comp, cw, seeds, pops, pops.len() as int, b, c),
    ensures
        forall|j: int| 0 <= j < n ==> #[trigger] a[pops[j] as int] == b[pops[j] as int],
    decreases n,
{
    if n > 0 {
        let k = n - 1;
        popped_same(comp, dt, cw, seeds, pops, a, b, k);
        let c = pops[k] as int;
        assert(is_pending(comp, cw, seeds, pops, k, c));
        assert(label_is(comp, cw, seeds, pops, pops.len() as int, a, c));
        assert(label_is(comp, cw, seeds, pops, pops.len() as int, b, c));
        label_same(comp, cw, seeds, pops, a, b, c, k);
    }
}

/// A component has one watershed labelling from given seeds.
pub proof fn watershed_is_unique(
    comp: Seq<bool>,
    dt: Seq<i32>,
    cw: int,
    seeds: Seq<u32>,
    a: Seq<i32>,
    b: Seq<i32>,
)
    requires
        is_watershed(comp, dt, cw, seeds, a),
        is_watershed(comp, dt, cw, seeds, b),
        forall|i: int, j: int| 0 <= i < j < seeds.len() ==> #[trigger] seeds[i] != #[trigger] seeds[j],
    ensures
        a == b,
{
    let x = choose|pops: Seq<usize>| #[trigger]
        is_flooding(comp, dt, cw, seeds, pops) && forall|c: int|
            0 <= c < comp.len() ==> #[trigger] label_is(comp, cw, seeds, pops, pops.len() as int, a, c);
    let y = choose|pops: Seq<usize>| #[trigger]
        is_flooding(comp, dt, cw, seeds, pops) && forall|c: int|
            0 <= c < comp.len() ==> #[trigger] label_is(comp, cw, seeds, pops, pops.len() as int, b, c);
    pops_prefix(comp, dt, cw, seeds, x, y, x.len() as int);
    pops_prefix(comp, dt, cw, seeds, y, x, y.len() as int);
    assert(x =~= y);
    popped_same(comp, dt, cw, seeds, x, a, b, x.len() as int);
    assert forall|c: int| 0 <= c < comp.len() implies a[c] == b[c] by {
        assert(label_is(comp, cw, seeds, x, x.len() as int, a, c));
        assert(label_is(comp, cw, seeds, x, x.len() as int, b, c));
        label_same(comp, cw, seeds, x, a, b, c, x.len() as int);
    }
    assert(a =~= b);
}

proof fn cuts_prefix(comp: Seq<bool>, cw: int, ch: int, k: int, a: Seq<usize>, b: Seq<usize>, n: int)
    requires
        is_cut_list(comp, cw, ch, k, a),
        is_cut_list(comp, cw, ch, k, b),
        0 <= n <= a.len(),
    ensures
        n <= b.len(),
        forall|i: int| 0 <= i < n ==> a[i] == b[i],
    decreases n,
{
    if n > 0 {
        let i = n - 1;
        cuts_prefix(comp, cw, ch, k, a, b, i);
        assert(is_cut(comp, cw, ch, k, a, i));
        let hi = cut_high(axis_len(cw, ch), k, i);
        assert(cut_low(a, i) == cut_low(b, i));
        lowest_bounds(comp, cw, ch, cut_low(a, i), hi, a[i] as int);
        assert(i < b.len());
        assert(is_cut(comp, cw, ch, k, b, i));
        reveal(is_lowest);
        assert(profile_at(comp, cw, ch, a[i] as int) == profile_at(comp, cw, ch, b[i] as int));
    }
}

/// A component has one profile cut into a given number of bands.
pub proof fn profile_cut_is_unique(comp: Seq<bool>, cw: int, ch: int, k: int, a: Seq<i32>, b: Seq<i32>)
    requires
        is_profile_cut(comp, cw, ch, k, a),
        is_profile_cut(comp, cw, ch, k, b),
    ensures
        a == b,
{
    if k >= 2 {
        let x = choose|cuts: Seq<usize>| #[trigger]
            is_cut_list(comp, cw, ch, k, cuts) && forall|c: int|
                0 <= c < comp.len() ==> #[trigger] a[c] == (if comp[c] {
                    counting::count_below(
                        cuts_upto(cuts, axis_coord(cw, ch, c)),
                        cuts.len() as int,
                    )
                } else {
                    -1
                });
        let y = choose|cuts: Seq<usize>| #[trigger]
            is_cut_list(comp, cw, ch, k, cuts) && forall|c: int|
                0 <= c < comp.len() ==> #[trigger] b[c] == (if comp[c] {
                    counting::count_below(
                        cuts_upto(cuts, axis_coord(cw, ch, c)),
                        cuts.len() as int,
                    )
                } else {
                    -1
                });
        cuts_prefix(comp, cw, ch, k, x, y, x.len() as int);
        cuts_prefix(comp, cw, ch, k, y, x, y.len() as int);
        assert(x =~= y);
    }
    assert(a =~= b);
}

/// A watershed labels nothing outside the component.
pub proof fn watershed_stays_inside(comp: Seq<bool>, dt: Seq<i32>, cw: int, seeds: Seq<u32>, labels: Seq<i32>)
    requires
        is_watershed(comp, dt, cw, seeds, labels),
        forall|i: int|
            0 <= i < seeds.len() ==> (#[trigger] seeds[i]) < comp.len() && comp[seeds[i] as int],
    ensures
        forall|k: int| 0 <= k < labels.len() && !comp[k] ==> #[trigger] labels[k] == -1,
{
    let pops = choose|pops: Seq<usize>| #[trigger]
        is_flooding(comp, dt, cw, seeds, pops) && forall|c: int|
            0 <= c < comp.len() ==> #[trigger] label_is(
                comp,
                cw,
                seeds,
                pops,
                pops.len() as int,
                labels,
                c,
            );
    assert forall|k: int| 0 <= k < labels.len() && !comp[k] implies #[trigger] labels[k] == -1 by {
        assert(label_is(comp, cw, seeds, pops, pops.len() as int, labels, k));
        if is_seed(seeds, k) {
            let i = choose|i: int| 0 <= i < seeds.len() && #[trigger] seeds[i] == k;
            assert(comp[seeds[i] as int]);
        }
    }
}

// ---- what seeds and labels are ------------------------------------------------------

proof fn greedy_keeps_distance(cw: int, r2: int, cap: int, cand: Seq<usize>, n: int)
    requires
        0 <= n <= cand.len(),
        forall|i: int| 0 <= i < cand.len() ==> #[trigger] cand[i] <= u32::MAX,
        cap >= 0,
    ensures
        ({
            let s = greedy_seeds(cw, r2, cap, cand, n);
            &&& s.len() <= cap
            &&& forall|i: int, j: int|
                0 <= i < j < s.len() ==> 4000000 * cell_dist2(cw, #[trigger] s[j] as int, #[trigger] s[i] as int) >= r2
            &&& forall|t: int|
                0 <= t < n ==> s.len() == cap || s.contains((#[trigger] cand[t]) as u32) || exists|i: int|
                    0 <= i < s.len() && 4000000 * cell_dist2(cw, cand[t] as int, #[trigger] s[i] as int) < r2
        }),
    decreases n,
{
    if n > 0 {
        greedy_keeps_distance(cw, r2, cap, cand, n - 1);
        let before = greedy_seeds(cw, r2, cap, cand, n - 1);
        let now = greedy_seeds(cw, r2, cap, cand, n);
        let c = cand[n - 1];
        assert(c <= u32::MAX);
        if before.len() < cap && is_clear(cw, r2, before, c as int) {
            assert forall|i: int, j: int| 0 <= i < j < now.len() implies 4000000 * cell_dist2(
                cw,
                #[trigger] now[j] as int,
                #[trigger] now[i] as int,
            ) >= r2 by {
                if j == before.len() {
                    assert(before[i] == now[i]);
                    assert(cell_dist2(cw, c as int, before[i] as int) * 4000000 >= r2);
                } else {
                    assert(before[i] == now[i] && before[j] == now[j]);
                }
            }
            assert forall|t: int| 0 <= t < n implies now.len() == cap || now.contains((#[trigger] cand[t]) as u32)
                || exists|i: int|
                0 <= i < now.len() && 4000000 * cell_dist2(cw, cand[t] as int, #[trigger] now[i] as int) < r2 by {
                if t == n - 1 {
                    assert(now[before.len() as int] == cand[t] as u32);
                } else if before.contains(cand[t] as u32) {
                    let i = choose|i: int| 0 <= i < before.len() && before[i] == cand[t] as u32;
                    assert(now[i] == cand[t] as u32);
                } else {
                    let i = choose|i: int|
                        0 <= i < before.len() && 4000000 * cell_dist2(cw, cand[t] as int, #[trigger] before[i] as int)
                            < r2;
                    assert(now[i] == before[i]);
                }
            }
        } else {
            if before.len() < cap {
                let i = choose|i: int|
                    0 <= i < before.len() && cell_dist2(cw, c as int, #[trigger] before[i] as int) * 4000000 < r2;
                assert(4000000 * cell_dist2(cw, cand[n - 1] as int, before[i] as int) < r2);
            }
        }
    }
}

/// Seeds lie deep enough and no two are closer than the radius; and a cell that
/// lies deep enough is a seed, or too close to one, unless there are as many seeds
/// as there may be. The radius is in two-thousandths of a cell, squared.
pub proof fn seeds_are_spread_out(
    comp: Seq<bool>,
    dt: Seq<i32>,
    cw: int,
    r2: int,
    min_dt: int,
    cap: int,
    seeds: Seq<u32>,
    k: int,
)
    requires
        is_seed_list(comp, dt, cw, r2, min_dt, cap, seeds),
        comp.len() <= u32::MAX,
        comp.len() <= usize::MAX,
        r2 > 0,
        cap >= 0,
        cw > 0,
        0 <= k < comp.len(),
        comp[k],
        dt[k] >= min_dt,
    ensures
        seeds.len() <= cap,
        forall|i: int, j: int|
            0 <= i < j < seeds.len() ==> {
                let dx = (#[trigger] seeds[i]) as int % cw - (#[trigger] seeds[j]) as int % cw;
                let dy = seeds[i] as int / cw - seeds[j] as int / cw;
                (2000 * 2000) * (dx * dx + dy * dy) >= r2
            },
        seeds.len() == cap || seeds.contains(k as u32) || exists|i: int|
            0 <= i < seeds.len() && {
                let dx = k % cw - (#[trigger] seeds[i]) as int % cw;
                let dy = k / cw - seeds[i] as int / cw;
                (2000 * 2000) * (dx * dx + dy * dy) < r2
            },
{
    let cand = choose|cand: Seq<usize>| #[trigger]
        is_peak_list(comp, dt, min_dt, cand) && seeds == greedy_seeds(cw, r2, cap, cand, cand.len() as int);
    assert forall|i: int| 0 <= i < cand.len() implies #[trigger] cand[i] <= u32::MAX by {
        assert(cand[i] < comp.len());
    }
    greedy_keeps_distance(cw, r2, cap, cand, cand.len() as int);
    assert forall|i: int, j: int| 0 <= i < j < seeds.len() implies ({
        let dx = (#[trigger] seeds[i]) as int % cw - (#[trigger] seeds[j]) as int % cw;
        let dy = seeds[i] as int / cw - seeds[j] as int / cw;
        (2000 * 2000) * (dx * dx + dy * dy) >= r2
    }) by {
        let dx = seeds[i] as int % cw - seeds[j] as int % cw;
        let dy = seeds[i] as int / cw - seeds[j] as int / cw;
        assert((-dx) * (-dx) == dx * dx && (-dy) * (-dy) == dy * dy) by (nonlinear_arith);
        assert(cell_dist2(cw, seeds[j] as int, seeds[i] as int) == dx * dx + dy * dy);
    }
    assert(cand.contains(k as usize));
    let t = choose|t: int| 0 <= t < cand.len() && cand[t] == k as usize;
    assert(cand[t] as u32 == k as u32);
    if seeds.len() != cap && !seeds.contains(k as u32) {
        let i = choose|i: int|
            0 <= i < seeds.len() && 4000000 * cell_dist2(cw, cand[t] as int, #[trigger] seeds[i] as int) < r2;
        assert(cell_dist2(cw, k, seeds[i] as int) * 4000000 < r2);
        assert(0 <= seeds[i]);
    }
}

/// A seed is labelled with its own number, and any other labelled cell has the
/// label of a cell that touches it, corners included; `(x, y)` is the cell.
pub proof fn labels_spread_from_cell_to_cell(
    comp: Seq<bool>,
    dt: Seq<i32>,
    cw: int,
    ch: int,
    seeds: Seq<u32>,
    labels: Seq<i32>,
    x: int,
    y: int,
)
    requires
        is_watershed(comp, dt, cw, seeds, labels),
        comp.len() == cw * ch,
        0 <= x < cw,
        0 <= y < ch,
    ensures
        ({
            let c = y * cw + x;
            &&& (exists|i: int| 0 <= i < seeds.len() && #[trigger] seeds[i] == c) ==> exists|i: int|
                0 <= i < seeds.len() && #[trigger] seeds[i] == c && labels[c] == i
            &&& !(exists|i: int| 0 <= i < seeds.len() && #[trigger] seeds[i] == c) && labels[c] != -1 ==> comp[c]
                && exists|u: int, v: int|
                #![trigger labels[v * cw + u]]
                0 <= u < cw && 0 <= v < ch && -1 <= u - x <= 1 && -1 <= v - y <= 1 && (u != x || v != y) && labels[v
                    * cw + u] == labels[c]
        }),
{
    let c = y * cw + x;
    mask::lemma_pixel_in(cw, ch, x, y);
    let pops = choose|pops: Seq<usize>| #[trigger]
        is_flooding(comp, dt, cw, seeds, pops) && forall|c: int|
            0 <= c < comp.len() ==> #[trigger] label_is(comp, cw, seeds, pops, pops.len() as int, labels, c);
    assert(label_is(comp, cw, seeds, pops, pops.len() as int, labels, c));
    if !is_seed(seeds, c) && labels[c] != -1 {
        let j = choose|j: int|
            0 <= j < pops.len() && #[trigger] first_touch(cw, pops, j, c) && labels[c] == labels[pops[j] as int];
        let k = pops[j] as int;
        assert(is_pending(comp, cw, seeds, pops, j, pops[j] as int));
        mask::lemma_pixel_split(cw, ch, k);
        flood::neighbours_differ_by_one(cw, true, k % cw, k / cw, x, y);
        assert(labels[(k / cw) * cw + k % cw] == labels[c]);
    }
}

/// A profile cut goes straight across the longer side: cells at one place along it
/// have one label, and labels never fall along it.
pub proof fn profile_cuts_go_straight(comp: Seq<bool>, cw: int, ch: int, k: int, labels: Seq<i32>, a: int, b: int)
    requires
        is_profile_cut(comp, cw, ch, k, labels),
        k >= 2,
        comp.len() <= i32::MAX,
        0 <= a < comp.len(),
        0 <= b < comp.len(),
        comp[a],
        comp[b],
    ensures
        cw >= ch && a % cw == b % cw ==> labels[a] == labels[b],
        cw >= ch && a % cw <= b % cw ==> labels[a] <= labels[b],
        cw < ch && a / cw == b / cw ==> labels[a] == labels[b],
        cw < ch && a / cw <= b / cw ==> labels[a] <= labels[b],
        0 <= labels[a] < k,
{
    let cuts = choose|cuts: Seq<usize>| #[trigger]
        is_cut_list(comp, cw, ch, k, cuts) && forall|c: int|
            0 <= c < comp.len() ==> #[trigger] labels[c] == (if comp[c] {
                counting::count_below(cuts_upto(cuts, axis_coord(cw, ch, c)), cuts.len() as int)
            } else {
                -1
            });
    let n = cuts.len() as int;
    let x = axis_coord(cw, ch, a);
    let y = axis_coord(cw, ch, b);
    assert(labels[a] == counting::count_below(cuts_upto(cuts, x), n));
    assert(labels[b] == counting::count_below(cuts_upto(cuts, y), n));
    counting::count_bounds(cuts_upto(cuts, x), n);
    if x <= y {
        counting::count_le(cuts_upto(cuts, x), cuts_upto(cuts, y), n);
    }
    if x == y {
        counting::count_le(cuts_upto(cuts, y), cuts_upto(cuts, x), n);
    }
}

proof fn greedy_keeps_order(cw: int, r2: int, cap: int, cand: Seq<usize>, n: int) -> (at: Seq<int>)
    requires
        0 <= n <= cand.len(),
        forall|i: int| 0 <= i < cand.len() ==> #[trigger] cand[i] <= u32::MAX,
    ensures
        ({
            let s = greedy_seeds(cw, r2, cap, cand, n);
            &&& at.len() == s.len()
            &&& forall|i: int| 0 <= i < s.len() ==> 0 <= #[trigger] at[i] < n && s[i] == cand[at[i]]
            &&& forall|i: int, j: int| 0 <= i < j < s.len() ==> #[trigger] at[i] < #[trigger] at[j]
            &&& n > 0 && cap > 0 ==> s.len() > 0 && at[0] == 0
        }),
    decreases n,
{
    if n <= 0 {
        Seq::empty()
    } else {
        let before = greedy_keeps_order(cw, r2, cap, cand, n - 1);
        let prev = greedy_seeds(cw, r2, cap, cand, n - 1);
        assert(cand[n - 1] <= u32::MAX);
        if prev.len() < cap && is_clear(cw, r2, prev, cand[n - 1] as int) {
            before.push(n - 1)
        } else {
            before
        }
    }
}

/// Seeds come deepest first, equally deep ones row by row; and the first is the
/// deepest cell of all.
pub proof fn deepest_cells_are_seeds_first(
    comp: Seq<bool>,
    dt: Seq<i32>,
    cw: int,
    r2: int,
    min_dt: int,
    cap: int,
    seeds: Seq<u32>,
    k: int,
)
    requires
        is_seed_list(comp, dt, cw, r2, min_dt, cap, seeds),
        comp.len() <= u32::MAX,
        comp.len() <= usize::MAX,
        cap > 0,
        0 <= k < comp.len(),
        comp[k],
        dt[k] >= min_dt,
    ensures
        seeds.len() > 0,
        forall|i: int, j: int|
            0 <= i < j < seeds.len() ==> dt[(#[trigger] seeds[i]) as int] > dt[(#[trigger] seeds[j]) as int] || (
            dt[seeds[i] as int] == dt[seeds[j] as int] && seeds[i] < seeds[j]),
        dt[seeds[0] as int] > dt[k] || (dt[seeds[0] as int] == dt[k] && seeds[0] <= k),
        forall|i: int| 0 <= i < seeds.len() ==> dt[(#[trigger] seeds[i]) as int] >= min_dt && comp[seeds[i] as int],
{
    let cand = choose|cand: Seq<usize>| #[trigger]
        is_peak_list(comp, dt, min_dt, cand) && seeds == greedy_seeds(cw, r2, cap, cand, cand.len() as int);
    assert forall|i: int| 0 <= i < cand.len() implies #[trigger] cand[i] <= u32::MAX by {
        assert(cand[i] < comp.len());
    }
    assert(cand.contains(k as usize));
    let t = choose|t: int| 0 <= t < cand.len() && cand[t] == k as usize;
    let at = greedy_keeps_order(cw, r2, cap, cand, cand.len() as int);
    assert forall|i: int, j: int| 0 <= i < j < seeds.len() implies dt[(#[trigger] seeds[i]) as int] > dt[(
    #[trigger] seeds[j]) as int] || (dt[seeds[i] as int] == dt[seeds[j] as int] && seeds[i] < seeds[j]) by {
        assert(at[i] < at[j]);
        assert(stronger(dt, cand[at[i]] as int, cand[at[j]] as int));
    }
    assert(at[0] == 0 && seeds[0] == cand[0]);
    if t > 0 {
        assert(stronger(dt, cand[0] as int, cand[t] as int));
    }
    assert forall|i: int| 0 <= i < seeds.len() implies dt[(#[trigger] seeds[i]) as int] >= min_dt && comp[
    seeds[i] as int] by {
        assert(seeds[i] == cand[at[i]]);
    }
}

/// The flood takes the deepest cell first: of the seeds and the members that touch a
/// cell taken before, it takes the deepest that is not taken yet, and of equally
/// deep ones the first row by row. The order is returned.
pub proof fn flooding_takes_the_deepest_first(
    comp: Seq<bool>,
    dt: Seq<i32>,
    cw: int,
    seeds: Seq<u32>,
    labels: Seq<i32>,
) -> (pops: Seq<usize>)
    requires
        is_watershed(comp, dt, cw, seeds, labels),
    ensures
        forall|n: int, c: int|
            #![trigger pops[n], is_pending(comp, cw, seeds, pops, n, c)]
            0 <= n < pops.len() && is_pending(comp, cw, seeds, pops, n, c) ==> dt[pops[n] as int] > dt[c] || (
            dt[pops[n] as int] == dt[c] && pops[n] <= c),
        forall|i: int|
            0 <= i < seeds.len() && seeds[i] < comp.len() ==> exists|n: int|
                0 <= n < pops.len() && #[trigger] pops[n] == #[trigger] seeds[i],
{
    let pops = choose|pops: Seq<usize>| #[trigger]
        is_flooding(comp, dt, cw, seeds, pops) && forall|c: int|
            0 <= c < comp.len() ==> #[trigger] label_is(comp, cw, seeds, pops, pops.len() as int, labels, c);
    assert forall|n: int, c: int|
        #![trigger pops[n], is_pending(comp, cw, seeds, pops, n, c)]
        0 <= n < pops.len() && is_pending(comp, cw, seeds, pops, n, c) implies dt[pops[n] as int] > dt[c] || (
    dt[pops[n] as int] == dt[c] && pops[n] <= c) by {
        if c != pops[n] {
            assert(stronger(dt, pops[n] as int, c));
        }
    }
    assert forall|i: int| 0 <= i < seeds.len() && seeds[i] < comp.len() implies exists|n: int|
        0 <= n < pops.len() && #[trigger] pops[n] == #[trigger] seeds[i] by {
        let c = seeds[i] as int;
        assert(is_seed(seeds, c));
        assert(!is_pending(comp, cw, seeds, pops, pops.len() as int, c));
        assert(is_popped(pops, pops.len() as int, c));
    }
    pops
}

} // verus!
