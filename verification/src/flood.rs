//! Flood filling over the 4- or 8-neighbourhood of a row-major grid.
use vstd::prelude::*;
use crate::connect;
use crate::counting;

verus! {

/// Positions `a` and `b` are 4-neighbours in a grid `cw` cells wide.
pub open spec fn adj4(cw: int, a: int, b: int) -> bool {
    ||| b == a + 1 && a % cw + 1 < cw
    ||| b == a - 1 && a % cw > 0
    ||| b == a + cw
    ||| b == a - cw
}

/// Positions `a` and `b` touch at a corner.
pub open spec fn adj_corner(cw: int, a: int, b: int) -> bool {
    ||| b == a + cw + 1 && a % cw + 1 < cw
    ||| b == a - cw + 1 && a % cw + 1 < cw
    ||| b == a + cw - 1 && a % cw > 0
    ||| b == a - cw - 1 && a % cw > 0
}

/// Positions `a` and `b` are 4-neighbours, or 8-neighbours when `diag` is set.
pub open spec fn adj(cw: int, diag: bool, a: int, b: int) -> bool {
    adj4(cw, a, b) || (diag && adj_corner(cw, a, b))
}

/// A step between neighbouring open cells.
pub open spec fn step(cw: int, diag: bool, open: Seq<bool>) -> spec_fn(int, int) -> bool {
    |a: int, b: int|
        0 <= a < open.len() && 0 <= b < open.len() && open[a] && open[b] && adj(cw, diag, a, b)
}

/// A side step between open cells.
pub open spec fn step4(cw: int, open: Seq<bool>) -> spec_fn(int, int) -> bool {
    step(cw, false, open)
}

/// A side or corner step between open cells.
pub open spec fn step8(cw: int, open: Seq<bool>) -> spec_fn(int, int) -> bool {
    step(cw, true, open)
}

/// Cell `k` can be reached from one of the seeds through open cells.
pub open spec fn from_seeds(cw: int, diag: bool, open: Seq<bool>, seeds: Seq<usize>, k: int) -> bool {
    exists|i: int|
        0 <= i < seeds.len() && connect::reaches(
            step(cw, diag, open),
            #[trigger] seeds[i] as int,
            k,
        )
}

/// No step leads out of the marked cells.
pub open spec fn closed(cw: int, diag: bool, open: Seq<bool>, seen: Seq<bool>) -> bool {
    forall|a: int, b: int| #[trigger] step(cw, diag, open)(a, b) && seen[a] ==> seen[b]
}

/// Every step from cell `a` leads to a marked cell.
spec fn expanded(cw: int, diag: bool, open: Seq<bool>, seen: Seq<bool>, a: int) -> bool {
    forall|b: int| #[trigger] step(cw, diag, open)(a, b) ==> seen[b]
}

spec fn unseen(seen: Seq<bool>) -> spec_fn(int) -> bool {
    |k: int| !seen[k]
}

/// What holds while the fill runs: which cells are marked, and why.
spec fn filling(
    cw: int,
    diag: bool,
    open: Seq<bool>,
    seen0: Seq<bool>,
    seeds: Seq<usize>,
    seen: Seq<bool>,
    region: Seq<usize>,
    head: int,
) -> bool {
    &&& seen.len() == open.len()
    &&& seen0.len() == open.len()
    &&& 0 <= head <= region.len()
    &&& forall|k: int| 0 <= k < open.len() && #[trigger] seen0[k] ==> seen[k]
    &&& forall|i: int|
        0 <= i < region.len() ==> (#[trigger] region[i]) < open.len() && seen[region[i] as int]
            && !seen0[region[i] as int] && open[region[i] as int] && from_seeds(cw, diag, open,
            seeds,
            region[i] as int,
        )
    &&& forall|k: int|
        0 <= k < open.len() && #[trigger] seen[k] && !seen0[k] ==> region.contains(k as usize)
    &&& forall|i: int| 0 <= i < head ==> expanded(cw, diag, open, seen, #[trigger] region[i] as int)
}

/// Marks cell `k` and queues it, when it is open and not marked yet.
fn visit(
    cw: usize,
    diag: bool,
    open: &Vec<bool>,
    seen: &mut Vec<bool>,
    region: &mut Vec<usize>,
    k: usize,
    Ghost(seen0): Ghost<Seq<bool>>,
    Ghost(seeds): Ghost<Seq<usize>>,
    Ghost(head): Ghost<int>,
)
    requires
        filling(cw as int, diag, open@, seen0, seeds, old(seen)@, old(region)@, head),
        k < open@.len(),
        open@[k as int] ==> from_seeds(cw as int, diag, open@, seeds, k as int),
    ensures
        filling(cw as int, diag, open@, seen0, seeds, final(seen)@, final(region)@, head),
        open@[k as int] ==> final(seen)@[k as int],
        forall|j: int| 0 <= j < open@.len() && #[trigger] old(seen)@[j] ==> final(seen)@[j],
        final(region)@.len() >= old(region)@.len(),
        old(region)@ == final(region)@.take(old(region)@.len() as int),
        final(region)@.len() + counting::count_below(unseen(final(seen)@), open@.len() as int)
            == old(region)@.len() + counting::count_below(
            unseen(old(seen)@),
            open@.len() as int,
        ),
{
    let ghost s0 = seen@;
    let ghost r0 = region@;
    if open[k] && !seen[k] {
        seen.set(k, true);
        region.push(k);
        proof {
            counting::count_drop(unseen(s0), unseen(seen@), open@.len() as int, k as int);
            assert forall|j: int|
                0 <= j < open@.len() && #[trigger] seen@[j] && !seen0[j] implies region@.contains(
                j as usize,
            ) by {
                if j == k {
                    assert(region@[r0.len() as int] == k);
                } else {
                    assert(s0[j]);
                    assert(r0.contains(j as usize));
                    let i = choose|i: int| 0 <= i < r0.len() && r0[i] == j as usize;
                    assert(region@[i] == j as usize);
                }
            }
            assert forall|i: int| 0 <= i < head implies expanded(cw as int, diag,
                open@,
                seen@,
                #[trigger] region@[i] as int,
            ) by {
                assert(expanded(cw as int, diag, open@, s0, r0[i] as int));
            }
        }
    }
    assert(region@.take(r0.len() as int) =~= r0);
}

/// `nb` lists exactly the neighbours of cell `a` on a grid of `n` cells.
pub open spec fn lists_neighbours(cw: int, diag: bool, n: int, a: int, nb: Seq<usize>) -> bool {
    &&& forall|i: int|
        0 <= i < nb.len() ==> (#[trigger] nb[i]) < n && adj(cw, diag, a, nb[i] as int)
    &&& forall|b: int|
        0 <= b < n && adj(cw, diag, a, b) ==> #[trigger] nb.contains(b as usize)
}

/// The neighbours of cell `a`.
pub fn neighbours(cw: usize, ch: usize, diag: bool, a: usize) -> (nb: Vec<usize>)
    requires
        0 < cw,
        a < cw * ch <= usize::MAX,
    ensures
        lists_neighbours(cw as int, diag, cw * ch, a as int, nb@),
        forall|i: int, j: int| 0 <= i < j < nb@.len() ==> #[trigger] nb@[i] < #[trigger] nb@[j],
        nb@.len() <= 8,
{
    let n: usize = cw * ch;
    let x: usize = a % cw;
    proof {
        corner_room(cw as int, ch as int, a as int);
        if a == 0 {
            assert(0int % (cw as int) == 0) by (nonlinear_arith)
                requires
                    0 < cw,
            ;
        }
        if x + 1 < cw {
            row_room(cw as int, ch as int, a as int);
        }
    }
    let left: bool = x > 0;
    let right: bool = x < cw - 1;
    let up: bool = a >= cw;
    let down: bool = n - a > cw;
    let mut nb: Vec<usize> = Vec::new();
    if diag && left && up {
        nb.push(a - cw - 1);
    }
    if up {
        nb.push(a - cw);
    }
    if diag && right && up {
        nb.push(a - cw + 1);
    }
    if left {
        nb.push(a - 1);
    }
    if right {
        nb.push(a + 1);
    }
    if diag && left && down {
        nb.push(a + cw - 1);
    }
    if down {
        nb.push(a + cw);
    }
    if diag && right && down {
        nb.push(a + cw + 1);
    }
    proof {
        let lu: int = if diag && left && up {
            1
        } else {
            0
        };
        let u: int = lu + if up {
            1int
        } else {
            0
        };
        let ru: int = u + if diag && right && up {
            1int
        } else {
            0
        };
        let l: int = ru + if left {
            1int
        } else {
            0
        };
        let r: int = l + if right {
            1int
        } else {
            0
        };
        let ld: int = r + if diag && left && down {
            1int
        } else {
            0
        };
        let d: int = ld + if down {
            1int
        } else {
            0
        };
        assert(lu == 1 ==> nb@[0] == a - cw - 1);
        assert(u > lu ==> nb@[lu] == a - cw);
        assert(ru > u ==> nb@[u] == a - cw + 1);
        assert(l > ru ==> nb@[ru] == a - 1);
        assert(r > l ==> nb@[l] == a + 1);
        assert(ld > r ==> nb@[r] == a + cw - 1);
        assert(d > ld ==> nb@[ld] == a + cw);
        assert(diag && right && down ==> nb@[d] == a + cw + 1);
        assert forall|b: int| 0 <= b < n && adj(cw as int, diag, a as int, b) implies
            #[trigger] nb@.contains(b as usize) by {
            let k = if b == a - cw - 1 && left {
                0
            } else if b == a - cw {
                lu
            } else if b == a - cw + 1 && right {
                u
            } else if b == a - 1 && left {
                ru
            } else if b == a + 1 && right {
                l
            } else if b == a + cw - 1 && left {
                r
            } else if b == a + cw {
                ld
            } else {
                d
            };
            if cw == 1 {
                assert(x == 0);
            }
            assert(nb@[k] == b);
        }
    }
    nb
}

/// Marks every cell that can be reached from `seeds` through open cells, and
/// returns the newly marked ones.
pub fn flood(cw: usize, ch: usize, diag: bool, open: &Vec<bool>, seen: &mut Vec<bool>, seeds: &Vec<usize>) -> (r: Vec<usize>)
    requires
        0 < cw,
        open@.len() == cw * ch,
        old(seen)@.len() == open@.len(),
        closed(cw as int, diag, open@, old(seen)@),
        forall|i: int|
            0 <= i < seeds@.len() ==> (#[trigger] seeds@[i]) < open@.len()
                && open@[seeds@[i] as int],
    ensures
        final(seen)@.len() == old(seen)@.len(),
        forall|k: int|
            0 <= k < open@.len() ==> #[trigger] final(seen)@[k] == (old(seen)@[k] || from_seeds(cw as int, diag,
                open@,
                seeds@,
                k,
            )),
        forall|i: int| 0 <= i < r@.len() ==> (#[trigger] r@[i]) < open@.len(),
        forall|k: int|
            0 <= k < open@.len() ==> (#[trigger] r@.contains(k as usize) <==> (final(seen)@[k]
                && !old(seen)@[k])),
{
    let ghost seen0 = seen@;
    let ghost sd = seeds@;
    let n: usize = open.len();
    let mut region: Vec<usize> = Vec::new();
    let mut i: usize = 0;
    while i < seeds.len()
        invariant
            i <= seeds@.len(),
            sd == seeds@,
            filling(cw as int, diag, open@, seen0, sd, seen@, region@, 0),
            forall|j: int|
                0 <= j < sd.len() ==> (#[trigger] sd[j]) < open@.len() && open@[sd[j] as int],
            forall|j: int| 0 <= j < i ==> seen@[#[trigger] sd[j] as int],
        decreases seeds@.len() - i,
    {
        let k: usize = seeds[i];
        proof {
            connect::reaches_self(step(cw as int, diag, open@), k as int);
            assert(from_seeds(cw as int, diag, open@, sd, sd[i as int] as int));
        }
        visit(cw, diag, open, seen, &mut region, k, Ghost(seen0), Ghost(sd), Ghost(0));
        i = i + 1;
    }
    let mut head: usize = 0;
    while head < region.len()
        invariant
            0 < cw,
            open@.len() == cw * ch,
            n == open@.len(),
            closed(cw as int, diag, open@, seen0),
            filling(cw as int, diag, open@, seen0, sd, seen@, region@, head as int),
            forall|j: int|
                0 <= j < sd.len() ==> (#[trigger] sd[j]) < open@.len() && open@[sd[j] as int],
            forall|j: int| 0 <= j < sd.len() ==> seen@[#[trigger] sd[j] as int],
        decreases
                region@.len() + counting::count_below(unseen(seen@), open@.len() as int) - head,
    {
        let a: usize = region[head];
        let ghost reg0 = region@;
        let ghost seen1 = seen@;
        let nb = neighbours(cw, ch, diag, a);
        let mut i: usize = 0;
        while i < nb.len()
            invariant
                i <= nb@.len(),
                0 < cw,
                n == open@.len(),
                head < reg0.len(),
                reg0[head as int] == a,
                a < n,
                open@[a as int],
                from_seeds(cw as int, diag, open@, sd, a as int),
                lists_neighbours(cw as int, diag, n as int, a as int, nb@),
                filling(cw as int, diag, open@, seen0, sd, seen@, region@, head as int),
                reg0.len() <= region@.len(),
                reg0 == region@.take(reg0.len() as int),
                forall|k: int| 0 <= k < n && #[trigger] seen1[k] ==> seen@[k],
                forall|k: int|
                    0 <= k < i && open@[#[trigger] nb@[k] as int] ==> seen@[nb@[k] as int],
                region@.len() + counting::count_below(unseen(seen@), n as int) == reg0.len()
                    + counting::count_below(unseen(seen1), n as int),
            decreases nb@.len() - i,
        {
            let b: usize = nb[i];
            let ghost reg1 = region@;
            proof {
                if open@[b as int] {
                    assert(step(cw as int, diag, open@)(a as int, b as int));
                    let j = choose|j: int|
                        0 <= j < sd.len() && connect::reaches(
                            step(cw as int, diag, open@),
                            #[trigger] sd[j] as int,
                            a as int,
                        );
                    connect::reaches_step(
                        step(cw as int, diag, open@),
                        sd[j] as int,
                        a as int,
                        b as int,
                    );
                    assert(connect::reaches(
                        step(cw as int, diag, open@),
                        sd[j] as int,
                        b as int,
                    ));
                }
            }
            visit(cw, diag, open, seen, &mut region, b, Ghost(seen0), Ghost(sd), Ghost(head as int));
            proof {
                assert(region@.take(reg0.len() as int) =~= reg1.take(reg0.len() as int)) by {
                    assert forall|k: int| 0 <= k < reg0.len() implies region@[k] == reg1[k] by {
                        assert(region@.take(reg1.len() as int)[k] == reg1[k]);
                    }
                }
            }
            i = i + 1;
        }
        proof {
            assert(region@[head as int] == a) by {
                assert(region@.take(reg0.len() as int)[head as int] == a);
            }
            assert forall|b: int| #[trigger] step(cw as int, diag, open@)(a as int, b) implies seen@[b] by {
                assert(nb@.contains(b as usize));
                let k = choose|k: int| 0 <= k < nb@.len() && nb@[k] == b as usize;
                assert(open@[nb@[k] as int]);
            }
            assert(expanded(cw as int, diag, open@, seen@, a as int));
            assert forall|i: int| 0 <= i < head + 1 implies expanded(
                cw as int,
                diag,
                open@,
                seen@,
                #[trigger] region@[i] as int,
            ) by {}
            counting::count_bounds(unseen(seen@), open@.len() as int);
        }
        head = head + 1;
    }
    proof {
        assert forall|a: int, b: int| #[trigger]
            step(cw as int, diag, open@)(a, b) && seen@[a] implies seen@[b] by {
            if seen0[a] {
                assert(seen0[b]);
            } else {
                assert(region@.contains(a as usize));
                let i = choose|i: int| 0 <= i < region@.len() && region@[i] == a as usize;
                assert(expanded(cw as int, diag, open@, seen@, region@[i] as int));
            }
        }
        assert forall|k: int| 0 <= k < open@.len() implies #[trigger] seen@[k] == (seen0[k]
            || from_seeds(cw as int, diag, open@, sd, k)) by {
            if seen@[k] && !seen0[k] {
                assert(region@.contains(k as usize));
                let i = choose|i: int| 0 <= i < region@.len() && region@[i] == k as usize;
                assert(from_seeds(cw as int, diag, open@, sd, region@[i] as int));
            }
            if from_seeds(cw as int, diag, open@, sd, k) {
                let j = choose|j: int|
                    0 <= j < sd.len() && connect::reaches(
                        step(cw as int, diag, open@),
                        #[trigger] sd[j] as int,
                        k,
                    );
                connect::reaches_keeps(
                    step(cw as int, diag, open@),
                    |q: int| 0 <= q < open@.len() && seen@[q],
                    sd[j] as int,
                    k,
                );
            }
        }
        assert forall|k: int| 0 <= k < open@.len() implies (#[trigger] region@.contains(k as usize)
            <==> (seen@[k] && !seen0[k])) by {
            if region@.contains(k as usize) {
                let i = choose|i: int| 0 <= i < region@.len() && region@[i] == k as usize;
                assert(seen@[region@[i] as int]);
            }
            if seen@[k] && !seen0[k] {
                assert(region@.contains(k as usize));
            }
        }
    }
    region
}

/// A cell that is not last in its row has a right neighbour on the grid.
pub proof fn row_room(cw: int, ch: int, a: int)
    requires
        0 < cw,
        0 <= a < cw * ch,
        a % cw + 1 < cw,
    ensures
        a + 1 < cw * ch,
{
    assert(a + 1 < cw * ch) by (nonlinear_arith)
        requires
            0 < cw,
            0 <= a < cw * ch,
            a % cw + 1 < cw,
    ;
}

/// Where the corner neighbours of a cell lie on the grid.
pub proof fn corner_room(cw: int, ch: int, a: int)
    requires
        0 < cw,
        0 <= a < cw * ch,
    ensures
        a % cw > 0 && a >= cw ==> a - cw - 1 >= 0,
        a % cw + 1 < cw && a + cw < cw * ch ==> a + cw + 1 < cw * ch,
        a % cw > 0 && a < cw ==> a - cw + 1 <= 0,
        a - cw - 1 >= 0 ==> a >= cw,
        a % cw + 1 < cw && a - cw + 1 >= 0 ==> a >= cw,
        a % cw > 0 && a + cw - 1 < cw * ch ==> a + cw < cw * ch,
{
    mod_parts(cw, ch, a);
    let q = a / cw;
    let r = a % cw;
    // a == q * cw + r
    if a >= cw {
        assert(q >= 1) by (nonlinear_arith)
            requires
                a == q * cw + r,
                0 <= r < cw,
                a >= cw,
                0 < cw,
        ;
        assert(q * cw >= cw) by (nonlinear_arith)
            requires
                q >= 1,
                0 < cw,
        ;
    } else {
        assert(q == 0) by (nonlinear_arith)
            requires
                a == q * cw + r,
                0 <= r < cw,
                0 <= a < cw,
                0 < cw,
        ;
        assert(q * cw == 0) by (nonlinear_arith)
            requires
                q == 0,
        ;
    }
    if a + cw < cw * ch {
        assert(q + 2 <= ch) by (nonlinear_arith)
            requires
                a == q * cw + r,
                0 <= r < cw,
                a + cw < cw * ch,
                0 < cw,
        ;
        assert(q * cw + 2 * cw <= cw * ch) by (nonlinear_arith)
            requires
                q + 2 <= ch,
                0 < cw,
        ;
    } else {
        assert(q + 1 >= ch) by (nonlinear_arith)
            requires
                a == q * cw + r,
                0 <= r < cw,
                a + cw >= cw * ch,
                0 < cw,
        ;
        assert(q * cw + cw >= cw * ch) by (nonlinear_arith)
            requires
                q + 1 >= ch,
                0 < cw,
        ;
    }
}

proof fn mod_parts(cw: int, ch: int, a: int)
    requires
        0 < cw,
        0 <= a < cw * ch,
    ensures
        a == (a / cw) * cw + a % cw,
        0 <= a % cw < cw,
{
    assert(a == (a / cw) * cw + a % cw && 0 <= a % cw < cw) by (nonlinear_arith)
        requires
            0 < cw,
    ;
}

/// A step can be taken back.
pub proof fn step_sym(cw: int, diag: bool, open: Seq<bool>, x: int, y: int)
    requires
        0 < cw,
        step(cw, diag, open)(x, y),
    ensures
        step(cw, diag, open)(y, x),
{
    assert(x % cw + 1 < cw ==> (x + 1) % cw == x % cw + 1) by (nonlinear_arith)
        requires
            0 < cw,
            0 <= x,
    ;
    assert(x % cw > 0 ==> (x - 1) % cw == x % cw - 1) by (nonlinear_arith)
        requires
            0 < cw,
            0 <= x,
    ;
    vstd::arithmetic::div_mod::lemma_mod_add_multiples_vanish(x + 1, cw);
    vstd::arithmetic::div_mod::lemma_mod_sub_multiples_vanish(x + 1, cw);
    vstd::arithmetic::div_mod::lemma_mod_add_multiples_vanish(x - 1, cw);
    vstd::arithmetic::div_mod::lemma_mod_sub_multiples_vanish(x - 1, cw);
}

proof fn small_multiple(k: int, cw: int, d: int)
    requires
        k * cw == d,
        -cw < d < cw,
    ensures
        k == 0,
        d == 0,
{
    assert(k == 0) by (nonlinear_arith)
        requires
            k * cw == d,
            -cw < d < cw,
    ;
}

/// Two cells are neighbours exactly where neither column nor row differs by more
/// than one, they are not the same, and, without diagonals, one of the two agrees.
pub proof fn neighbours_differ_by_one(cw: int, diag: bool, ax: int, ay: int, bx: int, by: int)
    requires
        0 <= ax < cw,
        0 <= bx < cw,
        0 <= ay,
        0 <= by,
    ensures
        adj(cw, diag, ay * cw + ax, by * cw + bx) == (-1 <= bx - ax <= 1 && -1 <= by - ay <= 1 && (ax != bx || ay
            != by) && (diag || ax == bx || ay == by)),
{
    let a = ay * cw + ax;
    let b = by * cw + bx;
    let k = by - ay;
    let d = bx - ax;
    assert(a % cw == ax) by (nonlinear_arith)
        requires
            a == ay * cw + ax,
            0 <= ax < cw,
    ;
    assert(b - a == k * cw + d && (k - 1) * cw == k * cw - cw && (k + 1) * cw == k * cw + cw) by (nonlinear_arith)
        requires
            a == ay * cw + ax,
            b == by * cw + bx,
            k == by - ay,
            d == bx - ax,
    ;
    if adj(cw, diag, a, b) {
        if b == a + 1 && ax + 1 < cw {
            small_multiple(k, cw, 1 - d);
        } else if b == a - 1 && ax > 0 {
            small_multiple(k, cw, -1 - d);
        } else if b == a + cw {
            small_multiple(k - 1, cw, -d);
        } else if b == a - cw {
            small_multiple(k + 1, cw, -d);
        } else if b == a + cw + 1 && ax + 1 < cw {
            small_multiple(k - 1, cw, 1 - d);
        } else if b == a - cw + 1 && ax + 1 < cw {
            small_multiple(k + 1, cw, 1 - d);
        } else if b == a + cw - 1 && ax > 0 {
            small_multiple(k - 1, cw, -1 - d);
        } else {
            small_multiple(k + 1, cw, -1 - d);
        }
    }
    if -1 <= d <= 1 && -1 <= k <= 1 {
        assert(k == -1 || k == 0 || k == 1);
        assert(k == 0 ==> k * cw == 0) by (nonlinear_arith);
        assert(k == 1 ==> k * cw == cw) by (nonlinear_arith);
        assert(k == -1 ==> k * cw == -cw) by (nonlinear_arith);
    }
}

} // verus!
