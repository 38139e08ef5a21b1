//! Union-find over positions, with the least position of a set as its root.
use vstd::prelude::*;

verus! {

/// Every entry points at itself or at an earlier position.
pub open spec fn uf_wf(p: Seq<usize>) -> bool {
    forall|i: int| 0 <= i < p.len() ==> #[trigger] p[i] <= i
}

/// The representative of position `i`.
pub open spec fn uf_root(p: Seq<usize>, i: int) -> int
    decreases i,
{
    if 0 <= i < p.len() && p[i] < i {
        uf_root(p, p[i] as int)
    } else {
        i
    }
}

/// The roots after the sets of `a` and `b` have been joined in `p`.
pub open spec fn uf_joined(p: Seq<usize>, q: Seq<usize>, a: int, b: int) -> bool {
    let ra = uf_root(p, a);
    let rb = uf_root(p, b);
    let lo = if ra < rb {
        ra
    } else {
        rb
    };
    forall|j: int|
        0 <= j < p.len() ==> #[trigger] uf_root(q, j) == (if uf_root(p, j) == ra || uf_root(p, j) == rb {
            lo
        } else {
            uf_root(p, j)
        })
}

pub proof fn lemma_root_bounds(p: Seq<usize>, i: int)
    requires
        uf_wf(p),
        0 <= i < p.len(),
    ensures
        0 <= uf_root(p, i) <= i,
        p[uf_root(p, i)] == uf_root(p, i),
        uf_root(p, uf_root(p, i)) == uf_root(p, i),
        uf_root(p, p[i] as int) == uf_root(p, i),
    decreases i,
{
    if p[i] < i {
        lemma_root_bounds(p, p[i] as int);
    }
}

/// Redirecting one position within its own set keeps every root.
proof fn lemma_halve(p: Seq<usize>, i: int, to: usize, j: int)
    requires
        uf_wf(p),
        0 <= i < p.len(),
        0 <= j < p.len(),
        to <= i,
        to < i || p[i] == i,
        uf_root(p, to as int) == uf_root(p, i),
    ensures
        uf_wf(p.update(i, to)),
        uf_root(p.update(i, to), j) == uf_root(p, j),
    decreases j,
{
    let q = p.update(i, to);
    assert(uf_wf(q));
    if j == i {
        if to < i {
            lemma_halve(p, i, to, to as int);
        } else {
            assert(q[j] == j);
        }
    } else if p[j] < j {
        lemma_halve(p, i, to, p[j] as int);
    }
}

/// The representative of `i`, shortening the way to it for later calls.
pub fn uf_find(parent: &mut Vec<usize>, i: usize) -> (r: usize)
    requires
        uf_wf(old(parent)@),
        i < old(parent)@.len(),
    ensures
        r == uf_root(old(parent)@, i as int),
        r <= i,
        final(parent)@.len() == old(parent)@.len(),
        uf_wf(final(parent)@),
        forall|j: int|
            0 <= j < old(parent)@.len() ==> #[trigger] uf_root(final(parent)@, j) == uf_root(
                old(parent)@,
                j,
            ),
{
    let mut at: usize = i;
    let ghost p0 = parent@;
    while parent[at] != at
        invariant
            at <= i < parent@.len(),
            parent@.len() == p0.len(),
            uf_wf(parent@),
            forall|j: int| 0 <= j < p0.len() ==> #[trigger] uf_root(parent@, j) == uf_root(p0, j),
            uf_root(p0, at as int) == uf_root(p0, i as int),
        decreases at,
    {
        let up: usize = parent[at];
        let upup: usize = parent[up];
        let ghost p1 = parent@;
        proof {
            lemma_root_bounds(p1, at as int);
            lemma_root_bounds(p1, up as int);
        }
        parent.set(at, upup);
        proof {
            assert forall|j: int| 0 <= j < p0.len() implies #[trigger] uf_root(parent@, j)
                == uf_root(p0, j) by {
                lemma_halve(p1, at as int, upup, j);
                assert(uf_root(p1, j) == uf_root(p0, j));
            }
            lemma_halve(p1, at as int, upup, at as int);
            assert(uf_root(p1, upup as int) == uf_root(p0, upup as int));
        }
        at = upup;
    }
    proof {
        assert(uf_root(parent@, at as int) == at);
    }
    at
}

proof fn lemma_join(p: Seq<usize>, lo: int, hi: int, j: int)
    requires
        uf_wf(p),
        0 <= lo < hi < p.len(),
        p[lo] == lo,
        p[hi] == hi,
        0 <= j < p.len(),
    ensures
        uf_wf(p.update(hi, lo as usize)),
        uf_root(p.update(hi, lo as usize), j) == (if uf_root(p, j) == hi {
            lo
        } else {
            uf_root(p, j)
        }),
    decreases j,
{
    let q = p.update(hi, lo as usize);
    assert(uf_wf(q));
    if j == hi {
        assert(uf_root(q, lo) == lo);
    } else if p[j] < j {
        lemma_join(p, lo, hi, p[j] as int);
    }
}

/// Joins the sets of `a` and `b`; the smaller root becomes the root of both.
pub fn uf_union(parent: &mut Vec<usize>, a: usize, b: usize)
    requires
        uf_wf(old(parent)@),
        a < old(parent)@.len(),
        b < old(parent)@.len(),
    ensures
        final(parent)@.len() == old(parent)@.len(),
        uf_wf(final(parent)@),
        uf_joined(old(parent)@, final(parent)@, a as int, b as int),
{
    let ghost p0 = parent@;
    let ra: usize = uf_find(parent, a);
    let rb: usize = uf_find(parent, b);
    let ghost p1 = parent@;
    proof {
        lemma_root_bounds(p1, a as int);
        lemma_root_bounds(p1, b as int);
        assert(uf_root(p1, a as int) == uf_root(p0, a as int));
        assert(uf_root(p1, b as int) == uf_root(p0, b as int));
    }
    if ra == rb {
        assert forall|j: int| 0 <= j < p0.len() implies #[trigger] uf_root(p1, j) == uf_root(p0, j) by {}
        return;
    }
    let (lo, hi): (usize, usize) = if ra < rb {
        (ra, rb)
    } else {
        (rb, ra)
    };
    parent.set(hi, lo);
    proof {
        assert forall|j: int| 0 <= j < p0.len() implies #[trigger] uf_root(parent@, j) == (if uf_root(
            p0,
            j,
        ) == ra || uf_root(p0, j) == rb {
            lo as int
        } else {
            uf_root(p0, j)
        }) by {
            lemma_join(p1, lo as int, hi as int, j);
            assert(uf_root(p1, j) == uf_root(p0, j));
        }
    }
}

} // verus!
