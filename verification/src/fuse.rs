//! One merge round: every pair is judged from the same snapshot, and the
//! accepted pairs join their components.
use vstd::prelude::*;
use crate::connect;
use crate::counting;
use crate::geometry::IconGroup;
use crate::group;
use crate::merge;
use crate::merge::{MergeContext, MergeRule, PairVerdict};
use crate::nearby;
use crate::nearby::SpatialHash;
use crate::split;
use crate::sorting;
use crate::sorting::SortKey;
use crate::union_find;

verus! {

// ---- accepted pairs -----------------------------------------------------------------

/// An accepted pair, the earlier position first.
#[derive(Clone, Copy, Debug, PartialEq, Eq, Structural)]
pub struct Edge {
    /// Earlier position.
    pub a: usize,
    /// Later position.
    pub b: usize,
    /// Why it was accepted.
    pub rule: MergeRule,
}

/// The accepted pairs of position `i` with positions `i + 1..j`.
pub open spec fn row_edges(gs: Seq<IconGroup>, c: MergeContext, i: int, j: int) -> Seq<Edge>
    decreases j - i,
{
    if j <= i + 1 {
        Seq::empty()
    } else {
        match merge::verdict_of(gs[i], gs[j - 1], c) {
            PairVerdict::Merge(rule) => row_edges(gs, c, i, j - 1).push(
                Edge { a: i as usize, b: (j - 1) as usize, rule },
            ),
            _ => row_edges(gs, c, i, j - 1),
        }
    }
}

/// The accepted pairs whose first position is below `n`, in order.
pub open spec fn edges_upto(gs: Seq<IconGroup>, c: MergeContext, n: int) -> Seq<Edge>
    decreases n,
{
    if n <= 0 {
        Seq::empty()
    } else {
        edges_upto(gs, c, n - 1) + row_edges(gs, c, n - 1, gs.len() as int)
    }
}

/// All accepted pairs, in order.
pub open spec fn edges_of(gs: Seq<IconGroup>, c: MergeContext) -> Seq<Edge> {
    edges_upto(gs, c, gs.len() as int)
}

/// Partners of `i` that get verdict `v`.
pub open spec fn judged(gs: Seq<IconGroup>, c: MergeContext, i: int, v: PairVerdict) -> spec_fn(int) -> bool {
    |j: int| i < j && merge::verdict_of(gs[i], gs[j], c) == v
}

/// How many partners of `i` get verdict `v`.
pub open spec fn judged_in_row(gs: Seq<IconGroup>, c: MergeContext, v: PairVerdict) -> spec_fn(int) -> int {
    |i: int| counting::count_below(judged(gs, c, i, v), gs.len() as int)
}

/// How many pairs get verdict `v`.
pub open spec fn judged_count(gs: Seq<IconGroup>, c: MergeContext, v: PairVerdict) -> int {
    counting::sum_below(judged_in_row(gs, c, v), gs.len() as int)
}

/// Partners between `j` and `k` are apart from `i`, so they change nothing.
proof fn row_skip(gs: Seq<IconGroup>, c: MergeContext, i: int, j: int, k: int)
    requires
        0 <= i < j <= k <= gs.len(),
        forall|t: int|
            j <= t < k ==> #[trigger] merge::verdict_of(gs[i], gs[t], c) == PairVerdict::Apart,
    ensures
        row_edges(gs, c, i, k) == row_edges(gs, c, i, j),
        counting::count_below(judged(gs, c, i, PairVerdict::TooLong), k) == counting::count_below(
            judged(gs, c, i, PairVerdict::TooLong),
            j,
        ),
        counting::count_below(judged(gs, c, i, PairVerdict::TooTall), k) == counting::count_below(
            judged(gs, c, i, PairVerdict::TooTall),
            j,
        ),
    decreases k - j,
{
    if j < k {
        row_skip(gs, c, i, j, k - 1);
        assert(merge::verdict_of(gs[i], gs[k - 1], c) == PairVerdict::Apart);
    }
}

/// Judges position `i` against its later candidates.
fn scan_row(gs: &Vec<IconGroup>, i: usize, near: &Vec<usize>, c: &MergeContext, edges: &mut Vec<Edge>) -> (r: (u64, u64))
    requires
        i < gs@.len() <= split::MAX_GROUPS,
        nearby::boxes_ok(gs@),
        merge::context_ok(*c),
        forall|s: int, t: int| 0 <= s < t < near@.len() ==> #[trigger] near@[s] < #[trigger] near@[t],
        forall|t: int| 0 <= t < near@.len() ==> #[trigger] near@[t] < gs@.len(),
        forall|k: int|
            0 <= k < gs@.len() && #[trigger] merge::gap_of(gs@[i as int].bbox, gs@[k].bbox) * 2000
                <= c.gap ==> near@.contains(k as usize),
    ensures
        final(edges)@ == old(edges)@ + row_edges(gs@, *c, i as int, gs@.len() as int),
        r.0 == counting::count_below(
            judged(gs@, *c, i as int, PairVerdict::TooLong),
            gs@.len() as int,
        ),
        r.1 == counting::count_below(
            judged(gs@, *c, i as int, PairVerdict::TooTall),
            gs@.len() as int,
        ),
        r.0 <= gs@.len(),
        r.1 <= gs@.len(),
{
    let n: usize = gs.len();
    let ghost e0 = edges@;
    let ghost long_f = judged(gs@, *c, i as int, PairVerdict::TooLong);
    let ghost tall_f = judged(gs@, *c, i as int, PairVerdict::TooTall);
    let mut long: u64 = 0;
    let mut tall: u64 = 0;
    let mut done: usize = i + 1;
    proof {
        counting::count_span(long_f, 0, done as int, false);
        counting::count_span(tall_f, 0, done as int, false);
        assert(e0 + Seq::<Edge>::empty() =~= e0);
    }
    let mut t: usize = 0;
    while t < near.len()
        invariant
            t <= near@.len(),
            i < done <= n,
            n == gs@.len(),
            n <= split::MAX_GROUPS,
            nearby::boxes_ok(gs@),
            merge::context_ok(*c),
            long_f == judged(gs@, *c, i as int, PairVerdict::TooLong),
            tall_f == judged(gs@, *c, i as int, PairVerdict::TooTall),
            forall|a: int, b: int|
                0 <= a < b < near@.len() ==> #[trigger] near@[a] < #[trigger] near@[b],
            forall|a: int| 0 <= a < near@.len() ==> #[trigger] near@[a] < gs@.len(),
            forall|k: int|
                0 <= k < gs@.len() && #[trigger] merge::gap_of(gs@[i as int].bbox, gs@[k].bbox)
                    * 2000 <= c.gap ==> near@.contains(k as usize),
            forall|a: int| 0 <= a < t ==> #[trigger] near@[a] < done,
            done == i + 1 || (t > 0 && done == near@[t - 1] + 1),
            edges@ == e0 + row_edges(gs@, *c, i as int, done as int),
            long == counting::count_below(long_f, done as int),
            tall == counting::count_below(tall_f, done as int),
            long <= done,
            tall <= done,
        decreases near@.len() - t,
    {
        let j: usize = near[t];
        if j > i {
            proof {
                assert forall|k: int| done <= k < j implies #[trigger] merge::verdict_of(
                    gs@[i as int],
                    gs@[k],
                    *c,
                ) == PairVerdict::Apart by {
                    if merge::verdict_of(gs@[i as int], gs@[k], *c) != PairVerdict::Apart {
                        merge::decided_pairs_are_near(gs@[i as int], gs@[k], *c);
                        assert(near@.contains(k as usize));
                        let a = choose|a: int| 0 <= a < near@.len() && near@[a] == k as usize;
                        assert(a >= t);
                        if a > t {
                            assert(near@[t as int] < near@[a]);
                        }
                    }
                }
                if t > 0 {
                    assert(near@[t - 1] < near@[t as int]);
                }
                row_skip(gs@, *c, i as int, done as int, j as int);
                assert(merge::box_ok(gs@[i as int].bbox) && merge::box_ok(gs@[j as int].bbox));
            }
            let verdict = merge::merge_rule(&gs[i], &gs[j], c);
            match verdict {
                PairVerdict::Merge(rule) => {
                    let ghost before = row_edges(gs@, *c, i as int, j as int);
                    edges.push(Edge { a: i, b: j, rule });
                    assert(edges@ =~= e0 + before.push(Edge { a: i, b: j, rule }));
                },
                PairVerdict::TooLong => {
                    long = long + 1;
                },
                PairVerdict::TooTall => {
                    tall = tall + 1;
                },
                PairVerdict::Apart => {},
            }
            done = j + 1;
        } else if t > 0 {
            assert(near@[t - 1] < near@[t as int]);
        }
        t = t + 1;
    }
    proof {
        assert forall|k: int| done <= k < n implies #[trigger] merge::verdict_of(
            gs@[i as int],
            gs@[k],
            *c,
        ) == PairVerdict::Apart by {
            if merge::verdict_of(gs@[i as int], gs@[k], *c) != PairVerdict::Apart {
                merge::decided_pairs_are_near(gs@[i as int], gs@[k], *c);
                assert(near@.contains(k as usize));
                let a = choose|a: int| 0 <= a < near@.len() && near@[a] == k as usize;
                assert(near@[a] < done);
            }
        }
        row_skip(gs@, *c, i as int, done as int, n as int);
    }
    (long, tall)
}

/// All accepted pairs in order, and how many were refused as too long and as
/// too tall.
pub fn accepted_pairs(gs: &Vec<IconGroup>, c: &MergeContext) -> (r: (Vec<Edge>, u64, u64))
    requires
        gs@.len() <= split::MAX_GROUPS,
        nearby::boxes_ok(gs@),
        merge::context_ok(*c),
    ensures
        r.0@ == edges_of(gs@, *c),
        r.1 == judged_count(gs@, *c, PairVerdict::TooLong),
        r.2 == judged_count(gs@, *c, PairVerdict::TooTall),
        r.1 <= gs@.len() * gs@.len(),
        r.2 <= gs@.len() * gs@.len(),
{
    let n: usize = gs.len();
    let hash = SpatialHash::build(gs, 2 * c.gap);
    let mut edges: Vec<Edge> = Vec::new();
    let mut long: u64 = 0;
    let mut tall: u64 = 0;
    let mut i: usize = 0;
    while i < n
        invariant
            i <= n,
            n == gs@.len(),
            n <= split::MAX_GROUPS,
            nearby::boxes_ok(gs@),
            nearby::holds(hash, gs@, gs@.len() as int),
            merge::context_ok(*c),
            edges@ == edges_upto(gs@, *c, i as int),
            long == counting::sum_below(judged_in_row(gs@, *c, PairVerdict::TooLong), i as int),
            tall == counting::sum_below(judged_in_row(gs@, *c, PairVerdict::TooTall), i as int),
            long <= i * n,
            tall <= i * n,
        decreases n - i,
    {
        assert(merge::box_ok(gs@[i as int].bbox));
        let near = hash.candidates(gs, &gs[i].bbox, c.gap);
        let (l, t) = scan_row(gs, i, &near, c, &mut edges);
        assert(i * n + n == (i + 1) * n && (i + 1) * n <= n * n && n * n <= 0x0fff_ffff * 0x0fff_ffff)
            by (nonlinear_arith)
            requires
                i < n <= 0x0fff_ffff,
        ;
        long = long + l;
        tall = tall + t;
        i = i + 1;
    }
    (edges, long, tall)
}

/// Every accepted pair is listed, and only accepted pairs are.
proof fn row_edges_are(gs: Seq<IconGroup>, c: MergeContext, i: int, j: int, n: int)
    requires
        0 <= i < gs.len() <= usize::MAX,
        j <= gs.len(),
    ensures
        forall|t: int|
            0 <= t < row_edges(gs, c, i, j).len() ==> {
                let e = #[trigger] row_edges(gs, c, i, j)[t];
                e.a == i && i < e.b < j && merge::verdict_of(gs[i], gs[e.b as int], c)
                    == PairVerdict::Merge(e.rule)
            },
        forall|k: int|
            i < k < j && #[trigger] merge::verdict_of(gs[i], gs[k], c) is Merge ==> exists|t: int|
                0 <= t < row_edges(gs, c, i, j).len() && (#[trigger] row_edges(gs, c, i, j)[t]).b == k,
    decreases j - i,
{
    if j > i + 1 {
        row_edges_are(gs, c, i, j - 1, n);
        let prev = row_edges(gs, c, i, j - 1);
        let now = row_edges(gs, c, i, j);
        assert forall|k: int| i < k < j && #[trigger] merge::verdict_of(gs[i], gs[k], c) is Merge implies exists|
            t: int,
        | 0 <= t < now.len() && (#[trigger] now[t]).b == k by {
            if k == j - 1 {
                assert(now[now.len() - 1].b == k);
            } else {
                let t = choose|t: int| 0 <= t < prev.len() && (#[trigger] prev[t]).b == k;
                assert(now[t].b == k);
            }
        }
    }
}

/// Edge `e` is an accepted pair of `gs`.
pub open spec fn is_edge(gs: Seq<IconGroup>, c: MergeContext, e: Edge) -> bool {
    e.a < e.b < gs.len() && merge::verdict_of(gs[e.a as int], gs[e.b as int], c) == PairVerdict::Merge(
        e.rule,
    )
}

/// The list names the pair `(i, k)`.
pub open spec fn names_pair(es: Seq<Edge>, i: int, k: int) -> bool {
    exists|t: int| 0 <= t < es.len() && (#[trigger] es[t]).a == i && es[t].b == k
}

/// The listed pairs are exactly the accepted ones.
pub proof fn edges_are_accepted(gs: Seq<IconGroup>, c: MergeContext, n: int)
    requires
        0 <= n <= gs.len() <= usize::MAX,
    ensures
        forall|t: int|
            0 <= t < edges_upto(gs, c, n).len() ==> is_edge(gs, c, #[trigger] edges_upto(gs, c, n)[t]),
        forall|i: int, k: int|
            0 <= i < n && i < k < gs.len() && #[trigger] merge::verdict_of(gs[i], gs[k], c) is Merge
                ==> names_pair(edges_upto(gs, c, n), i, k),
    decreases n,
{
    if n > 0 {
        edges_are_accepted(gs, c, n - 1);
        row_edges_are(gs, c, n - 1, gs.len() as int, gs.len() as int);
        let prev = edges_upto(gs, c, n - 1);
        let row = row_edges(gs, c, n - 1, gs.len() as int);
        let now = edges_upto(gs, c, n);
        assert forall|t: int| 0 <= t < now.len() implies is_edge(gs, c, #[trigger] now[t]) by {
            if t < prev.len() {
                assert(now[t] == prev[t]);
            } else {
                assert(now[t] == row[t - prev.len()]);
            }
        }
        assert forall|i: int, k: int|
            0 <= i < n && i < k < gs.len() && #[trigger] merge::verdict_of(gs[i], gs[k], c) is Merge implies names_pair(
            now,
            i,
            k,
        ) by {
            if i < n - 1 {
                assert(names_pair(prev, i, k));
                let t = choose|t: int|
                    0 <= t < prev.len() && (#[trigger] prev[t]).a == i && prev[t].b == k;
                assert(now[t].a == i && now[t].b == k);
            } else {
                let t = choose|t: int| 0 <= t < row.len() && (#[trigger] row[t]).b == k;
                assert(now[prev.len() + t].a == i && now[prev.len() + t].b == k);
            }
        }
    }
}

// ---- joining ------------------------------------------------------------------------

/// One of the first `k` pairs joins positions `x` and `y`.
pub open spec fn joins(es: Seq<Edge>, k: int, x: int, y: int) -> bool {
    exists|t: int|
        0 <= t < k && (((#[trigger] es[t]).a == x && es[t].b == y) || (es[t].a == y && es[t].b == x))
}

/// The first `k` pairs as a relation.
pub open spec fn link(es: Seq<Edge>, k: int) -> spec_fn(int, int) -> bool {
    |x: int, y: int| joins(es, k, x, y)
}

/// Pair `k` joins two positions that the pairs before it do not.
pub open spec fn is_fresh(es: Seq<Edge>, k: int) -> bool {
    !connect::reaches(link(es, k), es[k].a as int, es[k].b as int)
}

/// Fresh pairs of rule `rule`.
pub open spec fn fresh_by(es: Seq<Edge>, rule: MergeRule) -> spec_fn(int) -> bool {
    |k: int| es[k].rule == rule && is_fresh(es, k)
}

/// Fresh pairs.
pub open spec fn fresh(es: Seq<Edge>) -> spec_fn(int) -> bool {
    |k: int| is_fresh(es, k)
}

/// Sets are the classes of a relation.
pub open spec fn sets_follow(p: Seq<usize>, e: spec_fn(int, int) -> bool) -> bool {
    &&& union_find::uf_wf(p)
    &&& forall|i: int, j: int|
        0 <= i < p.len() && 0 <= j < p.len() ==> ((#[trigger] union_find::uf_root(p, i)
            == #[trigger] union_find::uf_root(p, j)) <==> connect::reaches(e, i, j))
}

/// All pairs are pairs of positions below `n`.
pub open spec fn edges_below(es: Seq<Edge>, n: int) -> bool {
    forall|t: int| 0 <= t < es.len() ==> (#[trigger] es[t]).a < es[t].b && es[t].b < n
}

proof fn link_sym(es: Seq<Edge>, k: int)
    ensures
        forall|x: int, y: int| #[trigger] link(es, k)(x, y) ==> link(es, k)(y, x),
{
}

/// Joining the ends of pair `k` makes the sets follow one pair more.
proof fn join_step(es: Seq<Edge>, k: int, p: Seq<usize>, q: Seq<usize>)
    requires
        0 <= k < es.len(),
        edges_below(es, p.len() as int),
        sets_follow(p, link(es, k)),
        p.len() == q.len(),
        union_find::uf_wf(q),
        union_find::uf_joined(p, q, es[k].a as int, es[k].b as int),
    ensures
        sets_follow(q, link(es, k + 1)),
{
    let a = es[k].a as int;
    let b = es[k].b as int;
    let e = link(es, k);
    let f = link(es, k + 1);
    let n = p.len() as int;
    link_sym(es, k);
    link_sym(es, k + 1);
    assert forall|x: int, y: int| #[trigger] e(x, y) implies f(x, y) by {
        let t = choose|t: int|
            0 <= t < k && (((#[trigger] es[t]).a == x && es[t].b == y) || (es[t].a == y && es[t].b
                == x));
        assert(0 <= t < k + 1);
    }
    assert(f(a, b)) by {
        assert(es[k].a == a && es[k].b == b);
    }
    connect::reaches_edge(f, a, b);
    assert forall|i: int, j: int| 0 <= i < n && 0 <= j < n implies ((
    #[trigger] union_find::uf_root(q, i) == #[trigger] union_find::uf_root(q, j))
        <==> connect::reaches(f, i, j)) by {
        let ri = union_find::uf_root(p, i);
        let rj = union_find::uf_root(p, j);
        let ra = union_find::uf_root(p, a);
        let rb = union_find::uf_root(p, b);
        if union_find::uf_root(q, i) == union_find::uf_root(q, j) {
            if ri == rj {
                assert(connect::reaches(e, i, j));
                connect::reaches_mono(e, f, i, j);
            } else {
                let (u, v) = if ri == ra {
                    (a, b)
                } else {
                    (b, a)
                };
                assert(union_find::uf_root(p, u) == ri && union_find::uf_root(p, v) == rj);
                assert(connect::reaches(e, i, u));
                assert(connect::reaches(e, v, j));
                connect::reaches_mono(e, f, i, u);
                connect::reaches_mono(e, f, v, j);
                connect::reaches_sym(f, a, b);
                connect::reaches_trans(f, i, u, v);
                connect::reaches_trans(f, i, v, j);
            }
        }
        if connect::reaches(f, i, j) {
            let keep = |x: int| 0 <= x < n && union_find::uf_root(q, x) == union_find::uf_root(q, i);
            assert forall|x: int, y: int| #[trigger] f(x, y) && keep(x) implies keep(y) by {
                let t = choose|t: int|
                    0 <= t < k + 1 && (((#[trigger] es[t]).a == x && es[t].b == y) || (es[t].a == y
                        && es[t].b == x));
                assert(es[t].a < es[t].b && es[t].b < n);
                if t < k {
                    assert(e(x, y));
                    connect::reaches_edge(e, x, y);
                    assert(union_find::uf_root(p, x) == union_find::uf_root(p, y));
                }
            }
            connect::reaches_keeps(f, keep, i, j);
        }
    }
}

/// Without a pair every position stands alone.
proof fn alone(es: Seq<Edge>, i: int, j: int)
    requires
        connect::reaches(link(es, 0), i, j),
    ensures
        i == j,
{
    let keep = |x: int| x == i;
    connect::reaches_keeps(link(es, 0), keep, i, j);
}

/// The positions `0..n` as sets of one.
fn singles(n: usize) -> (r: Vec<usize>)
    ensures
        r@.len() == n,
        forall|i: int| 0 <= i < n ==> #[trigger] r@[i] == i,
{
    let mut v: Vec<usize> = Vec::new();
    let mut i: usize = 0;
    while i < n
        invariant
            i <= n,
            v@.len() == i,
            forall|k: int| 0 <= k < i ==> #[trigger] v@[k] == k,
        decreases n - i,
    {
        v.push(i);
        i = i + 1;
    }
    v
}

/// What one merge round did.
#[derive(Clone, Copy, Debug, PartialEq, Eq, Structural)]
pub struct MergeTally {
    /// Components merged away.
    pub merges: u64,
    /// Merges by the first rule.
    pub rule1: u64,
    /// Merges by the fourth rule.
    pub rule4: u64,
    /// Merges by the fifth rule.
    pub rule5: u64,
    /// Pairs refused as too long.
    pub refused_aspect: u64,
    /// Pairs refused as too tall.
    pub refused_height: u64,
}

/// The counts of a round.
pub open spec fn is_tally(gs: Seq<IconGroup>, c: MergeContext, t: MergeTally) -> bool {
    let es = edges_of(gs, c);
    let k = es.len() as int;
    &&& t.merges == counting::count_below(fresh(es), k)
    &&& t.rule1 == counting::count_below(fresh_by(es, MergeRule::Rule1), k)
    &&& t.rule4 == counting::count_below(fresh_by(es, MergeRule::Rule4), k)
    &&& t.rule5 == counting::count_below(fresh_by(es, MergeRule::Rule5), k)
    &&& t.refused_aspect == judged_count(gs, c, PairVerdict::TooLong)
    &&& t.refused_height == judged_count(gs, c, PairVerdict::TooTall)
}

/// Roots of a forest.
pub open spec fn own_root(p: Seq<usize>) -> spec_fn(int) -> bool {
    |i: int| union_find::uf_root(p, i) == i
}

/// A join of two sets leaves one root less.
proof fn join_drops_root(p: Seq<usize>, q: Seq<usize>, a: int, b: int)
    requires
        union_find::uf_wf(p),
        union_find::uf_wf(q),
        p.len() == q.len(),
        0 <= a < p.len(),
        0 <= b < p.len(),
        union_find::uf_joined(p, q, a, b),
    ensures
        counting::count_below(own_root(q), p.len() as int) == counting::count_below(
            own_root(p),
            p.len() as int,
        ) - (if union_find::uf_root(p, a) == union_find::uf_root(p, b) {
            0int
        } else {
            1int
        }),
{
    let ra = union_find::uf_root(p, a);
    let rb = union_find::uf_root(p, b);
    let n = p.len() as int;
    union_find::lemma_root_bounds(p, a);
    union_find::lemma_root_bounds(p, b);
    let hi = if ra < rb {
        rb
    } else {
        ra
    };
    assert forall|j: int| 0 <= j < n implies #[trigger] own_root(q)(j) == (own_root(p)(j) && (ra == rb
        || j != hi)) by {
        assert(union_find::uf_root(q, j) == (if union_find::uf_root(p, j) == ra
            || union_find::uf_root(p, j) == rb {
            if ra < rb {
                ra
            } else {
                rb
            }
        } else {
            union_find::uf_root(p, j)
        }));
        union_find::lemma_root_bounds(p, j);
    }
    if ra == rb {
        counting::count_ext(own_root(q), own_root(p), n);
    } else {
        counting::count_drop(own_root(p), own_root(q), n, hi);
    }
}

/// Joins the ends of every pair. Returns the sets, how many pairs joined two
/// sets, and how many of those by each rule.
fn unite(n: usize, edges: &Vec<Edge>) -> (r: (Vec<usize>, u64, u64, u64, u64))
    requires
        edges_below(edges@, n as int),
        n <= split::MAX_GROUPS,
    ensures
        r.0@.len() == n,
        sets_follow(r.0@, link(edges@, edges@.len() as int)),
        r.1 == counting::count_below(fresh(edges@), edges@.len() as int),
        r.2 == counting::count_below(fresh_by(edges@, MergeRule::Rule1), edges@.len() as int),
        r.3 == counting::count_below(fresh_by(edges@, MergeRule::Rule4), edges@.len() as int),
        r.4 == counting::count_below(fresh_by(edges@, MergeRule::Rule5), edges@.len() as int),
        r.1 == n - counting::count_below(own_root(r.0@), n as int),
        r.1 <= n,
        edges@.len() > 0 <==> r.1 > 0,
{
    let mut parent = singles(n);
    let ghost es = edges@;
    proof {
        assert(union_find::uf_wf(parent@));
        assert forall|i: int, j: int| 0 <= i < n && 0 <= j < n implies ((
        #[trigger] union_find::uf_root(parent@, i) == #[trigger] union_find::uf_root(parent@, j))
            <==> connect::reaches(link(es, 0), i, j)) by {
            if connect::reaches(link(es, 0), i, j) {
                alone(es, i, j);
            }
            if i == j {
                connect::reaches_self(link(es, 0), i);
            }
        }
        counting::count_span(own_root(parent@), 0, n as int, true);
    }
    let mut merges: u64 = 0;
    let mut r1: u64 = 0;
    let mut r4: u64 = 0;
    let mut r5: u64 = 0;
    let mut k: usize = 0;
    while k < edges.len()
        invariant
            k <= es.len(),
            es == edges@,
            n <= split::MAX_GROUPS,
            edges_below(es, n as int),
            parent@.len() == n,
            sets_follow(parent@, link(es, k as int)),
            merges == counting::count_below(fresh(es), k as int),
            merges == n - counting::count_below(own_root(parent@), n as int),
            r1 == counting::count_below(fresh_by(es, MergeRule::Rule1), k as int),
            r4 == counting::count_below(fresh_by(es, MergeRule::Rule4), k as int),
            r5 == counting::count_below(fresh_by(es, MergeRule::Rule5), k as int),
            r1 <= merges,
            r4 <= merges,
            r5 <= merges,
            k > 0 <==> merges > 0,
        decreases es.len() - k,
    {
        let e = edges[k];
        let ghost p0 = parent@;
        assert(es[k as int].a < es[k as int].b && es[k as int].b < n);
        let ra: usize = union_find::uf_find(&mut parent, e.a);
        let rb: usize = union_find::uf_find(&mut parent, e.b);
        let ghost p1 = parent@;
        union_find::uf_union(&mut parent, e.a, e.b);
        proof {
            assert forall|j: int| 0 <= j < n implies #[trigger] union_find::uf_root(p1, j)
                == union_find::uf_root(p0, j) by {}
            assert(union_find::uf_joined(p0, parent@, e.a as int, e.b as int)) by {
                assert(union_find::uf_root(p1, e.a as int) == union_find::uf_root(p0, e.a as int));
                assert(union_find::uf_root(p1, e.b as int) == union_find::uf_root(p0, e.b as int));
                assert forall|j: int| 0 <= j < n implies #[trigger] union_find::uf_root(parent@, j)
                    == (if union_find::uf_root(p0, j) == union_find::uf_root(p0, e.a as int)
                    || union_find::uf_root(p0, j) == union_find::uf_root(p0, e.b as int) {
                    if union_find::uf_root(p0, e.a as int) < union_find::uf_root(p0, e.b as int) {
                        union_find::uf_root(p0, e.a as int)
                    } else {
                        union_find::uf_root(p0, e.b as int)
                    }
                } else {
                    union_find::uf_root(p0, j)
                }) by {
                    assert(union_find::uf_root(p1, j) == union_find::uf_root(p0, j));
                }
            }
            join_step(es, k as int, p0, parent@);
            join_drops_root(p0, parent@, e.a as int, e.b as int);
            counting::count_bounds(own_root(parent@), n as int);
            assert((ra == rb) <==> connect::reaches(link(es, k as int), e.a as int, e.b as int));
            if k == 0 && ra == rb {
                alone(es, e.a as int, e.b as int);
            }
        }
        if ra != rb {
            merges = merges + 1;
            match e.rule {
                MergeRule::Rule1 => {
                    r1 = r1 + 1;
                },
                MergeRule::Rule4 => {
                    r4 = r4 + 1;
                },
                MergeRule::Rule5 => {
                    r5 = r5 + 1;
                },
            }
        }
        k = k + 1;
    }
    proof {
        counting::count_bounds(own_root(parent@), n as int);
    }
    (parent, merges, r1, r4, r5)
}

// ---- bundles ------------------------------------------------------------------------

/// A group with the components it was merged from.
#[derive(Clone, Debug, PartialEq, Eq)]
pub struct Bundle {
    /// The group.
    pub group: IconGroup,
    /// The components before any merge, in order.
    pub members: Vec<IconGroup>,
}

/// A group and its components.
pub type Lot = (IconGroup, Seq<IconGroup>);

/// The contents of a list of bundles.
pub open spec fn lots_of(bs: Seq<Bundle>) -> Seq<Lot> {
    Seq::new(bs.len(), |i: int| (bs[i].group, bs[i].members@))
}

/// The groups of a list of lots.
pub open spec fn groups_of(ls: Seq<Lot>) -> Seq<IconGroup> {
    Seq::new(ls.len(), |i: int| ls[i].0)
}

/// Two lots as one.
pub open spec fn combined(a: Lot, b: Lot) -> Lot {
    (merge::union_group(a.0, b.0), a.1 + b.1)
}

/// All lots below `n` that are related to `r`, combined in order.
pub open spec fn lot_upto(ls: Seq<Lot>, e: spec_fn(int, int) -> bool, r: int, n: int) -> Option<Lot>
    decreases n,
{
    if n <= 0 {
        None
    } else {
        let before = lot_upto(ls, e, r, n - 1);
        if e(r, n - 1) {
            match before {
                None => Some(ls[n - 1]),
                Some(l) => Some(combined(l, ls[n - 1])),
            }
        } else {
            before
        }
    }
}

/// Position `r` is related to no earlier one.
pub open spec fn is_head(e: spec_fn(int, int) -> bool, r: int) -> bool {
    forall|k: int| 0 <= k < r ==> !#[trigger] e(r, k)
}

/// The heads below `n`, ascending.
pub open spec fn heads_upto(e: spec_fn(int, int) -> bool, n: int) -> Seq<int>
    decreases n,
{
    if n <= 0 {
        Seq::empty()
    } else if is_head(e, n - 1) {
        heads_upto(e, n - 1).push(n - 1)
    } else {
        heads_upto(e, n - 1)
    }
}

/// One lot per class, in the order of the heads.
pub open spec fn class_lots(ls: Seq<Lot>, e: spec_fn(int, int) -> bool) -> Seq<Lot> {
    let heads = heads_upto(e, ls.len() as int);
    Seq::new(heads.len(), |t: int| lot_upto(ls, e, heads[t], ls.len() as int)->0)
}

/// Relations that agree make the same lots.
proof fn lots_agree(ls: Seq<Lot>, e: spec_fn(int, int) -> bool, f: spec_fn(int, int) -> bool, r: int, n: int)
    requires
        0 <= n <= ls.len(),
        forall|i: int, j: int|
            0 <= i < ls.len() && 0 <= j < ls.len() ==> #[trigger] e(i, j) == f(i, j),
    ensures
        heads_upto(e, n) == heads_upto(f, n),
        0 <= r < ls.len() ==> lot_upto(ls, e, r, n) == lot_upto(ls, f, r, n),
    decreases n,
{
    if n > 0 {
        lots_agree(ls, e, f, r, n - 1);
        assert(is_head(e, n - 1) == is_head(f, n - 1)) by {
            if is_head(e, n - 1) {
                assert forall|k: int| 0 <= k < n - 1 implies !#[trigger] f(n - 1, k) by {
                    assert(!e(n - 1, k));
                }
            }
            if is_head(f, n - 1) {
                assert forall|k: int| 0 <= k < n - 1 implies !#[trigger] e(n - 1, k) by {
                    assert(!f(n - 1, k));
                }
            }
        }
        if 0 <= r < ls.len() {
            assert(e(r, n - 1) == f(r, n - 1));
        }
    }
}

/// Heads are below the bound, ascending.
proof fn heads_bounds(e: spec_fn(int, int) -> bool, n: int)
    requires
        0 <= n,
    ensures
        heads_upto(e, n).len() <= n,
        forall|t: int| 0 <= t < heads_upto(e, n).len() ==> 0 <= #[trigger] heads_upto(e, n)[t] < n,
        forall|s: int, t: int|
            0 <= s < t < heads_upto(e, n).len() ==> #[trigger] heads_upto(e, n)[s]
                < #[trigger] heads_upto(e, n)[t],
    decreases n,
{
    if n > 0 {
        heads_bounds(e, n - 1);
    }
}

/// Equivalent classes give equal lists of lots.
proof fn class_lots_agree(ls: Seq<Lot>, e: spec_fn(int, int) -> bool, f: spec_fn(int, int) -> bool)
    requires
        forall|i: int, j: int|
            0 <= i < ls.len() && 0 <= j < ls.len() ==> #[trigger] e(i, j) == f(i, j),
    ensures
        class_lots(ls, e) == class_lots(ls, f),
{
    let n = ls.len() as int;
    lots_agree(ls, e, f, 0, n);
    heads_bounds(e, n);
    let heads = heads_upto(e, n);
    assert forall|t: int| 0 <= t < heads.len() implies class_lots(ls, e)[t] == class_lots(ls, f)[t] by {
        lots_agree(ls, e, f, heads[t], n);
    }
    assert(class_lots(ls, e) =~= class_lots(ls, f));
}

/// Two positions share a root.
pub open spec fn same_root(p: Seq<usize>) -> spec_fn(int, int) -> bool {
    |i: int, j: int| union_find::uf_root(p, i) == union_find::uf_root(p, j)
}

/// Adding to one group adds to the sum.
proof fn area_update(gs: Seq<IconGroup>, s: int, g: IconGroup, n: int)
    requires
        0 <= s < gs.len(),
        0 <= n <= gs.len(),
    ensures
        merge::area_sum(gs.update(s, g), n) == merge::area_sum(gs, n) + (if s < n {
            g.area - gs[s].area
        } else {
            0
        }),
    decreases n,
{
    if n > 0 {
        area_update(gs, s, g, n - 1);
    }
}

fn copy_groups(v: &Vec<IconGroup>) -> (r: Vec<IconGroup>)
    ensures
        r@ == v@,
{
    let mut out: Vec<IconGroup> = Vec::new();
    extend_groups(&mut out, v);
    assert(out@ =~= v@);
    out
}

/// Appends a list of groups.
pub fn extend_groups(out: &mut Vec<IconGroup>, v: &Vec<IconGroup>)
    ensures
        final(out)@ == old(out)@ + v@,
{
    let ghost o0 = out@;
    let mut i: usize = 0;
    while i < v.len()
        invariant
            i <= v@.len(),
            out@ == o0 + v@.take(i as int),
        decreases v@.len() - i,
    {
        out.push(v[i]);
        assert(v@.take(i + 1) =~= v@.take(i as int).push(v@[i as int]));
        i = i + 1;
    }
    assert(v@.take(v@.len() as int) =~= v@);
}

/// One bundle per set, in the order of the roots.
fn collect(bs: &Vec<Bundle>, parent: &mut Vec<usize>) -> (r: Vec<Bundle>)
    requires
        union_find::uf_wf(old(parent)@),
        old(parent)@.len() == bs@.len(),
        nearby::boxes_ok(groups_of(lots_of(bs@))),
        merge::area_sum(groups_of(lots_of(bs@)), bs@.len() as int) <= u32::MAX,
    ensures
        lots_of(r@) == class_lots(lots_of(bs@), same_root(old(parent)@)),
        nearby::boxes_ok(groups_of(lots_of(r@))),
        merge::area_sum(groups_of(lots_of(r@)), r@.len() as int) == merge::area_sum(
            groups_of(lots_of(bs@)),
            bs@.len() as int,
        ),
        r@.len() == counting::count_below(own_root(old(parent)@), bs@.len() as int),
{
    let n: usize = bs.len();
    let ghost p0 = parent@;
    let ghost e = same_root(p0);
    let ghost ls = lots_of(bs@);
    let ghost gs = groups_of(ls);
    let mut slot: Vec<usize> = Vec::new();
    let mut out: Vec<Bundle> = Vec::new();
    let mut i: usize = 0;
    while i < n
        invariant
            i <= n,
            n == bs@.len(),
            p0.len() == n,
            parent@.len() == n,
            union_find::uf_wf(p0),
            union_find::uf_wf(parent@),
            forall|j: int|
                0 <= j < n ==> #[trigger] union_find::uf_root(parent@, j) == union_find::uf_root(
                    p0,
                    j,
                ),
            e == same_root(p0),
            ls == lots_of(bs@),
            gs == groups_of(ls),
            nearby::boxes_ok(gs),
            merge::area_sum(gs, n as int) <= u32::MAX,
            slot@.len() == i,
            out@.len() == heads_upto(e, i as int).len(),
            out@.len() <= i,
            out@.len() == counting::count_below(own_root(p0), i as int),
            forall|t: int|
                0 <= t < out@.len() ==> #[trigger] lot_upto(ls, e, heads_upto(e, i as int)[t], i as int)
                    == Some(lots_of(out@)[t]),
            forall|t: int|
                0 <= t < out@.len() ==> 0 <= #[trigger] heads_upto(e, i as int)[t] < i
                    && union_find::uf_root(p0, heads_upto(e, i as int)[t]) == heads_upto(
                    e,
                    i as int,
                )[t],
            forall|t: int| 0 <= t < out@.len() ==> merge::box_ok((#[trigger] out@[t]).group.bbox),
            forall|r: int|
                0 <= r < i && union_find::uf_root(p0, r) == r ==> (#[trigger] slot@[r]) < out@.len()
                    && heads_upto(e, i as int)[slot@[r] as int] == r,
            merge::area_sum(groups_of(lots_of(out@)), out@.len() as int) == merge::area_sum(
                gs,
                i as int,
            ),
        decreases n - i,
    {
        let ghost heads = heads_upto(e, i as int);
        let ghost out0 = out@;
        let ghost slot0 = slot@;
        let root: usize = union_find::uf_find(parent, i);
        proof {
            union_find::lemma_root_bounds(p0, i as int);
            merge::area_grows(gs, i as int + 1, n as int);
            merge::area_grows(gs, 0, i as int);
            heads_bounds(e, i as int);
            assert(merge::box_ok(gs[i as int].bbox));
            if root == i {
                assert forall|k: int| 0 <= k < i implies !#[trigger] e(i as int, k) by {
                    union_find::lemma_root_bounds(p0, k);
                }
            } else {
                assert(e(i as int, root as int));
                assert(!is_head(e, i as int));
            }
        }
        if root == i {
            let b = Bundle { group: bs[i].group, members: copy_groups(&bs[i].members) };
            out.push(b);
            slot.push(out.len() - 1);
            proof {
                let heads1 = heads_upto(e, i as int + 1);
                assert(heads1 == heads.push(i as int));
                head_alone(ls, p0, i as int, i as int);
                assert(e(i as int, i as int));
                assert forall|t: int| 0 <= t < out@.len() implies #[trigger] lot_upto(
                    ls,
                    e,
                    heads1[t],
                    i as int + 1,
                ) == Some(lots_of(out@)[t]) by {
                    if t < out0.len() {
                        assert(heads1[t] == heads[t]);
                        assert(!e(heads[t], i as int));
                        assert(lot_upto(ls, e, heads[t], i as int) == Some(lots_of(out0)[t]));
                        assert(out@[t] == out0[t]);
                    }
                }
                let og = groups_of(lots_of(out0));
                assert(groups_of(lots_of(out@)) =~= og.push(gs[i as int]));
                merge::area_push(og, gs[i as int], og.len() as int);
            }
        } else {
            assert(union_find::uf_root(p0, root as int) == root);
            let s: usize = slot[root];
            proof {
                assert(heads[s as int] == root);
                let og = groups_of(lots_of(out0));
                area_at_most(og, s as int, og.len() as int);
            }
            let g = merge::merged_group(&out[s].group, &bs[i].group);
            let mut members = copy_groups(&out[s].members);
            extend_groups(&mut members, &bs[i].members);
            out.set(s, Bundle { group: g, members });
            slot.push(n);
            proof {
                let heads1 = heads_upto(e, i as int + 1);
                assert(heads1 == heads);
                assert forall|t: int| 0 <= t < out@.len() implies #[trigger] lot_upto(
                    ls,
                    e,
                    heads1[t],
                    i as int + 1,
                ) == Some(lots_of(out@)[t]) by {
                    assert(lot_upto(ls, e, heads[t], i as int) == Some(lots_of(out0)[t]));
                    if t == s {
                        assert(e(heads[t], i as int));
                        assert(lots_of(out@)[t] == combined(lots_of(out0)[t], ls[i as int]));
                    } else {
                        assert(heads[t] != root) by {
                            if t < s {
                                assert(heads[t] < heads[s as int]);
                            } else {
                                assert(heads[s as int] < heads[t]);
                            }
                        }
                        assert(!e(heads[t], i as int));
                        assert(out@[t] == out0[t]);
                    }
                }
                let og = groups_of(lots_of(out0));
                assert(groups_of(lots_of(out@)) =~= og.update(s as int, g));
                area_update(og, s as int, g, og.len() as int);
            }
        }
        i = i + 1;
    }
    proof {
        assert(lots_of(out@) =~= class_lots(ls, e)) by {
            assert forall|t: int| 0 <= t < out@.len() implies lots_of(out@)[t] == class_lots(ls, e)[t] by {
                assert(lot_upto(ls, e, heads_upto(e, n as int)[t], n as int) == Some(
                    lots_of(out@)[t],
                ));
            }
        }
        assert forall|t: int| 0 <= t < out@.len() implies merge::box_ok(
            (#[trigger] groups_of(lots_of(out@))[t]).bbox,
        ) by {
            assert(merge::box_ok(out@[t].group.bbox));
        }
    }
    out
}

/// Nothing before a root belongs to it.
proof fn head_alone(ls: Seq<Lot>, p: Seq<usize>, r: int, n: int)
    requires
        union_find::uf_wf(p),
        0 <= n <= r < p.len(),
        union_find::uf_root(p, r) == r,
    ensures
        lot_upto(ls, same_root(p), r, n) is None,
    decreases n,
{
    if n > 0 {
        head_alone(ls, p, r, n - 1);
        union_find::lemma_root_bounds(p, n - 1);
    }
}

proof fn area_at_most(gs: Seq<IconGroup>, s: int, n: int)
    requires
        0 <= s < n <= gs.len(),
    ensures
        gs[s].area <= merge::area_sum(gs, n),
    decreases n,
{
    merge::area_grows(gs, 0, n - 1);
    if s < n - 1 {
        area_at_most(gs, s, n - 1);
    }
}

// ---- order --------------------------------------------------------------------------

/// The lots at the listed positions.
pub open spec fn picked_lots(ls: Seq<Lot>, order: Seq<usize>) -> Seq<Lot> {
    Seq::new(order.len(), |i: int| ls[order[i] as int])
}

/// `out` is `ls` in canonical order of the groups.
pub open spec fn is_sorted_lots(ls: Seq<Lot>, out: Seq<Lot>) -> bool {
    exists|order: Seq<usize>| #[trigger]
        sorting::is_order(group::keys_of(groups_of(ls)), order, 0, ls.len() as int) && out
            == picked_lots(ls, order)
}

/// Sorts bundles into the canonical order of their groups.
pub fn sort_bundles(bs: &Vec<Bundle>) -> (r: Vec<Bundle>)
    ensures
        is_sorted_lots(lots_of(bs@), lots_of(r@)),
        r@.len() == bs@.len(),
{
    let mut keys: Vec<SortKey> = Vec::new();
    let mut i: usize = 0;
    while i < bs.len()
        invariant
            i <= bs@.len(),
            keys@.len() == i,
            forall|k: int| 0 <= k < i ==> #[trigger] keys@[k] == group::group_key(bs@[k].group),
        decreases bs@.len() - i,
    {
        let g = bs[i].group;
        keys.push((g.bbox.y as u64, g.bbox.x as u64, g.origin.0 as u64, g.origin.1 as u64));
        i = i + 1;
    }
    let order = sorting::sort_order(&keys);
    let mut out: Vec<Bundle> = Vec::new();
    let mut i: usize = 0;
    while i < order.len()
        invariant
            i <= order@.len(),
            out@.len() == i,
            keys@.len() == bs@.len(),
            sorting::is_order(keys@, order@, 0, keys@.len() as int),
            forall|k: int|
                0 <= k < i ==> lots_of(out@)[k] == #[trigger] lots_of(bs@)[order@[k] as int],
        decreases order@.len() - i,
    {
        let b = &bs[order[i]];
        let ghost out0 = out@;
        out.push(Bundle { group: b.group, members: copy_groups(&b.members) });
        proof {
            assert forall|k: int| 0 <= k < i + 1 implies lots_of(out@)[k] == #[trigger] lots_of(
                bs@,
            )[order@[k] as int] by {
                if k < i {
                    assert(lots_of(out0)[k] == lots_of(bs@)[order@[k] as int]);
                    assert(out@[k] == out0[k]);
                }
            }
        }
        i = i + 1;
    }
    proof {
        assert(keys@ =~= group::keys_of(groups_of(lots_of(bs@))));
        assert(lots_of(out@) =~= picked_lots(lots_of(bs@), order@));
    }
    out
}

spec fn area_at(gs: Seq<IconGroup>) -> spec_fn(int) -> int {
    |i: int| gs[i].area as int
}

proof fn area_is_sum(gs: Seq<IconGroup>, n: int)
    requires
        0 <= n <= gs.len(),
    ensures
        merge::area_sum(gs, n) == counting::sum_below(area_at(gs), n),
    decreases n,
{
    if n > 0 {
        area_is_sum(gs, n - 1);
    }
}

proof fn area_is_listed(gs: Seq<IconGroup>, order: Seq<usize>, out: Seq<IconGroup>, n: int)
    requires
        0 <= n <= order.len(),
        out == group::picked(gs, order),
    ensures
        merge::area_sum(out, n) == counting::sum_listed(area_at(gs), order, n),
    decreases n,
{
    if n > 0 {
        area_is_listed(gs, order, out, n - 1);
    }
}

/// An order visits every position once, so it keeps the sum of the areas.
pub proof fn sorting_keeps_area(gs: Seq<IconGroup>, order: Seq<usize>)
    requires
        gs.len() <= usize::MAX,
        sorting::is_order(group::keys_of(gs), order, 0, gs.len() as int),
    ensures
        merge::area_sum(group::picked(gs, order), gs.len() as int) == merge::area_sum(
            gs,
            gs.len() as int,
        ),
{
    let n = gs.len() as int;
    let keys = group::keys_of(gs);
    assert forall|i: int, j: int| 0 <= i < j < n implies #[trigger] order[i] != #[trigger] order[j] by {
        assert(sorting::pos_lt(keys, order[i] as int, order[j] as int));
    }
    counting::sum_permuted(area_at(gs), order, n);
    area_is_sum(gs, n);
    area_is_listed(gs, order, group::picked(gs, order), n);
}

/// Every lot lies on the sheet.
pub open spec fn lots_fit(ls: Seq<Lot>, w: int, h: int) -> bool {
    forall|i: int| 0 <= i < ls.len() ==> #[trigger] lot_fits(ls[i], w, h)
}

/// The group and all its components lie on the sheet.
pub open spec fn lot_fits(l: Lot, w: int, h: int) -> bool {
    group_fits(l.0, w, h) && all_fit(l.1, w, h)
}

/// Every group lies on the sheet.
pub open spec fn all_fit(gs: Seq<IconGroup>, w: int, h: int) -> bool {
    forall|i: int| 0 <= i < gs.len() ==> #[trigger] group_fits(gs[i], w, h)
}

/// The group lies on the sheet, with its origin in its box.
pub open spec fn group_fits(g: IconGroup, w: int, h: int) -> bool {
    g.bbox.fits(w, h) && g.bbox.covers(g.origin.0 as int, g.origin.1 as int)
}

proof fn lot_upto_fits(ls: Seq<Lot>, e: spec_fn(int, int) -> bool, r: int, n: int, w: int, h: int)
    requires
        lots_fit(ls, w, h),
        w <= u32::MAX,
        h <= u32::MAX,
        0 <= n <= ls.len(),
    ensures
        match lot_upto(ls, e, r, n) {
            Some(l) => lot_fits(l, w, h),
            None => true,
        },
        0 <= r < n && e(r, r) ==> lot_upto(ls, e, r, n) is Some,
    decreases n,
{
    if n > 0 {
        lot_upto_fits(ls, e, r, n - 1, w, h);
        assert(lot_fits(ls[n - 1], w, h));
        if e(r, n - 1) {
            match lot_upto(ls, e, r, n - 1) {
                Some(l) => {
                    merge::union_fits(l.0, ls[n - 1].0, w, h);
                    let both = l.1 + ls[n - 1].1;
                    assert forall|i: int| 0 <= i < both.len() implies #[trigger] group_fits(
                        both[i],
                        w,
                        h,
                    ) by {
                        if i < l.1.len() {
                            assert(group_fits(l.1[i], w, h));
                        } else {
                            assert(group_fits(ls[n - 1].1[i - l.1.len()], w, h));
                        }
                    }
                },
                None => {},
            }
        }
    }
}

/// What is merged from groups on a sheet lies on the sheet.
pub proof fn class_lots_fit(ls: Seq<Lot>, e: spec_fn(int, int) -> bool, w: int, h: int)
    requires
        lots_fit(ls, w, h),
        w <= u32::MAX,
        h <= u32::MAX,
        forall|i: int| 0 <= i < ls.len() ==> #[trigger] e(i, i),
    ensures
        lots_fit(class_lots(ls, e), w, h),
{
    let n = ls.len() as int;
    heads_bounds(e, n);
    let out = class_lots(ls, e);
    assert forall|t: int| 0 <= t < out.len() implies #[trigger] lot_fits(out[t], w, h) by {
        let r = heads_upto(e, n)[t];
        assert(e(r, r));
        lot_upto_fits(ls, e, r, n, w, h);
    }
}

// ---- one round ----------------------------------------------------------------------

/// Positions `i` and `j` form an accepted pair.
pub open spec fn accepted(gs: Seq<IconGroup>, c: MergeContext) -> spec_fn(int, int) -> bool {
    |i: int, j: int|
        0 <= i < gs.len() && 0 <= j < gs.len() && i != j && merge::verdict_of(gs[i], gs[j], c) is Merge
}

/// Positions that a chain of accepted pairs connects.
pub open spec fn one_icon(gs: Seq<IconGroup>, c: MergeContext) -> spec_fn(int, int) -> bool {
    |i: int, j: int| connect::reaches(accepted(gs, c), i, j)
}

/// Some pair is accepted.
pub open spec fn any_accepted(gs: Seq<IconGroup>, c: MergeContext) -> bool {
    edges_of(gs, c).len() > 0
}

/// `out` is what one round makes of `ls`: the components of every class of the
/// accepted pairs become one lot.
pub open spec fn is_round(ls: Seq<Lot>, c: MergeContext, out: Seq<Lot>) -> bool {
    is_sorted_lots(class_lots(ls, one_icon(groups_of(ls), c)), out)
}

/// The listed pairs connect what the accepted pairs connect.
proof fn links_are_accepted(gs: Seq<IconGroup>, c: MergeContext, i: int, j: int)
    requires
        gs.len() <= usize::MAX,
        0 <= i < gs.len(),
        0 <= j < gs.len(),
    ensures
        connect::reaches(link(edges_of(gs, c), edges_of(gs, c).len() as int), i, j)
            <==> connect::reaches(accepted(gs, c), i, j),
{
    let es = edges_of(gs, c);
    let k = es.len() as int;
    edges_are_accepted(gs, c, gs.len() as int);
    let e = link(es, k);
    let f = accepted(gs, c);
    assert forall|x: int, y: int| #[trigger] e(x, y) implies f(x, y) by {
        let t = choose|t: int|
            0 <= t < k && (((#[trigger] es[t]).a == x && es[t].b == y) || (es[t].a == y && es[t].b
                == x));
        assert(is_edge(gs, c, es[t]));
        merge::verdict_is_symmetric(gs[x], gs[y], c);
    }
    assert forall|x: int, y: int| #[trigger] f(x, y) implies e(x, y) by {
        merge::verdict_is_symmetric(gs[x], gs[y], c);
        let (lo, hi) = if x < y {
            (x, y)
        } else {
            (y, x)
        };
        assert(merge::verdict_of(gs[lo], gs[hi], c) is Merge);
        assert(names_pair(es, lo, hi));
        let t = choose|t: int| 0 <= t < es.len() && (#[trigger] es[t]).a == lo && es[t].b == hi;
        assert(joins(es, k, x, y));
    }
    if connect::reaches(e, i, j) {
        connect::reaches_mono(e, f, i, j);
    }
    if connect::reaches(f, i, j) {
        connect::reaches_mono(f, e, i, j);
    }
}

/// The groups of a list of bundles.
pub fn bundle_groups(bs: &Vec<Bundle>) -> (r: Vec<IconGroup>)
    ensures
        r@ == groups_of(lots_of(bs@)),
{
    let mut out: Vec<IconGroup> = Vec::new();
    let mut i: usize = 0;
    while i < bs.len()
        invariant
            i <= bs@.len(),
            out@.len() == i,
            forall|k: int| 0 <= k < i ==> #[trigger] out@[k] == bs@[k].group,
        decreases bs@.len() - i,
    {
        out.push(bs[i].group);
        i = i + 1;
    }
    assert(out@ =~= groups_of(lots_of(bs@)));
    out
}

/// One merge round. Returns the merged bundles in canonical order, or `None`
/// when no pair was accepted, and what was counted.
pub fn merge_pass(bs: &Vec<Bundle>, c: &MergeContext) -> (r: (Option<Vec<Bundle>>, MergeTally))
    requires
        bs@.len() <= split::MAX_GROUPS,
        nearby::boxes_ok(groups_of(lots_of(bs@))),
        merge::area_sum(groups_of(lots_of(bs@)), bs@.len() as int) <= u32::MAX,
        merge::context_ok(*c),
    ensures
        is_tally(groups_of(lots_of(bs@)), *c, r.1),
        r.1.merges <= bs@.len(),
        r.1.rule1 <= bs@.len(),
        r.1.rule4 <= bs@.len(),
        r.1.rule5 <= bs@.len(),
        r.1.refused_aspect <= bs@.len() * bs@.len(),
        r.1.refused_height <= bs@.len() * bs@.len(),
        match r.0 {
            None => !any_accepted(groups_of(lots_of(bs@)), *c),
            Some(out) => {
                &&& any_accepted(groups_of(lots_of(bs@)), *c)
                &&& is_round(lots_of(bs@), *c, lots_of(out@))
                &&& out@.len() == bs@.len() - r.1.merges
                &&& r.1.merges > 0
                &&& merge::area_sum(groups_of(lots_of(out@)), out@.len() as int)
                    == merge::area_sum(groups_of(lots_of(bs@)), bs@.len() as int)
                &&& nearby::boxes_ok(groups_of(lots_of(out@)))
            },
        },
{
    let n: usize = bs.len();
    let gs = bundle_groups(bs);
    let ghost ls = lots_of(bs@);
    let (edges, long, tall) = accepted_pairs(&gs, c);
    proof {
        edges_are_accepted(gs@, *c, n as int);
        assert forall|t: int| 0 <= t < edges@.len() implies (#[trigger] edges@[t]).a < edges@[t].b
            && edges@[t].b < n by {
            assert(is_edge(gs@, *c, edges@[t]));
        }
    }
    let (mut parent, merges, rule1, rule4, rule5) = unite(n, &edges);
    proof {
        counting::count_le(fresh_by(edges@, MergeRule::Rule1), fresh(edges@), edges@.len() as int);
        counting::count_le(fresh_by(edges@, MergeRule::Rule4), fresh(edges@), edges@.len() as int);
        counting::count_le(fresh_by(edges@, MergeRule::Rule5), fresh(edges@), edges@.len() as int);
    }
    let tally = MergeTally {
        merges,
        rule1,
        rule4,
        rule5,
        refused_aspect: long,
        refused_height: tall,
    };
    if edges.len() == 0 {
        return (None, tally);
    }
    let ghost p0 = parent@;
    let joined = collect(bs, &mut parent);
    let out = sort_bundles(&joined);
    proof {
        let e = same_root(p0);
        let f = one_icon(gs@, *c);
        assert forall|i: int, j: int| 0 <= i < ls.len() && 0 <= j < ls.len() implies #[trigger] e(i, j)
            == f(i, j) by {
            links_are_accepted(gs@, *c, i, j);
            assert(union_find::uf_root(p0, i) == union_find::uf_root(p0, j) <==> connect::reaches(
                link(edges@, edges@.len() as int),
                i,
                j,
            ));
        }
        class_lots_agree(ls, e, f);
        let js = lots_of(joined@);
        let order = choose|order: Seq<usize>| #[trigger]
            sorting::is_order(group::keys_of(groups_of(js)), order, 0, js.len() as int) && lots_of(
                out@,
            ) == picked_lots(js, order);
        assert(groups_of(lots_of(out@)) =~= group::picked(groups_of(js), order));
        sorting_keeps_area(groups_of(js), order);
        assert forall|i: int| 0 <= i < out@.len() implies merge::box_ok(
            (#[trigger] groups_of(lots_of(out@))[i]).bbox,
        ) by {
            assert(merge::box_ok(groups_of(js)[order[i] as int].bbox));
        }
    }
    (Some(out), tally)
}

/// One round never grows a list and keeps everything on the sheet.
pub proof fn round_fits(ls: Seq<Lot>, c: MergeContext, out: Seq<Lot>, w: int, h: int)
    requires
        is_round(ls, c, out),
        lots_fit(ls, w, h),
        w <= u32::MAX,
        h <= u32::MAX,
    ensures
        lots_fit(out, w, h),
        out.len() <= ls.len(),
{
    let e = one_icon(groups_of(ls), c);
    assert forall|i: int| 0 <= i < ls.len() implies #[trigger] e(i, i) by {
        connect::reaches_self(accepted(groups_of(ls), c), i);
    }
    class_lots_fit(ls, e, w, h);
    heads_bounds(e, ls.len() as int);
    let js = class_lots(ls, e);
    let order = choose|order: Seq<usize>| #[trigger]
        sorting::is_order(group::keys_of(groups_of(js)), order, 0, js.len() as int) && out
            == picked_lots(js, order);
    assert forall|i: int| 0 <= i < out.len() implies #[trigger] lot_fits(out[i], w, h) by {
        assert(lot_fits(js[order[i] as int], w, h));
    }
}

/// Lots have one canonical order.
pub proof fn sorted_lots_are_unique(ls: Seq<Lot>, a: Seq<Lot>, b: Seq<Lot>)
    requires
        is_sorted_lots(ls, a),
        is_sorted_lots(ls, b),
    ensures
        a == b,
{
    let keys = group::keys_of(groups_of(ls));
    let s = choose|order: Seq<usize>| #[trigger]
        sorting::is_order(keys, order, 0, ls.len() as int) && a == picked_lots(ls, order);
    let t = choose|order: Seq<usize>| #[trigger]
        sorting::is_order(keys, order, 0, ls.len() as int) && b == picked_lots(ls, order);
    sorting::order_is_unique(keys, s, t, 0, ls.len() as int);
}

// ---- what a round of merges does ----------------------------------------------------

/// The merges of the first edges part by rule.
pub proof fn rules_part_the_merges(es: Seq<Edge>, n: int)
    requires
        0 <= n <= es.len(),
    ensures
        counting::count_below(fresh(es), n) == counting::count_below(fresh_by(es, MergeRule::Rule1), n)
            + counting::count_below(fresh_by(es, MergeRule::Rule4), n) + counting::count_below(
            fresh_by(es, MergeRule::Rule5),
            n,
        ),
    decreases n,
{
    if n > 0 {
        rules_part_the_merges(es, n - 1);
    }
}

/// Every merge is counted under one rule.
pub proof fn merges_are_counted_by_rule(gs: Seq<IconGroup>, c: MergeContext, t: MergeTally)
    requires
        is_tally(gs, c, t),
    ensures
        t.merges == t.rule1 + t.rule4 + t.rule5,
{
    let es = edges_of(gs, c);
    rules_part_the_merges(es, es.len() as int);
}

proof fn lots_cover_their_own(ls: Seq<Lot>, e: spec_fn(int, int) -> bool, r: int, n: int, w: int, h: int)
    requires
        0 <= n <= ls.len(),
        lots_fit(ls, w, h),
        w <= u32::MAX,
        h <= u32::MAX,
    ensures
        match lot_upto(ls, e, r, n) {
            Some(l) => group_fits(l.0, w, h) && forall|k: int|
                0 <= k < n && #[trigger] e(r, k) ==> merge::contains_box(l.0.bbox, ls[k].0.bbox),
            None => forall|k: int| 0 <= k < n ==> !#[trigger] e(r, k),
        },
    decreases n,
{
    if n > 0 {
        lots_cover_their_own(ls, e, r, n - 1, w, h);
        assert(lot_fits(ls[n - 1], w, h));
        if e(r, n - 1) {
            match lot_upto(ls, e, r, n - 1) {
                None => {},
                Some(l) => {
                    merge::union_fits(l.0, ls[n - 1].0, w, h);
                },
            }
        }
    }
}

/// Groups that are judged one icon come out in one box, which holds both of theirs.
pub proof fn merged_groups_share_a_box(ls: Seq<Lot>, c: MergeContext, out: Seq<Lot>, w: int, h: int, i: int, j: int)
    requires
        is_round(ls, c, out),
        lots_fit(ls, w, h),
        w <= u32::MAX,
        h <= u32::MAX,
        ls.len() <= usize::MAX,
        0 <= i < ls.len(),
        0 <= j < ls.len(),
        i != j,
        merge::verdict_of(ls[i].0, ls[j].0, c) is Merge,
    ensures
        exists|t: int|
            0 <= t < out.len() && (#[trigger] out[t]).0.bbox.x <= ls[i].0.bbox.x && out[t].0.bbox.y <= ls[i].0.bbox.y
                && out[t].0.bbox.x + out[t].0.bbox.w >= ls[i].0.bbox.x + ls[i].0.bbox.w && out[t].0.bbox.y
                + out[t].0.bbox.h >= ls[i].0.bbox.y + ls[i].0.bbox.h && out[t].0.bbox.x <= ls[j].0.bbox.x
                && out[t].0.bbox.y <= ls[j].0.bbox.y && out[t].0.bbox.x + out[t].0.bbox.w >= ls[j].0.bbox.x
                + ls[j].0.bbox.w && out[t].0.bbox.y + out[t].0.bbox.h >= ls[j].0.bbox.y + ls[j].0.bbox.h,
{
    let gs = groups_of(ls);
    let e = one_icon(gs, c);
    let a = accepted(gs, c);
    let n = ls.len() as int;
    assert forall|x: int, y: int| #[trigger] a(x, y) implies a(y, x) by {
        merge::verdict_is_symmetric(gs[x], gs[y], c);
    }
    assert(a(i, j));
    connect::reaches_edge(a, i, j);
    let r = head_of(a, i);
    connect::reaches_trans(a, r, i, j);
    assert(e(r, i) && e(r, j));
    heads_hold(e, n, r);
    let heads = heads_upto(e, n);
    let at = choose|at: int| 0 <= at < heads.len() && heads[at] == r;
    let made = class_lots(ls, e);
    lots_cover_their_own(ls, e, r, n, w, h);
    assert(made[at] == lot_upto(ls, e, r, n)->0);
    let order = choose|order: Seq<usize>| #[trigger]
        sorting::is_order(group::keys_of(groups_of(made)), order, 0, made.len() as int) && out == picked_lots(
            made,
            order,
        );
    heads_short(e, n);
    assert(order.contains(at as usize));
    let t = choose|t: int| 0 <= t < order.len() && order[t] == at as usize;
    assert(out[t] == made[at]);
}

proof fn head_of(a: spec_fn(int, int) -> bool, x: int) -> (r: int)
    requires
        0 <= x,
        forall|p: int, q: int| #[trigger] a(p, q) ==> a(q, p),
    ensures
        0 <= r <= x,
        connect::reaches(a, r, x),
        forall|k: int| 0 <= k < r ==> !connect::reaches(a, r, k),
    decreases x,
{
    if exists|k: int| 0 <= k < x && connect::reaches(a, x, k) {
        let k = choose|k: int| 0 <= k < x && connect::reaches(a, x, k);
        let r = head_of(a, k);
        connect::reaches_sym(a, x, k);
        connect::reaches_trans(a, r, k, x);
        r
    } else {
        connect::reaches_self(a, x);
        x
    }
}

proof fn heads_hold(e: spec_fn(int, int) -> bool, n: int, r: int)
    requires
        0 <= r < n,
        is_head(e, r),
    ensures
        heads_upto(e, n).contains(r),
    decreases n,
{
    let now = heads_upto(e, n);
    let before = heads_upto(e, n - 1);
    if r == n - 1 {
        assert(now[before.len() as int] == r);
    } else {
        heads_hold(e, n - 1, r);
        let i = choose|i: int| 0 <= i < before.len() && before[i] == r;
        assert(now[i] == r);
    }
}

proof fn heads_short(e: spec_fn(int, int) -> bool, n: int)
    requires
        0 <= n,
    ensures
        heads_upto(e, n).len() <= n,
    decreases n,
{
    if n > 0 {
        heads_short(e, n - 1);
    }
}

} // verus!
