//! Clusters of confirmed duplicate pairs, each with a suggested keeper.
use vstd::prelude::*;
use crate::connect;
use crate::dupes;
use crate::hashes::HashItem;
use crate::sorting;
use crate::sorting::SortKey;
use crate::union_find;

verus! {

/// Icons that are taken for the same artwork.
#[derive(Clone, Debug, PartialEq, Eq)]
pub struct DupCluster {
    /// Member ids, ascending.
    pub members: Vec<u32>,
    /// The member to keep.
    pub keeper: u32,
}

// ---- classes ------------------------------------------------------------------------

/// Pair `t` joins `x` and `y`, both below `n`.
pub open spec fn joins(pairs: Seq<(usize, usize)>, n: int, t: int, x: int, y: int) -> bool {
    pairs[t].0 < n && pairs[t].1 < n && ((pairs[t].0 == x && pairs[t].1 == y) || (pairs[t].0 == y
        && pairs[t].1 == x))
}

/// The relation of the first `k` pairs; a pair with a position past `n` joins
/// nothing.
pub open spec fn link(pairs: Seq<(usize, usize)>, n: int, k: int) -> spec_fn(int, int) -> bool {
    |x: int, y: int| exists|t: int| 0 <= t < k && #[trigger] joins(pairs, n, t, x, y)
}

/// Positions that a chain of pairs connects.
pub open spec fn same_class(pairs: Seq<(usize, usize)>, n: int) -> spec_fn(int, int) -> bool {
    |x: int, y: int| connect::reaches(link(pairs, n, pairs.len() as int), x, y)
}

/// The positions below `m` that are related to `r`, ascending.
pub open spec fn class_upto(e: spec_fn(int, int) -> bool, r: int, m: int) -> Seq<int>
    decreases m,
{
    if m <= 0 {
        Seq::empty()
    } else if e(r, m - 1) {
        class_upto(e, r, m - 1).push(m - 1)
    } else {
        class_upto(e, r, m - 1)
    }
}

/// `r` is related to no earlier position.
pub open spec fn is_least(e: spec_fn(int, int) -> bool, r: int) -> bool {
    forall|k: int| 0 <= k < r ==> !#[trigger] e(r, k)
}

/// The least positions below `m` of the classes that have at least two members
/// below `n`.
pub open spec fn heads_upto(e: spec_fn(int, int) -> bool, n: int, m: int) -> Seq<int>
    decreases m,
{
    if m <= 0 {
        Seq::empty()
    } else if is_least(e, m - 1) && class_upto(e, m - 1, n).len() >= 2 {
        heads_upto(e, n, m - 1).push(m - 1)
    } else {
        heads_upto(e, n, m - 1)
    }
}

// ---- what a cluster is --------------------------------------------------------------

/// The ids at some positions.
pub open spec fn ids_at(items: Seq<HashItem>, cls: Seq<int>) -> Seq<u32> {
    Seq::new(cls.len(), |t: int| items[cls[t]].id)
}

/// The scores at some positions.
pub open spec fn scores_at(scores: Seq<i64>, cls: Seq<int>) -> Seq<i64> {
    Seq::new(cls.len(), |t: int| dupes::score_at(scores, cls[t]) as i64)
}

/// The sort keys of a list of ids.
pub open spec fn id_keys(ids: Seq<u32>) -> Seq<SortKey> {
    Seq::new(ids.len(), |i: int| (ids[i] as u64, 0u64, 0u64, 0u64))
}

/// The entries of `s` in the order `o`.
pub open spec fn in_order(s: Seq<u32>, o: Seq<usize>) -> Seq<u32> {
    Seq::new(o.len(), |i: int| s[o[i] as int])
}

/// `r` is `s` in ascending order.
pub open spec fn is_sorted_copy(s: Seq<u32>, r: Seq<u32>) -> bool {
    exists|o: Seq<usize>| #[trigger]
        sorting::is_order(id_keys(s), o, 0, s.len() as int) && r == in_order(s, o)
}

/// `c` is the cluster of the positions `cls`.
pub open spec fn is_cluster(items: Seq<HashItem>, scores: Seq<i64>, cls: Seq<int>, c: DupCluster) -> bool {
    &&& is_sorted_copy(ids_at(items, cls), c.members@)
    &&& dupes::is_keeper(ids_at(items, cls), scores_at(scores, cls), c.keeper)
}

/// `a` comes before `b` from position `i` on, where a prefix comes first.
pub open spec fn list_lt(a: Seq<u32>, b: Seq<u32>, i: int) -> bool
    decreases a.len() - i,
{
    if i >= a.len() {
        i < b.len()
    } else if i >= b.len() {
        false
    } else {
        a[i] < b[i] || (a[i] == b[i] && list_lt(a, b, i + 1))
    }
}

/// By keeper, then by members.
pub open spec fn cluster_lt(a: DupCluster, b: DupCluster) -> bool {
    a.keeper < b.keeper || (a.keeper == b.keeper && list_lt(a.members@, b.members@, 0))
}

/// `order` lists `0..n`, each once.
pub open spec fn is_arrangement(order: Seq<usize>, n: int) -> bool {
    &&& order.len() == n
    &&& forall|i: int| 0 <= i < n ==> (#[trigger] order[i]) < n
    &&& forall|i: int, j: int| 0 <= i < j < n ==> #[trigger] order[i] != #[trigger] order[j]
}

/// `r` holds one cluster for each class of two or more, in the arrangement
/// `order` of the classes.
pub open spec fn lists_classes(
    items: Seq<HashItem>,
    pairs: Seq<(usize, usize)>,
    scores: Seq<i64>,
    r: Seq<DupCluster>,
    order: Seq<usize>,
) -> bool {
    let n = items.len() as int;
    let e = same_class(pairs, n);
    let heads = heads_upto(e, n, n);
    &&& r.len() == heads.len()
    &&& is_arrangement(order, heads.len() as int)
    &&& forall|t: int|
        0 <= t < r.len() ==> is_cluster(
            items,
            scores,
            class_upto(e, heads[order[t] as int], n),
            #[trigger] r[t],
        )
}

/// `r` holds one cluster for each class of two or more, sorted.
pub open spec fn is_clustering(
    items: Seq<HashItem>,
    pairs: Seq<(usize, usize)>,
    scores: Seq<i64>,
    r: Seq<DupCluster>,
) -> bool {
    &&& exists|order: Seq<usize>| #[trigger] lists_classes(items, pairs, scores, r, order)
    &&& forall|i: int, j: int| 0 <= i < j < r.len() ==> !cluster_lt(#[trigger] r[j], #[trigger] r[i])
}

// ---- order --------------------------------------------------------------------------

proof fn list_lt_asym(a: Seq<u32>, b: Seq<u32>, i: int)
    ensures
        list_lt(a, b, i) ==> !list_lt(b, a, i),
    decreases a.len() - i,
{
    if i < a.len() && i < b.len() {
        list_lt_asym(a, b, i + 1);
    }
}

proof fn list_lt_trans(a: Seq<u32>, b: Seq<u32>, c: Seq<u32>, i: int)
    ensures
        list_lt(a, b, i) && list_lt(b, c, i) ==> list_lt(a, c, i),
    decreases a.len() - i,
{
    if i < a.len() && i < b.len() && i < c.len() {
        list_lt_trans(a, b, c, i + 1);
    }
}

proof fn cluster_order(a: DupCluster, b: DupCluster, c: DupCluster)
    ensures
        cluster_lt(a, b) ==> !cluster_lt(b, a),
        cluster_lt(a, b) && cluster_lt(b, c) ==> cluster_lt(a, c),
{
    list_lt_asym(a.members@, b.members@, 0);
    list_lt_trans(a.members@, b.members@, c.members@, 0);
}

fn list_less(a: &Vec<u32>, b: &Vec<u32>) -> (r: bool)
    ensures
        r == list_lt(a@, b@, 0),
{
    let mut i: usize = 0;
    while i < a.len() && i < b.len()
        invariant
            i <= a@.len(),
            i <= b@.len(),
            list_lt(a@, b@, 0) == list_lt(a@, b@, i as int),
        decreases a@.len() - i,
    {
        if a[i] != b[i] {
            return a[i] < b[i];
        }
        i = i + 1;
    }
    i == a.len() && i < b.len()
}

fn cluster_less(a: &DupCluster, b: &DupCluster) -> (r: bool)
    ensures
        r == cluster_lt(*a, *b),
{
    a.keeper < b.keeper || (a.keeper == b.keeper && list_less(&a.members, &b.members))
}

/// The positions of `found` in ascending order.
fn cluster_order_of(found: &Vec<DupCluster>) -> (r: Vec<usize>)
    ensures
        is_arrangement(r@, found@.len() as int),
        forall|i: int, j: int|
            0 <= i < j < r@.len() ==> !cluster_lt(
                found@[(#[trigger] r@[j]) as int],
                found@[(#[trigger] r@[i]) as int],
            ),
{
    let mut order: Vec<usize> = Vec::new();
    let ghost f = found@;
    let mut k: usize = 0;
    while k < found.len()
        invariant
            k <= f.len(),
            f == found@,
            order@.len() == k,
            forall|i: int| 0 <= i < k ==> (#[trigger] order@[i]) < k,
            forall|i: int, j: int| 0 <= i < j < k ==> #[trigger] order@[i] != #[trigger] order@[j],
            forall|i: int, j: int|
                0 <= i < j < k ==> !cluster_lt(
                    f[(#[trigger] order@[j]) as int],
                    f[(#[trigger] order@[i]) as int],
                ),
        decreases f.len() - k,
    {
        let mut p: usize = 0;
        while p < k && !cluster_less(&found[k], &found[order[p]])
            invariant
                p <= k,
                k < f.len(),
                f == found@,
                order@.len() == k,
                forall|i: int| 0 <= i < k ==> (#[trigger] order@[i]) < k,
                forall|i: int| 0 <= i < p ==> !cluster_lt(f[k as int], f[(#[trigger] order@[i]) as int]),
            decreases k - p,
        {
            p = p + 1;
        }
        let ghost o0 = order@;
        order.insert(p, k);
        proof {
            let o1 = order@;
            assert forall|i: int, j: int| 0 <= i < j < k + 1 implies #[trigger] o1[i] != #[trigger] o1[j] by {
                let a = if i < p {
                    i
                } else {
                    i - 1
                };
                let b = if j < p {
                    j
                } else {
                    j - 1
                };
                if i != p && j != p {
                    assert(o0[a] != o0[b]);
                }
            }
            assert forall|i: int, j: int| 0 <= i < j < k + 1 implies !cluster_lt(
                f[(#[trigger] o1[j]) as int],
                f[(#[trigger] o1[i]) as int],
            ) by {
                if j == p {
                    assert(o1[i] == o0[i]);
                } else if i == p {
                    assert(o1[j] == o0[j - 1]);
                    let first = f[o0[p as int] as int];
                    let x = f[k as int];
                    let y = f[o0[j - 1] as int];
                    assert(cluster_lt(x, first));
                    cluster_order(x, first, y);
                    cluster_order(y, x, first);
                    if j - 1 > p {
                        assert(!cluster_lt(f[o0[j - 1] as int], f[o0[p as int] as int]));
                    }
                } else {
                    let a = if i < p {
                        i
                    } else {
                        i - 1
                    };
                    let b = if j < p {
                        j
                    } else {
                        j - 1
                    };
                    assert(o1[i] == o0[a] && o1[j] == o0[b]);
                }
            }
        }
        k = k + 1;
    }
    order
}

// ---- clustering ---------------------------------------------------------------------

/// The sets of `p` are the classes of the first `k` pairs.
spec fn follows(p: Seq<usize>, pairs: Seq<(usize, usize)>, n: int, k: int) -> bool {
    &&& p.len() == n
    &&& union_find::uf_wf(p)
    &&& forall|i: int, j: int|
        0 <= i < n && 0 <= j < n ==> ((#[trigger] union_find::uf_root(p, i)
            == #[trigger] union_find::uf_root(p, j)) <==> connect::reaches(link(pairs, n, k), i, j))
}

proof fn starts_alone(p: Seq<usize>, pairs: Seq<(usize, usize)>, n: int)
    requires
        p.len() == n,
        forall|i: int| 0 <= i < n ==> #[trigger] p[i] == i,
    ensures
        follows(p, pairs, n, 0),
{
    let e = link(pairs, n, 0);
    assert forall|i: int, j: int| 0 <= i < n && 0 <= j < n implies ((#[trigger] union_find::uf_root(p, i)
        == #[trigger] union_find::uf_root(p, j)) <==> connect::reaches(e, i, j)) by {
        if connect::reaches(e, i, j) {
            connect::reaches_keeps(e, |x: int| x == i, i, j);
        }
        if i == j {
            connect::reaches_self(e, i);
        }
    }
}

/// Skipping a pair out of range keeps the classes.
proof fn skip_step(p: Seq<usize>, pairs: Seq<(usize, usize)>, n: int, k: int)
    requires
        follows(p, pairs, n, k),
        0 <= k < pairs.len(),
        pairs[k].0 >= n || pairs[k].1 >= n,
    ensures
        follows(p, pairs, n, k + 1),
{
    let e = link(pairs, n, k);
    let f = link(pairs, n, k + 1);
    assert forall|x: int, y: int| e(x, y) == #[trigger] f(x, y) by {
        if e(x, y) {
            let t = choose|t: int| 0 <= t < k && #[trigger] joins(pairs, n, t, x, y);
            assert(joins(pairs, n, t, x, y));
        }
        if f(x, y) {
            let t = choose|t: int| 0 <= t < k + 1 && #[trigger] joins(pairs, n, t, x, y);
            assert(t != k);
        }
    }
    assert forall|i: int, j: int| 0 <= i < n && 0 <= j < n implies ((#[trigger] union_find::uf_root(p, i)
        == #[trigger] union_find::uf_root(p, j)) <==> connect::reaches(f, i, j)) by {
        if connect::reaches(f, i, j) {
            connect::reaches_mono(f, e, i, j);
        }
        if connect::reaches(e, i, j) {
            connect::reaches_mono(e, f, i, j);
        }
    }
}

proof fn join_step(p: Seq<usize>, q: Seq<usize>, pairs: Seq<(usize, usize)>, n: int, k: int)
    requires
        follows(p, pairs, n, k),
        0 <= k < pairs.len(),
        pairs[k].0 < n,
        pairs[k].1 < n,
        q.len() == n,
        union_find::uf_wf(q),
        union_find::uf_joined(p, q, pairs[k].0 as int, pairs[k].1 as int),
    ensures
        follows(q, pairs, n, k + 1),
{
    let e = link(pairs, n, k);
    let f = link(pairs, n, k + 1);
    let a = pairs[k].0 as int;
    let b = pairs[k].1 as int;
    assert forall|x: int, y: int| #[trigger] e(x, y) implies f(x, y) by {
        let t = choose|t: int| 0 <= t < k && #[trigger] joins(pairs, n, t, x, y);
        assert(joins(pairs, n, t, x, y));
    }
    assert forall|x: int, y: int| #[trigger] f(x, y) implies f(y, x) by {
        let t = choose|t: int| 0 <= t < k + 1 && #[trigger] joins(pairs, n, t, x, y);
        assert(joins(pairs, n, t, y, x));
    }
    assert(f(a, b)) by {
        assert(joins(pairs, n, k, a, b));
    }
    connect::reaches_edge(f, a, b);
    connect::reaches_sym(f, a, b);
    assert forall|i: int, j: int| 0 <= i < n && 0 <= j < n implies ((#[trigger] union_find::uf_root(q, i)
        == #[trigger] union_find::uf_root(q, j)) <==> connect::reaches(f, i, j)) by {
        let ri = union_find::uf_root(p, i);
        let rj = union_find::uf_root(p, j);
        let ra = union_find::uf_root(p, a);
        let rb = union_find::uf_root(p, b);
        if union_find::uf_root(q, i) == union_find::uf_root(q, j) {
            if ri == rj {
                assert(connect::reaches(e, i, j));
                connect::reaches_mono(e, f, i, j);
            } else {
                let (u, v) = if ri == ra {
                    (a, b)
                } else {
                    (b, a)
                };
                assert(union_find::uf_root(p, u) == ri && union_find::uf_root(p, v) == rj);
                assert(connect::reaches(e, i, u));
                assert(connect::reaches(e, v, j));
                connect::reaches_mono(e, f, i, u);
                connect::reaches_mono(e, f, v, j);
                connect::reaches_trans(f, i, u, v);
                connect::reaches_trans(f, i, v, j);
            }
        }
        if connect::reaches(f, i, j) {
            let keep = |x: int| 0 <= x < n && union_find::uf_root(q, x) == union_find::uf_root(q, i);
            assert forall|x: int, y: int| #[trigger] f(x, y) && keep(x) implies keep(y) by {
                let t = choose|t: int| 0 <= t < k + 1 && #[trigger] joins(pairs, n, t, x, y);
                if t < k {
                    assert(e(x, y)) by {
                        assert(joins(pairs, n, t, x, y));
                    }
                    connect::reaches_edge(e, x, y);
                    assert(union_find::uf_root(p, x) == union_find::uf_root(p, y));
                }
            }
            connect::reaches_keeps(f, keep, i, j);
        }
    }
}

/// The classes of the pairs, as a forest.
fn classes(n: usize, pairs: &[(usize, usize)]) -> (r: Vec<usize>)
    ensures
        follows(r@, pairs@, n as int, pairs@.len() as int),
{
    let mut parent: Vec<usize> = Vec::new();
    let mut i: usize = 0;
    while i < n
        invariant
            i <= n,
            parent@.len() == i,
            forall|k: int| 0 <= k < i ==> #[trigger] parent@[k] == k,
        decreases n - i,
    {
        parent.push(i);
        i = i + 1;
    }
    proof {
        starts_alone(parent@, pairs@, n as int);
    }
    let mut k: usize = 0;
    while k < pairs.len()
        invariant
            k <= pairs@.len(),
            follows(parent@, pairs@, n as int, k as int),
        decreases pairs@.len() - k,
    {
        let (a, b): (usize, usize) = pairs[k];
        if a >= n || b >= n {
            proof {
                skip_step(parent@, pairs@, n as int, k as int);
            }
        } else {
            let ghost p0 = parent@;
            union_find::uf_union(&mut parent, a, b);
            proof {
                join_step(p0, parent@, pairs@, n as int, k as int);
            }
        }
        k = k + 1;
    }
    parent
}

/// Positions with one root.
spec fn one_root(p: Seq<usize>) -> spec_fn(int, int) -> bool {
    |x: int, y: int| union_find::uf_root(p, x) == union_find::uf_root(p, y)
}

/// Classes only depend on the relation below `m`.
proof fn class_ext(e: spec_fn(int, int) -> bool, f: spec_fn(int, int) -> bool, r: int, m: int)
    requires
        forall|k: int| 0 <= k < m ==> #[trigger] e(r, k) == f(r, k),
    ensures
        class_upto(e, r, m) == class_upto(f, r, m),
    decreases m,
{
    if m > 0 {
        assert(e(r, m - 1) == f(r, m - 1));
        class_ext(e, f, r, m - 1);
    }
}

/// Heads only depend on the relation below `n`.
proof fn heads_ext(e: spec_fn(int, int) -> bool, f: spec_fn(int, int) -> bool, n: int, m: int)
    requires
        0 <= m <= n,
        forall|x: int, y: int| 0 <= x < n && 0 <= y < n ==> #[trigger] e(x, y) == f(x, y),
    ensures
        heads_upto(e, n, m) == heads_upto(f, n, m),
    decreases m,
{
    if m > 0 {
        heads_ext(e, f, n, m - 1);
        class_ext(e, f, m - 1, n);
        assert(is_least(e, m - 1) == is_least(f, m - 1)) by {
            if is_least(e, m - 1) {
                assert forall|k: int| 0 <= k < m - 1 implies !#[trigger] f(m - 1, k) by {
                    assert(!e(m - 1, k));
                }
            }
            if is_least(f, m - 1) {
                assert forall|k: int| 0 <= k < m - 1 implies !#[trigger] e(m - 1, k) by {
                    assert(!f(m - 1, k));
                }
            }
        }
    }
}

/// The positions with root `root`, ascending.
fn members_of(parent: &Vec<usize>, roots: &Vec<usize>, root: usize) -> (r: Vec<usize>)
    requires
        roots@.len() == parent@.len(),
        root < parent@.len(),
        forall|k: int|
            0 <= k < parent@.len() ==> #[trigger] roots@[k] == union_find::uf_root(parent@, k),
        roots@[root as int] == root,
    ensures
        r@.len() == class_upto(one_root(parent@), root as int, parent@.len() as int).len(),
        forall|t: int|
            0 <= t < r@.len() ==> #[trigger] r@[t] == class_upto(
                one_root(parent@),
                root as int,
                parent@.len() as int,
            )[t],
        forall|t: int| 0 <= t < r@.len() ==> #[trigger] r@[t] < parent@.len(),
{
    let n: usize = roots.len();
    let ghost e = one_root(parent@);
    let mut out: Vec<usize> = Vec::new();
    let mut j: usize = 0;
    while j < n
        invariant
            j <= n,
            n == roots@.len(),
            n == parent@.len(),
            e == one_root(parent@),
            root < n,
            roots@[root as int] == root,
            forall|k: int| 0 <= k < n ==> #[trigger] roots@[k] == union_find::uf_root(parent@, k),
            out@.len() == class_upto(e, root as int, j as int).len(),
            forall|t: int|
                0 <= t < out@.len() ==> #[trigger] out@[t] == class_upto(e, root as int, j as int)[t],
            forall|t: int| 0 <= t < out@.len() ==> #[trigger] out@[t] < n,
        decreases n - j,
    {
        assert(roots@[j as int] == union_find::uf_root(parent@, j as int));
        assert(roots@[root as int] == union_find::uf_root(parent@, root as int));
        if roots[j] == root {
            out.push(j);
        }
        j = j + 1;
    }
    out
}

/// The cluster of the items at `at`.
fn cluster_at(items: &[HashItem], scores: &[i64], at: &Vec<usize>, Ghost(cls): Ghost<Seq<int>>) -> (r: DupCluster)
    requires
        at@.len() == cls.len(),
        at@.len() > 0,
        forall|t: int| 0 <= t < at@.len() ==> #[trigger] at@[t] == cls[t],
        forall|t: int| 0 <= t < at@.len() ==> #[trigger] at@[t] < items@.len(),
    ensures
        is_cluster(items@, scores@, cls, r),
{
    let mut ids: Vec<u32> = Vec::new();
    let mut own: Vec<i64> = Vec::new();
    let mut keys: Vec<SortKey> = Vec::new();
    let mut t: usize = 0;
    while t < at.len()
        invariant
            t <= at@.len(),
            at@.len() == cls.len(),
            forall|t: int| 0 <= t < at@.len() ==> #[trigger] at@[t] == cls[t],
            forall|t: int| 0 <= t < at@.len() ==> #[trigger] at@[t] < items@.len(),
            ids@.len() == t,
            own@.len() == t,
            keys@.len() == t,
            forall|k: int| 0 <= k < t ==> #[trigger] ids@[k] == items@[cls[k]].id,
            forall|k: int| 0 <= k < t ==> #[trigger] own@[k] == dupes::score_at(scores@, cls[k]),
            forall|k: int| 0 <= k < t ==> #[trigger] keys@[k] == (ids@[k] as u64, 0u64, 0u64, 0u64),
        decreases at@.len() - t,
    {
        let i: usize = at[t];
        ids.push(items[i].id);
        own.push(
            if i < scores.len() {
                scores[i]
            } else {
                0
            },
        );
        keys.push((items[i].id as u64, 0, 0, 0));
        t = t + 1;
    }
    let ghost gi = ids_at(items@, cls);
    let ghost gs = scores_at(scores@, cls);
    assert(ids@ =~= gi);
    assert(own@ =~= gs);
    assert(keys@ =~= id_keys(gi));
    let keeper: u32 = match dupes::suggest_keeper(ids.as_slice(), own.as_slice()) {
        Some(v) => v,
        None => ids[0],
    };
    let order = sorting::sort_order(&keys);
    let mut members: Vec<u32> = Vec::new();
    let mut k: usize = 0;
    while k < order.len()
        invariant
            k <= order@.len(),
            ids@ == gi,
            sorting::is_order(id_keys(gi), order@, 0, gi.len() as int),
            members@.len() == k,
            forall|m: int| 0 <= m < k ==> #[trigger] members@[m] == in_order(gi, order@)[m],
        decreases order@.len() - k,
    {
        members.push(ids[order[k]]);
        k = k + 1;
    }
    assert(members@ =~= in_order(gi, order@));
    let r = DupCluster { members, keeper };
    assert(sorting::is_order(id_keys(gi), order@, 0, gi.len() as int) && r.members@ == in_order(
        gi,
        order@,
    ));
    r
}

fn copy_cluster(c: &DupCluster) -> (r: DupCluster)
    ensures
        r.members@ == c.members@,
        r.keeper == c.keeper,
{
    let mut members: Vec<u32> = Vec::new();
    let mut i: usize = 0;
    while i < c.members.len()
        invariant
            i <= c.members@.len(),
            members@.len() == i,
            forall|k: int| 0 <= k < i ==> #[trigger] members@[k] == c.members@[k],
        decreases c.members@.len() - i,
    {
        members.push(c.members[i]);
        i = i + 1;
    }
    assert(members@ =~= c.members@);
    DupCluster { members, keeper: c.keeper }
}

/// Gathers confirmed pairs into clusters, each with the member to keep.
///
/// `scores` runs parallel to `items`; a missing score counts as zero. Classes
/// of one are not reported. The result is sorted by keeper, then by members.
pub fn cluster(items: &[HashItem], pairs: &[(usize, usize)], scores: &[i64]) -> (r: Vec<DupCluster>)
    ensures
        is_clustering(items@, pairs@, scores@, r@),
{
    let n: usize = items.len();
    let mut parent = classes(n, pairs);
    let ghost p0 = parent@;
    let ghost e = one_root(p0);
    let ghost c = same_class(pairs@, n as int);
    proof {
        assert forall|x: int, y: int| 0 <= x < n && 0 <= y < n implies #[trigger] e(x, y) == c(x, y) by {
            assert((union_find::uf_root(p0, x) == union_find::uf_root(p0, y)) <==> connect::reaches(
                link(pairs@, n as int, pairs@.len() as int),
                x,
                y,
            ));
        }
        heads_ext(e, c, n as int, n as int);
    }
    let mut roots: Vec<usize> = Vec::new();
    let mut i: usize = 0;
    while i < n
        invariant
            i <= n,
            p0.len() == n,
            parent@.len() == n,
            union_find::uf_wf(p0),
            union_find::uf_wf(parent@),
            forall|j: int|
                0 <= j < n ==> #[trigger] union_find::uf_root(parent@, j) == union_find::uf_root(p0, j),
            roots@.len() == i,
            forall|k: int| 0 <= k < i ==> #[trigger] roots@[k] == union_find::uf_root(p0, k),
        decreases n - i,
    {
        let ghost before = parent@;
        let root: usize = union_find::uf_find(&mut parent, i);
        proof {
            assert(union_find::uf_root(before, i as int) == union_find::uf_root(p0, i as int));
            assert forall|j: int| 0 <= j < n implies #[trigger] union_find::uf_root(parent@, j)
                == union_find::uf_root(p0, j) by {
                assert(union_find::uf_root(before, j) == union_find::uf_root(p0, j));
            }
        }
        roots.push(root);
        i = i + 1;
    }
    let mut found: Vec<DupCluster> = Vec::new();
    let ghost mut hs: Seq<int> = Seq::empty();
    let mut h: usize = 0;
    while h < n
        invariant
            h <= n,
            n == items@.len(),
            p0.len() == n,
            roots@.len() == n,
            parent@.len() == n,
            union_find::uf_wf(p0),
            e == one_root(p0),
            forall|j: int|
                0 <= j < n ==> #[trigger] union_find::uf_root(parent@, j) == union_find::uf_root(p0, j),
            forall|k: int| 0 <= k < n ==> #[trigger] roots@[k] == union_find::uf_root(p0, k),
            hs == heads_upto(e, n as int, h as int),
            found@.len() == hs.len(),
            forall|t: int|
                0 <= t < found@.len() ==> is_cluster(
                    items@,
                    scores@,
                    class_upto(e, hs[t], n as int),
                    #[trigger] found@[t],
                ),
            forall|t: int| 0 <= t < hs.len() ==> 0 <= #[trigger] hs[t] < n,
        decreases n - h,
    {
        assert(roots@[h as int] == union_find::uf_root(p0, h as int));
        if roots[h] == h {
            proof {
                assert forall|k: int| 0 <= k < h implies !#[trigger] e(h as int, k) by {
                    union_find::lemma_root_bounds(p0, k);
                }
                assert forall|k: int| 0 <= k < parent@.len() implies #[trigger] roots@[k]
                    == union_find::uf_root(parent@, k) by {
                    assert(union_find::uf_root(parent@, k) == union_find::uf_root(p0, k));
                }
            }
            let at = members_of(&parent, &roots, h);
            proof {
                let f = one_root(parent@);
                assert forall|k: int| 0 <= k < n implies #[trigger] f(h as int, k) == e(h as int, k) by {
                    assert(union_find::uf_root(parent@, k) == union_find::uf_root(p0, k));
                    assert(union_find::uf_root(parent@, h as int) == union_find::uf_root(p0, h as int));
                }
                class_ext(f, e, h as int, n as int);
            }
            if at.len() >= 2 {
                let ghost cls = class_upto(e, h as int, n as int);
                let made = cluster_at(items, scores, &at, Ghost(cls));
                let ghost found0 = found@;
                found.push(made);
                proof {
                    let h0 = hs;
                    hs = hs.push(h as int);
                    assert forall|t: int| 0 <= t < found@.len() implies is_cluster(
                        items@,
                        scores@,
                        class_upto(e, hs[t], n as int),
                        #[trigger] found@[t],
                    ) by {
                        if t < found0.len() {
                            assert(found@[t] == found0[t] && hs[t] == h0[t]);
                        }
                    }
                }
            }
        } else {
            proof {
                union_find::lemma_root_bounds(p0, h as int);
                let root = union_find::uf_root(p0, h as int);
                assert(e(h as int, root));
                assert(!is_least(e, h as int));
            }
        }
        h = h + 1;
    }
    let order = cluster_order_of(&found);
    let mut out: Vec<DupCluster> = Vec::new();
    let mut t: usize = 0;
    while t < order.len()
        invariant
            t <= order@.len(),
            is_arrangement(order@, found@.len() as int),
            out@.len() == t,
            forall|k: int|
                0 <= k < t ==> (#[trigger] out@[k]).members@ == found@[order@[k] as int].members@
                    && out@[k].keeper == found@[order@[k] as int].keeper,
        decreases order@.len() - t,
    {
        assert(order@[t as int] < found@.len());
        out.push(copy_cluster(&found[order[t]]));
        t = t + 1;
    }
    proof {
        let heads = heads_upto(c, n as int, n as int);
        assert(heads == hs);
        assert forall|k: int| 0 <= k < out@.len() implies is_cluster(
            items@,
            scores@,
            class_upto(c, heads[order@[k] as int], n as int),
            #[trigger] out@[k],
        ) by {
            let m = order@[k] as int;
            assert(is_cluster(items@, scores@, class_upto(e, hs[m], n as int), found@[m]));
            let r = hs[m];
            assert forall|y: int| 0 <= y < n implies #[trigger] e(r, y) == c(r, y) by {}
            class_ext(e, c, r, n as int);
        }
        assert(lists_classes(items@, pairs@, scores@, out@, order@));
        assert forall|i: int, j: int| 0 <= i < j < out@.len() implies !cluster_lt(
            #[trigger] out@[j],
            #[trigger] out@[i],
        ) by {
            assert(!cluster_lt(found@[order@[j] as int], found@[order@[i] as int]));
        }
    }
    out
}

// ---- one outcome --------------------------------------------------------------------

proof fn list_lt_total(a: Seq<u32>, b: Seq<u32>, i: int)
    requires
        0 <= i <= a.len(),
        i <= b.len(),
        forall|k: int| 0 <= k < i ==> #[trigger] a[k] == b[k],
    ensures
        list_lt(a, b, i) || list_lt(b, a, i) || a == b,
    decreases a.len() - i,
{
    if i < a.len() && i < b.len() {
        if a[i] == b[i] {
            list_lt_total(a, b, i + 1);
        }
    } else if i >= a.len() && i >= b.len() {
        assert(a =~= b);
    }
}

/// Two clusters that hold the same.
pub open spec fn same_cluster(a: DupCluster, b: DupCluster) -> bool {
    a.keeper == b.keeper && a.members@ == b.members@
}

proof fn clusters_are_unique(
    items: Seq<HashItem>,
    scores: Seq<i64>,
    cls: Seq<int>,
    a: DupCluster,
    b: DupCluster,
)
    requires
        is_cluster(items, scores, cls, a),
        is_cluster(items, scores, cls, b),
    ensures
        same_cluster(a, b),
{
    let ids = ids_at(items, cls);
    let n = ids.len() as int;
    let o = choose|o: Seq<usize>| #[trigger]
        sorting::is_order(id_keys(ids), o, 0, n) && a.members@ == in_order(ids, o);
    let p = choose|o: Seq<usize>| #[trigger]
        sorting::is_order(id_keys(ids), o, 0, n) && b.members@ == in_order(ids, o);
    sorting::order_is_unique(id_keys(ids), o, p, 0, n);
    dupes::keeper_is_unique(ids, scores_at(scores, cls), a.keeper, b.keeper);
}

/// Among more than `n` values below `n`, two agree.
proof fn two_agree(f: spec_fn(int) -> int, n: int)
    requires
        0 <= n,
        forall|x: int| 0 <= x <= n ==> 0 <= #[trigger] f(x) < n,
    ensures
        exists|x: int, y: int| 0 <= x < y <= n && #[trigger] f(x) == #[trigger] f(y),
{
    if forall|x: int, y: int| 0 <= x < y <= n ==> #[trigger] f(x) != #[trigger] f(y) {
        let from = vstd::set_lib::set_int_range(0, n + 1);
        let into = vstd::set_lib::set_int_range(0, n);
        vstd::set_lib::lemma_int_range(0, n + 1);
        vstd::set_lib::lemma_int_range(0, n);
        assert(vstd::relations::injective_on(f, from));
        vstd::set_lib::lemma_map_size(from, from.map(f), f);
        assert(from.map(f).subset_of(into));
        vstd::set_lib::lemma_len_subset(from.map(f), into);
    }
}

/// The clusters up to `t` of one listing cannot all come before entry `t` of
/// another.
proof fn not_before(
    items: Seq<HashItem>,
    pairs: Seq<(usize, usize)>,
    scores: Seq<i64>,
    r: Seq<DupCluster>,
    s: Seq<DupCluster>,
    t: int,
)
    requires
        is_clustering(items, pairs, scores, r),
        is_clustering(items, pairs, scores, s),
        0 <= t < r.len(),
    ensures
        r.len() == s.len(),
        !cluster_lt(r[t], s[t]),
{
    let o = choose|order: Seq<usize>| #[trigger] lists_classes(items, pairs, scores, r, order);
    let p = choose|order: Seq<usize>| #[trigger] lists_classes(items, pairs, scores, s, order);
    let n = items.len() as int;
    let e = same_class(pairs, n);
    let heads = heads_upto(e, n, n);
    let m = heads.len() as int;
    let f = |x: int| if x <= t { o[x] as int } else { p[x - 1] as int };
    assert forall|x: int| 0 <= x <= m implies 0 <= #[trigger] f(x) < m by {
        if x <= t {
            assert(o[x] < m);
        } else {
            assert(p[x - 1] < m);
        }
    }
    two_agree(f, m);
    let (x, y) = choose|x: int, y: int| 0 <= x < y <= m && #[trigger] f(x) == #[trigger] f(y);
    if y <= t {
        assert(o[x] != o[y]);
    }
    if x > t {
        assert(p[x - 1] != p[y - 1]);
    }
    let a = r[x];
    let b = s[y - 1];
    clusters_are_unique(items, scores, class_upto(e, heads[o[x] as int], n), a, b);
    if cluster_lt(r[t], s[t]) {
        cluster_follows(a, r[t], s[t]);
        cluster_order(a, s[t], b);
        assert(cluster_lt(a, s[t]));
        assert(!cluster_lt(b, s[t]));
    }
}

/// What is not after a cluster comes before all that follows it.
proof fn cluster_follows(a: DupCluster, b: DupCluster, c: DupCluster)
    ensures
        !cluster_lt(b, a) && cluster_lt(b, c) ==> cluster_lt(a, c),
{
    list_lt_total(a.members@, b.members@, 0);
    list_lt_trans(a.members@, b.members@, c.members@, 0);
}

/// The same icons, pairs and scores always give the same clusters, in the same
/// order.
pub proof fn clustering_is_determined(
    items: Seq<HashItem>,
    pairs: Seq<(usize, usize)>,
    scores: Seq<i64>,
    r: Seq<DupCluster>,
    s: Seq<DupCluster>,
)
    requires
        is_clustering(items, pairs, scores, r),
        is_clustering(items, pairs, scores, s),
    ensures
        r.len() == s.len(),
        forall|t: int| 0 <= t < r.len() ==> same_cluster(#[trigger] r[t], s[t]),
{
    assert forall|t: int| 0 <= t < r.len() implies same_cluster(#[trigger] r[t], s[t]) by {
        not_before(items, pairs, scores, r, s, t);
        not_before(items, pairs, scores, s, r, t);
        list_lt_total(r[t].members@, s[t].members@, 0);
    }
}

// ---- what a cluster is --------------------------------------------------------------

proof fn classes_are_equivalences(pairs: Seq<(usize, usize)>, n: int)
    ensures
        forall|x: int| #[trigger] same_class(pairs, n)(x, x),
        forall|x: int, y: int| #[trigger] same_class(pairs, n)(x, y) ==> same_class(pairs, n)(y, x),
        forall|x: int, y: int, z: int|
            #![trigger same_class(pairs, n)(x, y), same_class(pairs, n)(y, z)]
            same_class(pairs, n)(x, y) && same_class(pairs, n)(y, z) ==> same_class(pairs, n)(x, z),
{
    let e = same_class(pairs, n);
    let l = link(pairs, n, pairs.len() as int);
    assert forall|x: int| #[trigger] e(x, x) by {
        connect::reaches_self(l, x);
    }
    assert forall|x: int, y: int| #[trigger] l(x, y) implies l(y, x) by {
        let t = choose|t: int| 0 <= t < pairs.len() && #[trigger] joins(pairs, n, t, x, y);
        assert(joins(pairs, n, t, y, x));
    }
    assert forall|x: int, y: int| #[trigger] e(x, y) implies e(y, x) by {
        connect::reaches_sym(l, x, y);
    }
    assert forall|x: int, y: int, z: int|
        #![trigger e(x, y), e(y, z)]
        e(x, y) && e(y, z) implies e(x, z) by {
        connect::reaches_trans(l, x, y, z);
    }
}

proof fn least_of_class(pairs: Seq<(usize, usize)>, n: int, x: int) -> (h: int)
    requires
        0 <= x,
    ensures
        0 <= h <= x,
        same_class(pairs, n)(h, x),
        is_least(same_class(pairs, n), h),
    decreases x,
{
    let e = same_class(pairs, n);
    classes_are_equivalences(pairs, n);
    if is_least(e, x) {
        assert(e(x, x));
        x
    } else {
        let k = choose|k: int| 0 <= k < x && #[trigger] e(x, k);
        let h = least_of_class(pairs, n, k);
        assert(e(k, x));
        assert(e(h, k));
        h
    }
}

proof fn class_is_listed(e: spec_fn(int, int) -> bool, r: int, m: int)
    requires
        0 <= m,
    ensures
        forall|x: int| 0 <= x < m ==> #[trigger] class_upto(e, r, m).contains(x) == e(r, x),
        forall|i: int|
            0 <= i < class_upto(e, r, m).len() ==> 0 <= #[trigger] class_upto(e, r, m)[i] < m && e(
                r,
                class_upto(e, r, m)[i],
            ),
        forall|i: int, j: int|
            0 <= i < j < class_upto(e, r, m).len() ==> #[trigger] class_upto(e, r, m)[i] < #[trigger] class_upto(
                e,
                r,
                m,
            )[j],
    decreases m,
{
    if m > 0 {
        class_is_listed(e, r, m - 1);
        let before = class_upto(e, r, m - 1);
        let now = class_upto(e, r, m);
        assert forall|x: int| 0 <= x < m implies #[trigger] now.contains(x) == e(r, x) by {
            if x < m - 1 {
                if before.contains(x) {
                    let i = choose|i: int| 0 <= i < before.len() && before[i] == x;
                    assert(now[i] == x);
                }
                if now.contains(x) {
                    let i = choose|i: int| 0 <= i < now.len() && now[i] == x;
                    assert(before[i] == x);
                }
            } else {
                if e(r, x) {
                    assert(now[before.len() as int] == x);
                }
                if now.contains(x) {
                    let i = choose|i: int| 0 <= i < now.len() && now[i] == x;
                    if i < before.len() {
                        assert(before[i] < m - 1);
                    }
                }
            }
        }
    }
}

proof fn heads_are_listed(e: spec_fn(int, int) -> bool, n: int, m: int)
    requires
        0 <= m,
    ensures
        forall|h: int|
            0 <= h < m && is_least(e, h) && class_upto(e, h, n).len() >= 2 ==> #[trigger] heads_upto(e, n, m).contains(h),
        forall|i: int|
            0 <= i < heads_upto(e, n, m).len() ==> 0 <= #[trigger] heads_upto(e, n, m)[i] < m && class_upto(
                e,
                heads_upto(e, n, m)[i],
                n,
            ).len() >= 2,
    decreases m,
{
    if m > 0 {
        heads_are_listed(e, n, m - 1);
        let before = heads_upto(e, n, m - 1);
        let now = heads_upto(e, n, m);
        assert forall|h: int| 0 <= h < m && is_least(e, h) && class_upto(e, h, n).len() >= 2 implies #[trigger] now.contains(
            h,
        ) by {
            if h < m - 1 {
                assert(before.contains(h));
                let i = choose|i: int| 0 <= i < before.len() && before[i] == h;
                assert(now[i] == h);
            } else {
                assert(now[before.len() as int] == h);
            }
        }
    }
}

proof fn arrangements_name_all(order: Seq<usize>, n: int, k: int)
    requires
        is_arrangement(order, n),
        0 <= k < n,
    ensures
        exists|t: int| 0 <= t < n && #[trigger] order[t] == k,
{
    let s = Seq::new(order.len(), |i: int| order[i] as int);
    assert(s.no_duplicates()) by {
        assert forall|i: int, j: int| 0 <= i < s.len() && 0 <= j < s.len() && i != j implies s[i] != s[j] by {
            if i < j {
                assert(order[i] != order[j]);
            } else {
                assert(order[j] != order[i]);
            }
        }
    }
    s.unique_seq_to_set();
    vstd::set_lib::lemma_int_range(0, n);
    let all = vstd::set_lib::set_int_range(0, n);
    assert forall|v: int| s.to_set().contains(v) implies all.contains(v) by {
        let i = choose|i: int| 0 <= i < s.len() && s[i] == v;
        assert(order[i] < n);
    }
    vstd::set_lib::lemma_subset_equality(s.to_set(), all);
    assert(all.contains(k));
    assert(s.contains(k));
    let t = choose|t: int| 0 <= t < s.len() && s[t] == k;
    assert(order[t] == k);
}

proof fn sorted_copy_holds(s: Seq<u32>, r: Seq<u32>, i: int)
    requires
        is_sorted_copy(s, r),
        0 <= i < s.len() <= usize::MAX,
    ensures
        r.contains(s[i]),
{
    let o = choose|o: Seq<usize>| #[trigger]
        sorting::is_order(id_keys(s), o, 0, s.len() as int) && r == in_order(s, o);
    assert(o.contains(i as usize));
    let t = choose|t: int| 0 <= t < o.len() && o[t] == i as usize;
    assert(r[t] == s[i]);
}

/// The two items of a pair are members of one cluster.
pub proof fn paired_items_share_a_cluster(
    items: Seq<HashItem>,
    pairs: Seq<(usize, usize)>,
    scores: Seq<i64>,
    r: Seq<DupCluster>,
    k: int,
)
    requires
        is_clustering(items, pairs, scores, r),
        items.len() <= usize::MAX,
        0 <= k < pairs.len(),
        pairs[k].0 < items.len(),
        pairs[k].1 < items.len(),
        pairs[k].0 != pairs[k].1,
    ensures
        exists|t: int|
            0 <= t < r.len() && (#[trigger] r[t]).members@.contains(items[pairs[k].0 as int].id)
                && r[t].members@.contains(items[pairs[k].1 as int].id),
{
    let n = items.len() as int;
    let e = same_class(pairs, n);
    let x = pairs[k].0 as int;
    let y = pairs[k].1 as int;
    let l = link(pairs, n, pairs.len() as int);
    assert(joins(pairs, n, k, x, y));
    assert(l(x, y));
    connect::reaches_edge(l, x, y);
    classes_are_equivalences(pairs, n);
    let h = least_of_class(pairs, n, x);
    assert(e(h, x) && e(x, y));
    assert(e(h, y));
    class_is_listed(e, h, n);
    let cls = class_upto(e, h, n);
    assert(cls.contains(x) && cls.contains(y));
    let i = choose|i: int| 0 <= i < cls.len() && cls[i] == x;
    let j = choose|j: int| 0 <= j < cls.len() && cls[j] == y;
    heads_are_listed(e, n, n);
    let heads = heads_upto(e, n, n);
    assert(heads.contains(h));
    let at = choose|at: int| 0 <= at < heads.len() && heads[at] == h;
    let order = choose|order: Seq<usize>| #[trigger] lists_classes(items, pairs, scores, r, order);
    arrangements_name_all(order, heads.len() as int, at);
    let t = choose|t: int| 0 <= t < heads.len() && #[trigger] order[t] == at;
    assert(is_cluster(items, scores, cls, r[t]));
    let ids = ids_at(items, cls);
    class_short(cls, n);
    sorted_copy_holds(ids, r[t].members@, i);
    sorted_copy_holds(ids, r[t].members@, j);
    assert(ids[i] == items[x].id && ids[j] == items[y].id);
}

proof fn class_short(cls: Seq<int>, n: int)
    requires
        forall|i: int| 0 <= i < cls.len() ==> 0 <= #[trigger] cls[i] < n,
        forall|i: int, j: int| 0 <= i < j < cls.len() ==> #[trigger] cls[i] < #[trigger] cls[j],
    ensures
        cls.len() <= n || cls.len() == 0,
{
    if cls.len() > 0 {
        rises_by_one(cls, cls.len() - 1);
        assert(cls[cls.len() - 1] < n);
    }
}

proof fn rises_by_one(cls: Seq<int>, k: int)
    requires
        0 <= k < cls.len(),
        forall|i: int| 0 <= i < cls.len() ==> 0 <= #[trigger] cls[i],
        forall|i: int, j: int| 0 <= i < j < cls.len() ==> #[trigger] cls[i] < #[trigger] cls[j],
    ensures
        cls[k] >= k,
    decreases k,
{
    if k > 0 {
        rises_by_one(cls, k - 1);
        assert(cls[k - 1] < cls[k]);
    }
}

/// A cluster has at least two members, which pairs link: a set of items that holds
/// one of them and, with one item of a pair, the other, holds them all. Their
/// places are returned, in ascending order.
pub proof fn clusters_hold_linked_items(
    items: Seq<HashItem>,
    pairs: Seq<(usize, usize)>,
    scores: Seq<i64>,
    r: Seq<DupCluster>,
    t: int,
    s: spec_fn(int) -> bool,
) -> (cls: Seq<int>)
    requires
        is_clustering(items, pairs, scores, r),
        items.len() <= usize::MAX,
        0 <= t < r.len(),
        forall|k: int|
            0 <= k < pairs.len() ==> s((#[trigger] pairs[k]).0 as int) == s(pairs[k].1 as int),
    ensures
        cls.len() >= 2,
        r[t].members@.len() == cls.len(),
        forall|i: int|
            0 <= i < cls.len() ==> 0 <= #[trigger] cls[i] < items.len() && r[t].members@.contains(items[cls[i]].id),
        forall|i: int, j: int| 0 <= i < j < cls.len() ==> #[trigger] cls[i] < #[trigger] cls[j],
        forall|i: int, j: int| 0 <= i < cls.len() && 0 <= j < cls.len() ==> s(#[trigger] cls[i]) == s(#[trigger] cls[j]),
        r[t].members@.contains(r[t].keeper),
        forall|i: int, j: int|
            0 <= i < j < r[t].members@.len() ==> #[trigger] r[t].members@[i] <= #[trigger] r[t].members@[j],
{
    let n = items.len() as int;
    let e = same_class(pairs, n);
    let heads = heads_upto(e, n, n);
    let order = choose|order: Seq<usize>| #[trigger] lists_classes(items, pairs, scores, r, order);
    let h = heads[order[t] as int];
    let cls = class_upto(e, h, n);
    assert(is_cluster(items, scores, cls, r[t]));
    heads_are_listed(e, n, n);
    class_is_listed(e, h, n);
    classes_are_equivalences(pairs, n);
    let l = link(pairs, n, pairs.len() as int);
    let ids = ids_at(items, cls);
    class_short(cls, n);
    assert forall|i: int| 0 <= i < cls.len() implies 0 <= #[trigger] cls[i] < items.len() && r[t].members@.contains(
        items[cls[i]].id,
    ) by {
        sorted_copy_holds(ids, r[t].members@, i);
        assert(ids[i] == items[cls[i]].id);
    }
    assert forall|i: int, j: int| 0 <= i < cls.len() && 0 <= j < cls.len() implies s(#[trigger] cls[i]) == s(
        #[trigger] cls[j],
    ) by {
        assert(e(h, cls[i]) && e(h, cls[j]));
        assert(e(cls[i], h));
        assert(e(cls[i], cls[j]));
        let keep = |x: int| s(x) == s(cls[i]);
        assert forall|x: int, y: int| #[trigger] l(x, y) && keep(x) implies keep(y) by {
            let k = choose|k: int| 0 <= k < pairs.len() && #[trigger] joins(pairs, n, k, x, y);
            assert(s(pairs[k].0 as int) == s(pairs[k].1 as int));
        }
        connect::reaches_keeps(l, keep, cls[i], cls[j]);
    }
    let k = choose|k: int| #[trigger] dupes::is_best(ids, scores_at(scores, cls), k) && ids[k] == r[t].keeper;
    sorted_copy_holds(ids, r[t].members@, k);
    let o = choose|o: Seq<usize>| #[trigger]
        sorting::is_order(id_keys(ids), o, 0, ids.len() as int) && r[t].members@ == in_order(ids, o);
    assert forall|i: int, j: int| 0 <= i < j < r[t].members@.len() implies #[trigger] r[t].members@[i]
        <= #[trigger] r[t].members@[j] by {
        assert(sorting::pos_lt(id_keys(ids), o[i] as int, o[j] as int));
    }
    cls
}

} // verus!
