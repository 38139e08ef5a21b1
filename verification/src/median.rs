//! Medians of integer lists.
//!
//! The median of an even count is the mean of the middle pair, so medians are
//! carried doubled and stay integers.
use vstd::prelude::*;
use crate::counting;
use crate::sorting;
use crate::sorting::SortKey;

verus! {

/// Values as sort keys.
pub open spec fn value_keys(s: Seq<u64>) -> Seq<SortKey> {
    Seq::new(s.len(), |i: int| (s[i], 0u64, 0u64, 0u64))
}

/// `order` sorts `s`, and `v` is the entry at position `at` once sorted.
pub open spec fn sorted_entry(s: Seq<u64>, order: Seq<usize>, at: int, v: u64) -> bool {
    &&& sorting::is_order(value_keys(s), order, 0, s.len() as int)
    &&& s[order[at] as int] == v
}

/// `v` is the entry of `s` at position `at` once sorted.
pub open spec fn is_ranked(s: Seq<u64>, at: int, v: u64) -> bool {
    exists|order: Seq<usize>| #[trigger] sorted_entry(s, order, at, v)
}

/// `v` is the upper middle value of `s`.
pub open spec fn is_middle(s: Seq<u64>, v: u64) -> bool {
    is_ranked(s, s.len() as int / 2, v)
}

/// `m2` is twice the median of `s`; zero for an empty list.
pub open spec fn is_median2(s: Seq<u64>, m2: int) -> bool {
    if s.len() == 0 {
        m2 == 0
    } else if s.len() % 2 == 1 {
        m2 % 2 == 0 && is_ranked(s, s.len() as int / 2, (m2 / 2) as u64) && m2 / 2 <= u64::MAX && 0 <= m2
    } else {
        exists|a: u64, b: u64|
            #![trigger is_ranked(s, s.len() as int / 2 - 1, a), is_ranked(s, s.len() as int / 2, b)]
            is_ranked(s, s.len() as int / 2 - 1, a) && is_ranked(s, s.len() as int / 2, b) && m2 == a
                + b
    }
}

/// No entry exceeds `b`.
pub open spec fn all_at_most(s: Seq<u64>, b: u64) -> bool {
    forall|i: int| 0 <= i < s.len() ==> #[trigger] s[i] <= b
}

/// A list has one entry per rank.
pub proof fn rank_is_unique(s: Seq<u64>, at: int, a: u64, b: u64)
    requires
        0 <= at < s.len(),
        is_ranked(s, at, a),
        is_ranked(s, at, b),
    ensures
        a == b,
{
    let o = choose|order: Seq<usize>| #[trigger] sorted_entry(s, order, at, a);
    let q = choose|order: Seq<usize>| #[trigger] sorted_entry(s, order, at, b);
    sorting::order_is_unique(value_keys(s), o, q, 0, s.len() as int);
    assert(o =~= q);
}

/// A list has one median.
pub proof fn median_is_unique(s: Seq<u64>, a: int, b: int)
    requires
        is_median2(s, a),
        is_median2(s, b),
    ensures
        a == b,
{
    let n = s.len() as int;
    if n > 0 {
        if n % 2 == 1 {
            rank_is_unique(s, n / 2, (a / 2) as u64, (b / 2) as u64);
        } else {
            let (a0, a1) = choose|x: u64, y: u64|
                #![trigger is_ranked(s, n / 2 - 1, x), is_ranked(s, n / 2, y)]
                is_ranked(s, n / 2 - 1, x) && is_ranked(s, n / 2, y) && a == x + y;
            let (b0, b1) = choose|x: u64, y: u64|
                #![trigger is_ranked(s, n / 2 - 1, x), is_ranked(s, n / 2, y)]
                is_ranked(s, n / 2 - 1, x) && is_ranked(s, n / 2, y) && b == x + y;
            rank_is_unique(s, n / 2 - 1, a0, b0);
            rank_is_unique(s, n / 2, a1, b1);
        }
    }
}

fn order_of(s: &Vec<u64>) -> (r: Vec<usize>)
    ensures
        sorting::is_order(value_keys(s@), r@, 0, s@.len() as int),
{
    let mut keys: Vec<SortKey> = Vec::new();
    let mut i: usize = 0;
    while i < s.len()
        invariant
            i <= s@.len(),
            keys@.len() == i,
            forall|k: int| 0 <= k < i ==> #[trigger] keys@[k] == value_keys(s@)[k],
        decreases s@.len() - i,
    {
        keys.push((s[i], 0, 0, 0));
        i = i + 1;
    }
    assert(keys@ =~= value_keys(s@));
    sorting::sort_order(&keys)
}

/// The upper middle value of a list.
pub fn middle(s: &Vec<u64>) -> (r: u64)
    requires
        s@.len() > 0,
    ensures
        is_middle(s@, r),
{
    let order = order_of(s);
    let v: u64 = s[order[s.len() / 2]];
    assert(sorted_entry(s@, order@, s@.len() as int / 2, v));
    v
}

/// Twice the median of a list; zero for an empty list.
pub fn median2(s: &Vec<u64>) -> (r: u64)
    requires
        all_at_most(s@, u64::MAX / 2),
    ensures
        is_median2(s@, r as int),
        forall|b: u64| #[trigger] all_at_most(s@, b) ==> r <= 2 * b,
{
    let n: usize = s.len();
    if n == 0 {
        return 0;
    }
    let order = order_of(s);
    let hi: u64 = s[order[n / 2]];
    assert(sorted_entry(s@, order@, n as int / 2, hi));
    if n % 2 == 1 {
        assert((2 * hi) / 2 == hi);
        2 * hi
    } else {
        let lo: u64 = s[order[n / 2 - 1]];
        assert(sorted_entry(s@, order@, n as int / 2 - 1, lo));
        assert(is_ranked(s@, n as int / 2 - 1, lo) && is_ranked(s@, n as int / 2, hi));
        lo + hi
    }
}

/// `order` lists every position once.
pub open spec fn lists_all(order: Seq<usize>, n: int) -> bool {
    &&& order.len() == n
    &&& forall|i: int| 0 <= i < n ==> 0 <= #[trigger] order[i] < n
    &&& forall|i: int, j: int| 0 <= i < j < n ==> #[trigger] order[i] != #[trigger] order[j]
    &&& forall|v: int| 0 <= v < n ==> #[trigger] order.contains(v as usize)
}

proof fn rank_counts(s: Seq<u64>, at: int, v: u64)
    requires
        0 <= at < s.len() <= usize::MAX,
        is_ranked(s, at, v),
    ensures
        counting::count_below(|i: int| s[i] < v, s.len() as int) <= at,
        at < counting::count_below(|i: int| s[i] <= v, s.len() as int),
{
    let n = s.len() as int;
    let order = choose|order: Seq<usize>| #[trigger] sorted_entry(s, order, at, v);
    let keys = value_keys(s);
    assert forall|i: int, j: int| 0 <= i < j < n implies #[trigger] order[i] != #[trigger] order[j] by {
        assert(sorting::pos_lt(keys, order[i] as int, order[j] as int));
    }
    let less = |i: int| s[i] < v;
    let most = |i: int| s[i] <= v;
    counting::count_permuted(less, order, n);
    counting::count_permuted(most, order, n);
    let f = |i: int| less(order[i] as int);
    let g = |i: int| most(order[i] as int);
    assert forall|i: int| at <= i < n implies !#[trigger] f(i) by {
        if i > at {
            assert(sorting::pos_lt(keys, order[at] as int, order[i] as int));
        }
    }
    assert forall|i: int| 0 <= i < at + 1 implies #[trigger] g(i) by {
        if i < at {
            assert(sorting::pos_lt(keys, order[i] as int, order[at] as int));
        }
    }
    counting::count_span(f, at, n, false);
    counting::count_bounds(f, at);
    counting::count_span(g, 0, at + 1, true);
    counting::count_mono(g, at + 1, n);
    counting::count_ext(f, |i: int| less(order[i] as int), n);
    counting::count_ext(g, |i: int| most(order[i] as int), n);
    counting::count_ext(less, |i: int| s[i] < v, n);
    counting::count_ext(most, |i: int| s[i] <= v, n);
}

proof fn counts_agree(s: Seq<u64>, o: Seq<usize>, t: Seq<u64>, q: Seq<usize>, v: u64)
    requires
        s.len() == t.len() <= usize::MAX,
        lists_all(o, s.len() as int),
        lists_all(q, s.len() as int),
        forall|i: int| 0 <= i < s.len() ==> s[#[trigger] o[i] as int] == t[q[i] as int],
    ensures
        counting::count_below(|i: int| s[i] < v, s.len() as int) == counting::count_below(
            |i: int| t[i] < v,
            s.len() as int,
        ),
        counting::count_below(|i: int| s[i] <= v, s.len() as int) == counting::count_below(
            |i: int| t[i] <= v,
            s.len() as int,
        ),
{
    let n = s.len() as int;
    let a = |i: int| s[i] < v;
    let b = |i: int| t[i] < v;
    let c = |i: int| s[i] <= v;
    let d = |i: int| t[i] <= v;
    counting::count_permuted(a, o, n);
    counting::count_permuted(b, q, n);
    counting::count_permuted(c, o, n);
    counting::count_permuted(d, q, n);
    let ao = |i: int| a(o[i] as int);
    let bq = |i: int| b(q[i] as int);
    let co = |i: int| c(o[i] as int);
    let dq = |i: int| d(q[i] as int);
    assert forall|i: int| 0 <= i < n implies #[trigger] ao(i) == bq(i) by {
        assert(s[o[i] as int] == t[q[i] as int]);
    }
    assert forall|i: int| 0 <= i < n implies #[trigger] co(i) == dq(i) by {
        assert(s[o[i] as int] == t[q[i] as int]);
    }
    counting::count_ext(ao, bq, n);
    counting::count_ext(co, dq, n);
    counting::count_ext(ao, |i: int| a(o[i] as int), n);
    counting::count_ext(bq, |i: int| b(q[i] as int), n);
    counting::count_ext(co, |i: int| c(o[i] as int), n);
    counting::count_ext(dq, |i: int| d(q[i] as int), n);
}

proof fn ranks_agree(s: Seq<u64>, o: Seq<usize>, t: Seq<u64>, q: Seq<usize>, at: int, a: u64, b: u64)
    requires
        0 <= at < s.len() == t.len() <= usize::MAX,
        lists_all(o, s.len() as int),
        lists_all(q, s.len() as int),
        forall|i: int| 0 <= i < s.len() ==> s[#[trigger] o[i] as int] == t[q[i] as int],
        is_ranked(s, at, a),
        is_ranked(t, at, b),
    ensures
        a == b,
{
    let n = s.len() as int;
    rank_counts(s, at, a);
    rank_counts(t, at, b);
    counts_agree(s, o, t, q, a);
    counts_agree(s, o, t, q, b);
    if a < b {
        counting::count_le(|i: int| t[i] <= a, |i: int| t[i] < b, n);
    } else if b < a {
        counting::count_le(|i: int| s[i] <= b, |i: int| s[i] < a, n);
    }
}

/// The order of a list does not change its median.
pub proof fn medians_agree(s: Seq<u64>, o: Seq<usize>, t: Seq<u64>, q: Seq<usize>, a: int, b: int)
    requires
        s.len() == t.len() <= usize::MAX,
        lists_all(o, s.len() as int),
        lists_all(q, s.len() as int),
        forall|i: int| 0 <= i < s.len() ==> s[#[trigger] o[i] as int] == t[q[i] as int],
        is_median2(s, a),
        is_median2(t, b),
    ensures
        a == b,
{
    let n = s.len() as int;
    if n > 0 {
        if n % 2 == 1 {
            ranks_agree(s, o, t, q, n / 2, (a / 2) as u64, (b / 2) as u64);
        } else {
            let (a0, a1) = choose|x: u64, y: u64|
                #![trigger is_ranked(s, n / 2 - 1, x), is_ranked(s, n / 2, y)]
                is_ranked(s, n / 2 - 1, x) && is_ranked(s, n / 2, y) && a == x + y;
            let (b0, b1) = choose|x: u64, y: u64|
                #![trigger is_ranked(t, n / 2 - 1, x), is_ranked(t, n / 2, y)]
                is_ranked(t, n / 2 - 1, x) && is_ranked(t, n / 2, y) && b == x + y;
            ranks_agree(s, o, t, q, n / 2 - 1, a0, b0);
            ranks_agree(s, o, t, q, n / 2, a1, b1);
        }
    }
}

// ---- what a median is ---------------------------------------------------------------

/// Where the two middle entries stand.
proof fn middle_pair(s: Seq<u64>, a: u64, b: u64) -> (r: (int, int))
    requires
        2 <= s.len() <= usize::MAX,
        is_ranked(s, s.len() as int / 2 - 1, a),
        is_ranked(s, s.len() as int / 2, b),
    ensures
        0 <= r.0 < s.len(),
        0 <= r.1 < s.len(),
        r.0 != r.1,
        s[r.0] == a,
        s[r.1] == b,
        a <= b,
        forall|k: int| 0 <= k < s.len() ==> #[trigger] s[k] <= s[r.0] || s[k] >= s[r.1],
{
    let n = s.len() as int;
    let h = n / 2;
    let keys = value_keys(s);
    let o = choose|order: Seq<usize>| #[trigger] sorted_entry(s, order, h - 1, a);
    let q = choose|order: Seq<usize>| #[trigger] sorted_entry(s, order, h, b);
    sorting::order_is_unique(keys, o, q, 0, n);
    assert(sorting::pos_lt(keys, o[h - 1] as int, o[h] as int));
    let i = o[h - 1] as int;
    let j = o[h] as int;
    assert forall|k: int| 0 <= k < n implies #[trigger] s[k] <= s[i] || s[k] >= s[j] by {
        assert(o.contains(k as usize));
        let t = choose|t: int| 0 <= t < o.len() && o[t] == k as usize;
        if t < h - 1 {
            assert(sorting::pos_lt(keys, o[t] as int, o[h - 1] as int));
        } else if t > h {
            assert(sorting::pos_lt(keys, o[h] as int, o[t] as int));
        }
    }
    (i, j)
}

/// Two entries that no entry lies between.
pub open spec fn are_neighbours(s: Seq<u64>, i: int, j: int) -> bool {
    &&& 0 <= i < s.len()
    &&& 0 <= j < s.len()
    &&& i != j
    &&& s[i] <= s[j]
    &&& forall|k: int| 0 <= k < s.len() ==> #[trigger] s[k] <= s[i] || s[k] >= s[j]
}

proof fn odd_halves(s: Seq<u64>, m2: int)
    requires
        0 < s.len() <= usize::MAX,
        s.len() % 2 == 1,
        is_median2(s, m2),
    ensures
        2 * counting::count_below(|i: int| 2 * s[i] < m2, s.len() as int) <= s.len(),
        2 * counting::count_below(|i: int| 2 * s[i] > m2, s.len() as int) <= s.len(),
        exists|i: int| 0 <= i < s.len() && 2 * #[trigger] s[i] == m2,
{
    let n = s.len() as int;
    let below = |i: int| 2 * s[i] < m2;
    let above = |i: int| 2 * s[i] > m2;
    let v = (m2 / 2) as u64;
    rank_counts(s, n / 2, v);
    counting::count_ext(below, |i: int| s[i] < v, n);
    complement(|i: int| s[i] <= v, above, n);
    let order = choose|order: Seq<usize>| #[trigger] sorted_entry(s, order, n / 2, v);
    assert(s[order[n / 2] as int] == v);
}

proof fn even_halves(s: Seq<u64>, a: u64, b: u64)
    requires
        2 <= s.len() <= usize::MAX,
        s.len() % 2 == 0,
        is_ranked(s, s.len() as int / 2 - 1, a),
        is_ranked(s, s.len() as int / 2, b),
        a <= b,
    ensures
        2 * counting::count_below(|i: int| 2 * s[i] < a + b, s.len() as int) <= s.len(),
        2 * counting::count_below(|i: int| 2 * s[i] > a + b, s.len() as int) <= s.len(),
{
    let n = s.len() as int;
    rank_counts(s, n / 2 - 1, a);
    rank_counts(s, n / 2, b);
    counting::count_le(|i: int| 2 * s[i] < a + b, |i: int| s[i] < b, n);
    complement(|i: int| s[i] <= a, |i: int| s[i] > a, n);
    counting::count_le(|i: int| 2 * s[i] > a + b, |i: int| s[i] > a, n);
}

/// At most half of a list lies below its median, and at most half above it. With
/// an odd number of entries the median is one of them; with an even number it is
/// midway between two entries that no entry lies between.
pub proof fn median_halves(s: Seq<u64>, m2: int)
    requires
        0 < s.len() <= usize::MAX,
        is_median2(s, m2),
    ensures
        2 * counting::count_below(|i: int| 2 * s[i] < m2, s.len() as int) <= s.len(),
        2 * counting::count_below(|i: int| 2 * s[i] > m2, s.len() as int) <= s.len(),
        s.len() % 2 == 1 ==> exists|i: int| 0 <= i < s.len() && 2 * #[trigger] s[i] == m2,
        s.len() % 2 == 0 ==> exists|i: int, j: int| #[trigger] are_neighbours(s, i, j) && m2 == s[i] + s[j],
{
    let n = s.len() as int;
    if n % 2 == 1 {
        odd_halves(s, m2);
    } else {
        let (a, b) = choose|x: u64, y: u64|
            #![trigger is_ranked(s, n / 2 - 1, x), is_ranked(s, n / 2, y)]
            is_ranked(s, n / 2 - 1, x) && is_ranked(s, n / 2, y) && m2 == x + y;
        let (i, j) = middle_pair(s, a, b);
        even_halves(s, a, b);
        assert(are_neighbours(s, i, j));
        counting::count_ext(|i: int| 2 * s[i] < a + b, |i: int| 2 * s[i] < m2, n);
        counting::count_ext(|i: int| 2 * s[i] > a + b, |i: int| 2 * s[i] > m2, n);
    }
}

proof fn complement(f: spec_fn(int) -> bool, g: spec_fn(int) -> bool, n: int)
    requires
        n >= 0,
        forall|k: int| 0 <= k < n ==> #[trigger] g(k) == !f(k),
    ensures
        counting::count_below(f, n) + counting::count_below(g, n) == n,
{
    let all = |k: int| true;
    assert forall|k: int| 0 <= k < n implies !(#[trigger] f(k) && g(k)) by {
        assert(g(k) == !f(k));
    }
    counting::count_disjoint(f, g, all, n);
    counting::count_span(all, 0, n, true);
}

proof fn mirrored_rank(s: Seq<u64>, t: Seq<u64>, sum: u64, at: int, a: u64, b: u64)
    requires
        s.len() == t.len() <= usize::MAX,
        0 <= at < s.len(),
        forall|i: int| 0 <= i < s.len() ==> #[trigger] s[i] + t[i] == sum,
        is_ranked(s, at, a),
        is_ranked(t, s.len() - 1 - at, b),
    ensures
        a + b == sum,
{
    let n = s.len() as int;
    rank_counts(s, at, a);
    rank_counts(t, n - 1 - at, b);
    complement(|i: int| t[i] < b, |i: int| t[i] >= b, n);
    complement(|i: int| t[i] <= b, |i: int| t[i] > b, n);
    if a + b < sum {
        // Entries of `s` up to `a` answer to entries of `t` above `b`.
        assert forall|i: int| 0 <= i < n && s[i] <= a implies #[trigger] t[i] > b by {
            assert(s[i] + t[i] == sum);
        }
        counting::count_le(|i: int| s[i] <= a, |i: int| t[i] > b, n);
    } else if a + b > sum {
        assert forall|i: int| 0 <= i < n && t[i] >= b implies #[trigger] s[i] < a by {
            assert(s[i] + t[i] == sum);
        }
        counting::count_le(|i: int| t[i] >= b, |i: int| s[i] < a, n);
    }
}

/// Mirroring a list mirrors its median.
pub proof fn mirrored_median(s: Seq<u64>, t: Seq<u64>, sum: u64, a: int, b: int)
    requires
        0 < s.len() == t.len() <= usize::MAX,
        forall|i: int| 0 <= i < s.len() ==> #[trigger] s[i] + t[i] == sum,
        is_median2(s, a),
        is_median2(t, b),
    ensures
        a + b == 2 * sum,
{
    let n = s.len() as int;
    if n % 2 == 1 {
        mirrored_rank(s, t, sum, n / 2, (a / 2) as u64, (b / 2) as u64);
    } else {
        let (a0, a1) = choose|x: u64, y: u64|
            #![trigger is_ranked(s, n / 2 - 1, x), is_ranked(s, n / 2, y)]
            is_ranked(s, n / 2 - 1, x) && is_ranked(s, n / 2, y) && a == x + y;
        let (b0, b1) = choose|x: u64, y: u64|
            #![trigger is_ranked(t, n / 2 - 1, x), is_ranked(t, n / 2, y)]
            is_ranked(t, n / 2 - 1, x) && is_ranked(t, n / 2, y) && b == x + y;
        mirrored_rank(s, t, sum, n / 2 - 1, a0, b1);
        mirrored_rank(s, t, sum, n / 2, a1, b0);
    }
}

/// The middle entry is one of the list; at most half of the list lies below it, and
/// more than half does not lie above it.
pub proof fn middle_is_the_upper_median(s: Seq<u64>, v: u64)
    requires
        0 < s.len() <= usize::MAX,
        is_middle(s, v),
    ensures
        2 * counting::count_below(|i: int| s[i] < v, s.len() as int) <= s.len(),
        2 * counting::count_below(|i: int| s[i] <= v, s.len() as int) > s.len(),
        exists|i: int| 0 <= i < s.len() && #[trigger] s[i] == v,
{
    rank_counts(s, s.len() as int / 2, v);
    let order = choose|order: Seq<usize>| #[trigger] sorted_entry(s, order, s.len() as int / 2, v);
    assert(s[order[s.len() as int / 2] as int] == v);
}

} // verus!
