//! Counting the positions below a bound that satisfy a predicate.
use vstd::prelude::*;

verus! {

/// How many `k` in `0..n` satisfy `f`.
pub open spec fn count_below(f: spec_fn(int) -> bool, n: int) -> int
    decreases n,
{
    if n <= 0 {
        0
    } else {
        count_below(f, n - 1) + (if f(n - 1) {
            1int
        } else {
            0int
        })
    }
}

/// The sum of `f` over `0..n`.
pub open spec fn sum_below(f: spec_fn(int) -> int, n: int) -> int
    decreases n,
{
    if n <= 0 {
        0
    } else {
        sum_below(f, n - 1) + f(n - 1)
    }
}

pub proof fn count_bounds(f: spec_fn(int) -> bool, n: int)
    ensures
        0 <= count_below(f, n),
        n >= 0 ==> count_below(f, n) <= n,
    decreases n,
{
    if n > 0 {
        count_bounds(f, n - 1);
    }
}

pub proof fn count_ext(f: spec_fn(int) -> bool, g: spec_fn(int) -> bool, n: int)
    requires
        forall|k: int| 0 <= k < n ==> #[trigger] f(k) == g(k),
    ensures
        count_below(f, n) == count_below(g, n),
    decreases n,
{
    if n > 0 {
        count_ext(f, g, n - 1);
    }
}

/// A predicate that implies another counts no more.
pub proof fn count_le(f: spec_fn(int) -> bool, g: spec_fn(int) -> bool, n: int)
    requires
        forall|k: int| 0 <= k < n && #[trigger] f(k) ==> g(k),
    ensures
        count_below(f, n) <= count_below(g, n),
    decreases n,
{
    if n > 0 {
        count_le(f, g, n - 1);
    }
}

pub proof fn count_mono(f: spec_fn(int) -> bool, m: int, n: int)
    requires
        0 <= m <= n,
    ensures
        count_below(f, m) <= count_below(f, n),
        count_below(f, n) - count_below(f, m) <= n - m,
    decreases n - m,
{
    if m < n {
        count_mono(f, m, n - 1);
    }
}

/// A predicate that is constant on `m..n` adds the whole span or nothing.
pub proof fn count_span(f: spec_fn(int) -> bool, m: int, n: int, v: bool)
    requires
        0 <= m <= n,
        forall|k: int| m <= k < n ==> #[trigger] f(k) == v,
    ensures
        count_below(f, n) == count_below(f, m) + (if v {
            n - m
        } else {
            0
        }),
    decreases n - m,
{
    if m < n {
        count_span(f, m, n - 1, v);
    }
}

/// Turning one position from true to false lowers the count by one.
pub proof fn count_drop(f: spec_fn(int) -> bool, g: spec_fn(int) -> bool, n: int, k: int)
    requires
        0 <= k < n,
        f(k),
        !g(k),
        forall|j: int| 0 <= j < n && j != k ==> #[trigger] f(j) == g(j),
    ensures
        count_below(g, n) == count_below(f, n) - 1,
    decreases n,
{
    if k == n - 1 {
        count_ext(f, g, n - 1);
    } else {
        assert(f(n - 1) == g(n - 1));
        count_drop(f, g, n - 1, k);
    }
}

/// The count of either of two disjoint properties is the sum of their counts.
pub proof fn count_disjoint(
    f: spec_fn(int) -> bool,
    g: spec_fn(int) -> bool,
    h: spec_fn(int) -> bool,
    n: int,
)
    requires
        forall|k: int| 0 <= k < n ==> #[trigger] h(k) == (f(k) || g(k)),
        forall|k: int| 0 <= k < n ==> !(#[trigger] f(k) && g(k)),
    ensures
        count_below(h, n) == count_below(f, n) + count_below(g, n),
    decreases n,
{
    if n > 0 {
        count_disjoint(f, g, h, n - 1);
        assert(h(n - 1) == (f(n - 1) || g(n - 1)));
        assert(!(f(n - 1) && g(n - 1)));
    }
}

/// Something satisfies `f` below `n` exactly when the count is positive.
pub proof fn count_positive(f: spec_fn(int) -> bool, n: int, k: int)
    requires
        0 <= k < n,
        f(k),
    ensures
        count_below(f, n) >= 1,
    decreases n,
{
    count_bounds(f, n - 1);
    if k < n - 1 {
        count_positive(f, n - 1, k);
    }
}

/// Counting the members of an ascending list that satisfy `f` is counting the
/// positions that are listed and satisfy `f`.
pub proof fn count_listed(s: Seq<usize>, f: spec_fn(int) -> bool, n: int)
    requires
        forall|i: int| 0 <= i < s.len() ==> (#[trigger] s[i]) < n,
        forall|i: int, j: int| 0 <= i < j < s.len() ==> #[trigger] s[i] < #[trigger] s[j],
        n <= usize::MAX + 1,
    ensures
        count_below(|k: int| s.contains(k as usize) && f(k), n) == count_below(
            |i: int| f(s[i] as int),
            s.len() as int,
        ),
    decreases s.len(),
{
    let g = |k: int| s.contains(k as usize) && f(k);
    let h = |i: int| f(s[i] as int);
    if s.len() == 0 {
        if n > 0 {
            count_span(g, 0, n, false);
        }
    } else {
        let t = s.drop_last();
        let e = s.last() as int;
        let g1 = |k: int| t.contains(k as usize) && f(k);
        let h1 = |i: int| f(t[i] as int);
        count_listed(t, f, e);
        count_ext(h, h1, t.len() as int);
        assert forall|k: int| 0 <= k < e implies #[trigger] g(k) == g1(k) by {
            if s.contains(k as usize) {
                let i = choose|i: int| 0 <= i < s.len() && s[i] == k as usize;
                assert(i < s.len() - 1);
                assert(t[i] == k as usize);
            }
            if t.contains(k as usize) {
                let i = choose|i: int| 0 <= i < t.len() && t[i] == k as usize;
                assert(s[i] == k as usize);
            }
        }
        count_ext(g, g1, e);
        assert forall|k: int| e + 1 <= k < n implies #[trigger] g(k) == false by {
            if s.contains(k as usize) {
                let i = choose|i: int| 0 <= i < s.len() && s[i] == k as usize;
                assert(s[i] <= s[s.len() - 1]);
            }
        }
        count_span(g, e + 1, n, false);
        assert(s[s.len() - 1] == e as usize);
        assert(s.contains(e as usize));
        assert(g(e) == f(e));
    }
}

pub proof fn sum_ext(f: spec_fn(int) -> int, g: spec_fn(int) -> int, n: int)
    requires
        forall|k: int| 0 <= k < n ==> #[trigger] f(k) == g(k),
    ensures
        sum_below(f, n) == sum_below(g, n),
    decreases n,
{
    if n > 0 {
        sum_ext(f, g, n - 1);
    }
}

/// The sum of `f` over the first `n` listed positions.
pub open spec fn sum_listed(f: spec_fn(int) -> int, s: Seq<usize>, n: int) -> int
    decreases n,
{
    if n <= 0 {
        0
    } else {
        sum_listed(f, s, n - 1) + f(s[n - 1] as int)
    }
}

proof fn sum_listed_prefix(f: spec_fn(int) -> int, s: Seq<usize>, t: Seq<usize>, n: int)
    requires
        n <= s.len(),
        n <= t.len(),
        forall|i: int| 0 <= i < n ==> #[trigger] s[i] == t[i],
    ensures
        sum_listed(f, s, n) == sum_listed(f, t, n),
    decreases n,
{
    if n > 0 {
        sum_listed_prefix(f, s, t, n - 1);
        assert(s[n - 1] == t[n - 1]);
    }
}

proof fn sum_listed_remove(f: spec_fn(int) -> int, s: Seq<usize>, k: int, n: int)
    requires
        0 <= k < n <= s.len(),
    ensures
        sum_listed(f, s, n) == sum_listed(f, s.remove(k), n - 1) + f(s[k] as int),
    decreases n,
{
    if n - 1 == k {
        sum_listed_prefix(f, s, s.remove(k), k);
    } else {
        sum_listed_remove(f, s, k, n - 1);
        assert(s.remove(k)[n - 2] == s[n - 1]);
    }
}

/// A list of all positions below `n`, each once, sums to the same.
pub proof fn sum_permuted(f: spec_fn(int) -> int, s: Seq<usize>, n: int)
    requires
        s.len() == n,
        n <= usize::MAX,
        forall|i: int| 0 <= i < n ==> 0 <= #[trigger] s[i] < n,
        forall|i: int, j: int| 0 <= i < j < n ==> #[trigger] s[i] != #[trigger] s[j],
        forall|v: int| 0 <= v < n ==> #[trigger] s.contains(v as usize),
    ensures
        sum_listed(f, s, n) == sum_below(f, n),
    decreases n,
{
    if n > 0 {
        assert(s.contains((n - 1) as usize));
        let k = choose|k: int| 0 <= k < s.len() && s[k] == (n - 1) as usize;
        let t = s.remove(k);
        sum_listed_remove(f, s, k, n);
        assert forall|i: int| 0 <= i < n - 1 implies 0 <= #[trigger] t[i] < n - 1 by {
            if i < k {
                assert(t[i] == s[i] && s[i] != s[k]);
            } else {
                assert(t[i] == s[i + 1] && s[k] != s[i + 1]);
            }
        }
        assert forall|i: int, j: int| 0 <= i < j < n - 1 implies #[trigger] t[i] != #[trigger] t[j] by {
            let a = if i < k {
                i
            } else {
                i + 1
            };
            let b = if j < k {
                j
            } else {
                j + 1
            };
            assert(t[i] == s[a] && t[j] == s[b]);
        }
        assert forall|v: int| 0 <= v < n - 1 implies #[trigger] t.contains(v as usize) by {
            assert(s.contains(v as usize));
            let a = choose|a: int| 0 <= a < s.len() && s[a] == v as usize;
            if a < k {
                assert(t[a] == v as usize);
            } else {
                assert(t[a - 1] == v as usize);
            }
        }
        sum_permuted(f, t, n - 1);
    }
}

proof fn count_is_sum(f: spec_fn(int) -> bool, g: spec_fn(int) -> int, n: int)
    requires
        forall|k: int| 0 <= k < n ==> #[trigger] g(k) == (if f(k) {
            1int
        } else {
            0int
        }),
    ensures
        count_below(f, n) == sum_below(g, n),
    decreases n,
{
    if n > 0 {
        count_is_sum(f, g, n - 1);
    }
}

proof fn count_is_listed(f: spec_fn(int) -> bool, g: spec_fn(int) -> int, s: Seq<usize>, n: int)
    requires
        0 <= n <= s.len(),
        forall|k: int| #[trigger] g(k) == (if f(k) {
            1int
        } else {
            0int
        }),
    ensures
        count_below(|i: int| f(s[i] as int), n) == sum_listed(g, s, n),
    decreases n,
{
    if n > 0 {
        count_is_listed(f, g, s, n - 1);
    }
}

/// Counting along a listing of all positions counts the same.
pub proof fn count_permuted(f: spec_fn(int) -> bool, s: Seq<usize>, n: int)
    requires
        s.len() == n,
        n <= usize::MAX,
        forall|i: int| 0 <= i < n ==> 0 <= #[trigger] s[i] < n,
        forall|i: int, j: int| 0 <= i < j < n ==> #[trigger] s[i] != #[trigger] s[j],
        forall|v: int| 0 <= v < n ==> #[trigger] s.contains(v as usize),
    ensures
        count_below(|i: int| f(s[i] as int), n) == count_below(f, n),
{
    let g = |k: int| if f(k) {
        1int
    } else {
        0int
    };
    count_is_sum(f, g, n);
    count_is_listed(f, g, s, n);
    sum_permuted(g, s, n);
}

/// Where something is counted, something is there.
pub proof fn count_some(f: spec_fn(int) -> bool, n: int)
    requires
        count_below(f, n) > 0,
    ensures
        exists|k: int| 0 <= k < n && #[trigger] f(k),
    decreases n,
{
    if n > 0 && !f(n - 1) {
        count_some(f, n - 1);
    }
}

/// A sum above zero has a term above zero.
pub proof fn sum_some(f: spec_fn(int) -> int, n: int)
    requires
        sum_below(f, n) > 0,
    ensures
        exists|k: int| 0 <= k < n && #[trigger] f(k) > 0,
    decreases n,
{
    if n > 0 && f(n - 1) <= 0 {
        sum_some(f, n - 1);
    }
}

/// A count is a sum of ones.
pub proof fn count_as_sum(f: spec_fn(int) -> bool, n: int)
    ensures
        count_below(f, n) == sum_below(
            |k: int|
                if f(k) {
                    1int
                } else {
                    0int
                },
            n,
        ),
    decreases n,
{
    if n > 0 {
        count_as_sum(f, n - 1);
    }
}

/// Where nothing is counted, nothing satisfies the predicate.
pub proof fn none_counted(f: spec_fn(int) -> bool, n: int, k: int)
    requires
        count_below(f, n) == 0,
        0 <= k < n,
    ensures
        !f(k),
{
    if f(k) {
        count_positive(f, n, k);
    }
}

/// What is picked lies between two bounds, and so does its sum.
pub proof fn picked_between(f: spec_fn(int) -> bool, g: spec_fn(int) -> int, lo: int, hi: int, n: int)
    requires
        forall|k: int| 0 <= k < n && #[trigger] f(k) ==> lo <= g(k) <= hi,
    ensures
        lo * count_below(f, n) <= sum_below(
            |k: int|
                if f(k) {
                    g(k)
                } else {
                    0int
                },
            n,
        ) <= hi * count_below(f, n),
    decreases n,
{
    let s = |k: int|
        if f(k) {
            g(k)
        } else {
            0int
        };
    if n > 0 {
        picked_between(f, g, lo, hi, n - 1);
        let c = count_below(f, n - 1);
        if f(n - 1) {
            assert(count_below(f, n) == c + 1);
            assert(sum_below(s, n) == sum_below(s, n - 1) + g(n - 1));
            assert(lo * (c + 1) == lo * c + lo) by (nonlinear_arith);
            assert(hi * (c + 1) == hi * c + hi) by (nonlinear_arith);
        } else {
            assert(sum_below(s, n) == sum_below(s, n - 1));
        }
    } else {
        assert(lo * 0 == 0 && hi * 0 == 0) by (nonlinear_arith);
    }
}

/// A quotient rounded down, by its two sides.
pub proof fn quotient_sides(s: int, n: int)
    requires
        n > 0,
    ensures
        (s / n) * n <= s < (s / n + 1) * n,
{
    assert((s / n) * n <= s < (s / n + 1) * n) by (nonlinear_arith)
        requires
            n > 0,
    ;
}

/// A quotient that two products pin down.
pub proof fn quotient_is(s: int, n: int, q: int)
    requires
        n > 0,
        q * n <= s < (q + 1) * n,
    ensures
        s / n == q,
{
    assert(s / n == q) by (nonlinear_arith)
        requires
            n > 0,
            q * n <= s < (q + 1) * n,
    ;
}

} // verus!
