//! A stable merge sort on lexicographic integer keys.
//!
//! Every ordered output of the library is produced through [`sort_order`]: it
//! returns the positions of its input in ascending key order, and positions
//! with equal keys in their original order. That makes each sorted result a
//! function of the input alone.
use vstd::prelude::*;

verus! {

/// A lexicographic sort key; unused trailing components are zero.
pub type SortKey = (u64, u64, u64, u64);

/// `a` comes strictly before `b`, component by component.
pub open spec fn key_lt(a: SortKey, b: SortKey) -> bool {
    ||| a.0 < b.0
    ||| a.0 == b.0 && a.1 < b.1
    ||| a.0 == b.0 && a.1 == b.1 && a.2 < b.2
    ||| a.0 == b.0 && a.1 == b.1 && a.2 == b.2 && a.3 < b.3
}

/// Position `i` is listed before position `j`: by key, then by position.
pub open spec fn pos_lt(keys: Seq<SortKey>, i: int, j: int) -> bool {
    key_lt(keys[i], keys[j]) || (keys[i] == keys[j] && i < j)
}

/// `s` lists exactly the positions `lo..hi`, each once, in sorted order.
pub open spec fn is_order(keys: Seq<SortKey>, s: Seq<usize>, lo: int, hi: int) -> bool {
    &&& s.len() == hi - lo
    &&& forall|i: int| 0 <= i < s.len() ==> lo <= #[trigger] s[i] < hi
    &&& forall|i: int, j: int|
        0 <= i < j < s.len() ==> pos_lt(keys, #[trigger] s[i] as int, #[trigger] s[j] as int)
    &&& forall|k: int| lo <= k < hi ==> #[trigger] s.contains(k as usize)
}

/// Whether `a` comes strictly before `b`.
pub fn key_less(a: SortKey, b: SortKey) -> (r: bool)
    ensures
        r == key_lt(a, b),
{
    if a.0 != b.0 {
        a.0 < b.0
    } else if a.1 != b.1 {
        a.1 < b.1
    } else if a.2 != b.2 {
        a.2 < b.2
    } else {
        a.3 < b.3
    }
}

/// The stable ascending order of `keys`, as positions into it.
pub fn sort_order(keys: &Vec<SortKey>) -> (r: Vec<usize>)
    ensures
        is_order(keys@, r@, 0, keys@.len() as int),
{
    sort_range(keys, 0, keys.len())
}

fn sort_range(keys: &Vec<SortKey>, lo: usize, hi: usize) -> (r: Vec<usize>)
    requires
        lo <= hi <= keys@.len(),
    ensures
        is_order(keys@, r@, lo as int, hi as int),
    decreases hi - lo,
{
    let mut out: Vec<usize> = Vec::new();
    if hi - lo == 0 {
        return out;
    }
    if hi - lo == 1 {
        out.push(lo);
        assert forall|k: int| lo <= k < hi implies #[trigger] out@.contains(k as usize) by {
            assert(out@[0] == k);
        }
        return out;
    }
    let mid: usize = lo + (hi - lo) / 2;
    let a: Vec<usize> = sort_range(keys, lo, mid);
    let b: Vec<usize> = sort_range(keys, mid, hi);
    let mut i: usize = 0;
    let mut j: usize = 0;
    while i < a.len() || j < b.len()
        invariant
            lo <= mid <= hi <= keys@.len(),
            is_order(keys@, a@, lo as int, mid as int),
            is_order(keys@, b@, mid as int, hi as int),
            i <= a.len(),
            j <= b.len(),
            out@.len() == i + j,
            forall|k: int| 0 <= k < out@.len() ==> lo <= #[trigger] out@[k] < hi,
            forall|k: int, l: int|
                0 <= k < l < out@.len() ==> pos_lt(
                    keys@,
                    #[trigger] out@[k] as int,
                    #[trigger] out@[l] as int,
                ),
            forall|k: int, l: int|
                0 <= k < out@.len() && i <= l < a@.len() ==> pos_lt(
                    keys@,
                    #[trigger] out@[k] as int,
                    #[trigger] a@[l] as int,
                ),
            forall|k: int, l: int|
                0 <= k < out@.len() && j <= l < b@.len() ==> pos_lt(
                    keys@,
                    #[trigger] out@[k] as int,
                    #[trigger] b@[l] as int,
                ),
            forall|k: int| 0 <= k < i ==> out@.contains(#[trigger] a@[k]),
            forall|k: int| 0 <= k < j ==> out@.contains(#[trigger] b@[k]),
        decreases a.len() - i + b.len() - j,
    {
        let take_a: bool = if i >= a.len() {
            false
        } else if j >= b.len() {
            true
        } else {
            !key_less(keys[b[j]], keys[a[i]])
        };
        let ghost before = out@;
        if take_a {
            let x: usize = a[i];
            out.push(x);
            proof {
                assert forall|l: int| j <= l < b@.len() implies pos_lt(
                    keys@,
                    x as int,
                    #[trigger] b@[l] as int,
                ) by {
                    if l > j {
                        assert(pos_lt(keys@, b@[j as int] as int, b@[l] as int));
                    }
                }
                assert(out@[out@.len() - 1] == x);
                assert forall|k: int| 0 <= k < i + 1 implies out@.contains(#[trigger] a@[k]) by {
                    if k < i {
                        let w = choose|w: int| 0 <= w < before.len() && before[w] == a@[k];
                        assert(before.contains(a@[k]));
                        assert(out@[w] == a@[k]);
                    } else {
                        assert(out@[before.len() as int] == a@[k]);
                    }
                }
                assert forall|k: int| 0 <= k < j implies out@.contains(#[trigger] b@[k]) by {
                    assert(before.contains(b@[k]));
                    let w = choose|w: int| 0 <= w < before.len() && before[w] == b@[k];
                    assert(out@[w] == b@[k]);
                }
            }
            i = i + 1;
        } else {
            let x: usize = b[j];
            out.push(x);
            proof {
                assert forall|l: int| i <= l < a@.len() implies pos_lt(
                    keys@,
                    x as int,
                    #[trigger] a@[l] as int,
                ) by {
                    if l > i {
                        assert(pos_lt(keys@, a@[i as int] as int, a@[l] as int));
                    }
                }
                assert forall|k: int| 0 <= k < j + 1 implies out@.contains(#[trigger] b@[k]) by {
                    if k < j {
                        assert(before.contains(b@[k]));
                        let w = choose|w: int| 0 <= w < before.len() && before[w] == b@[k];
                        assert(out@[w] == b@[k]);
                    } else {
                        assert(out@[before.len() as int] == b@[k]);
                    }
                }
                assert forall|k: int| 0 <= k < i implies out@.contains(#[trigger] a@[k]) by {
                    assert(before.contains(a@[k]));
                    let w = choose|w: int| 0 <= w < before.len() && before[w] == a@[k];
                    assert(out@[w] == a@[k]);
                }
            }
            j = j + 1;
        }
    }
    assert forall|k: int| lo <= k < hi implies #[trigger] out@.contains(k as usize) by {
        if k < mid {
            assert(a@.contains(k as usize));
            let w = choose|w: int| 0 <= w < a@.len() && a@[w] == k as usize;
            assert(out@.contains(a@[w]));
        } else {
            assert(b@.contains(k as usize));
            let w = choose|w: int| 0 <= w < b@.len() && b@[w] == k as usize;
            assert(out@.contains(b@[w]));
        }
    }
    out
}

/// There is only one sorted order: two listings of the same range agree.
pub proof fn order_is_unique(keys: Seq<SortKey>, s: Seq<usize>, t: Seq<usize>, lo: int, hi: int)
    requires
        0 <= lo <= hi,
        is_order(keys, s, lo, hi),
        is_order(keys, t, lo, hi),
    ensures
        s == t,
{
    assert forall|n: nat| n <= s.len() implies #[trigger] s.take(n as int) == t.take(n as int) by {
        order_prefix(keys, s, t, lo, hi, n);
    }
    assert(s.take(s.len() as int) == s);
    assert(t.take(s.len() as int) == t);
}

proof fn order_prefix(keys: Seq<SortKey>, s: Seq<usize>, t: Seq<usize>, lo: int, hi: int, n: nat)
    requires
        0 <= lo <= hi,
        is_order(keys, s, lo, hi),
        is_order(keys, t, lo, hi),
        n <= s.len(),
    ensures
        s.take(n as int) == t.take(n as int),
    decreases n,
{
    if n > 0 {
        let k = n - 1;
        order_prefix(keys, s, t, lo, hi, k as nat);
        assert forall|i: int| 0 <= i < k implies s[i] == t[i] by {
            assert(s.take(k)[i] == t.take(k)[i]);
        }
        // Each of the two k-th entries occurs in the other listing, and not before k.
        assert(t.contains(s[k] as int as usize));
        assert(s.contains(t[k] as int as usize));
        let a = choose|a: int| 0 <= a < t.len() && t[a] == s[k];
        let b = choose|b: int| 0 <= b < s.len() && s[b] == t[k];
        if a < k {
            assert(pos_lt(keys, s[a] as int, s[k] as int));
        }
        if b < k {
            assert(pos_lt(keys, t[b] as int, t[k] as int));
        }
        if a > k && b > k {
            assert(pos_lt(keys, t[k] as int, t[a] as int));
            assert(pos_lt(keys, s[k] as int, s[b] as int));
        }
        assert(s[k] == t[k]);
        assert(s.take(n as int) =~= s.take(k).push(s[k]));
        assert(t.take(n as int) =~= t.take(k).push(t[k]));
    }
}

/// An order never falls: of two listed positions the first part of the key does not
/// fall, where it is the same the second does not, and so on; and equal keys stay
/// in their places.
pub proof fn orders_never_fall(keys: Seq<SortKey>, s: Seq<usize>, n: int, i: int, j: int)
    requires
        is_order(keys, s, 0, n),
        0 <= i < j < s.len(),
    ensures
        ({
            let a = keys[s[i] as int];
            let b = keys[s[j] as int];
            &&& a.0 <= b.0
            &&& a.0 == b.0 ==> a.1 <= b.1
            &&& a.0 == b.0 && a.1 == b.1 ==> a.2 <= b.2
            &&& a.0 == b.0 && a.1 == b.1 && a.2 == b.2 ==> a.3 <= b.3
            &&& a == b ==> s[i] < s[j]
        }),
{
    assert(pos_lt(keys, s[i] as int, s[j] as int));
}

} // verus!
