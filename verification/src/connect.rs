//! Reachability along a relation, the meaning of "connected" throughout.
use vstd::prelude::*;

verus! {

/// `s` is a chain of at least one element, each related to the next.
pub open spec fn is_chain<A>(e: spec_fn(A, A) -> bool, s: Seq<A>) -> bool {
    &&& s.len() > 0
    &&& forall|k: int| 0 <= k < s.len() - 1 ==> #[trigger] linked(e, s, k)
}

/// The `k`-th element of `s` is related to its successor.
pub open spec fn linked<A>(e: spec_fn(A, A) -> bool, s: Seq<A>, k: int) -> bool {
    e(s[k], s[k + 1])
}

/// `b` can be reached from `a` along a chain.
pub open spec fn reaches<A>(e: spec_fn(A, A) -> bool, a: A, b: A) -> bool {
    exists|s: Seq<A>| #[trigger] is_chain(e, s) && s[0] == a && s[s.len() - 1] == b
}

pub proof fn reaches_self<A>(e: spec_fn(A, A) -> bool, a: A)
    ensures
        reaches(e, a, a),
{
    let s = seq![a];
    assert(is_chain(e, s));
    assert(s[0] == a && s[s.len() - 1] == a);
}

pub proof fn reaches_step<A>(e: spec_fn(A, A) -> bool, a: A, b: A, c: A)
    requires
        reaches(e, a, b),
        e(b, c),
    ensures
        reaches(e, a, c),
{
    let s = choose|s: Seq<A>| #[trigger] is_chain(e, s) && s[0] == a && s[s.len() - 1] == b;
    let t = s.push(c);
    assert forall|k: int| 0 <= k < t.len() - 1 implies #[trigger] linked(e, t, k) by {
        if k < s.len() - 1 {
            assert(linked(e, s, k));
        }
    }
    assert(is_chain(e, t));
    assert(t[0] == a && t[t.len() - 1] == c);
}

pub proof fn reaches_edge<A>(e: spec_fn(A, A) -> bool, a: A, b: A)
    requires
        e(a, b),
    ensures
        reaches(e, a, b),
{
    reaches_self(e, a);
    reaches_step(e, a, a, b);
}

pub proof fn reaches_trans<A>(e: spec_fn(A, A) -> bool, a: A, b: A, c: A)
    requires
        reaches(e, a, b),
        reaches(e, b, c),
    ensures
        reaches(e, a, c),
{
    let s = choose|s: Seq<A>| #[trigger] is_chain(e, s) && s[0] == a && s[s.len() - 1] == b;
    let t = choose|t: Seq<A>| #[trigger] is_chain(e, t) && t[0] == b && t[t.len() - 1] == c;
    let u = s + t.skip(1);
    assert forall|k: int| 0 <= k < u.len() - 1 implies #[trigger] linked(e, u, k) by {
        if k < s.len() - 1 {
            assert(linked(e, s, k));
        } else {
            assert(linked(e, t, k - (s.len() - 1)));
            assert(u[k] == t[k - (s.len() - 1)]);
            assert(u[k + 1] == t[k + 1 - (s.len() - 1)]);
        }
    }
    assert(is_chain(e, u));
    assert(u[0] == a && u[u.len() - 1] == c);
}

/// A relation that holds both ways makes reachability hold both ways.
pub proof fn reaches_sym<A>(e: spec_fn(A, A) -> bool, a: A, b: A)
    requires
        reaches(e, a, b),
        forall|x: A, y: A| #[trigger] e(x, y) ==> e(y, x),
    ensures
        reaches(e, b, a),
{
    let s = choose|s: Seq<A>| #[trigger] is_chain(e, s) && s[0] == a && s[s.len() - 1] == b;
    let t = s.reverse();
    assert forall|k: int| 0 <= k < t.len() - 1 implies #[trigger] linked(e, t, k) by {
        assert(linked(e, s, s.len() - 2 - k));
    }
    assert(is_chain(e, t));
    assert(t[0] == b && t[t.len() - 1] == a);
}

/// What every step of the relation keeps, reachability keeps.
pub proof fn reaches_keeps<A>(e: spec_fn(A, A) -> bool, keep: spec_fn(A) -> bool, a: A, b: A)
    requires
        reaches(e, a, b),
        keep(a),
        forall|x: A, y: A| #[trigger] e(x, y) && keep(x) ==> keep(y),
    ensures
        keep(b),
{
    let s = choose|s: Seq<A>| #[trigger] is_chain(e, s) && s[0] == a && s[s.len() - 1] == b;
    chain_keeps(e, keep, s, s.len() - 1);
}

proof fn chain_keeps<A>(e: spec_fn(A, A) -> bool, keep: spec_fn(A) -> bool, s: Seq<A>, n: int)
    requires
        is_chain(e, s),
        keep(s[0]),
        forall|x: A, y: A| #[trigger] e(x, y) && keep(x) ==> keep(y),
        0 <= n < s.len(),
    ensures
        keep(s[n]),
    decreases n,
{
    if n > 0 {
        chain_keeps(e, keep, s, n - 1);
        assert(linked(e, s, n - 1));
    }
}

/// A relation contained in another reaches no further.
pub proof fn reaches_mono<A>(e: spec_fn(A, A) -> bool, f: spec_fn(A, A) -> bool, a: A, b: A)
    requires
        reaches(e, a, b),
        forall|x: A, y: A| #[trigger] e(x, y) ==> f(x, y),
    ensures
        reaches(f, a, b),
{
    let s = choose|s: Seq<A>| #[trigger] is_chain(e, s) && s[0] == a && s[s.len() - 1] == b;
    assert forall|k: int| 0 <= k < s.len() - 1 implies #[trigger] linked(f, s, k) by {
        assert(linked(e, s, k));
    }
    assert(is_chain(f, s));
}

} // verus!
