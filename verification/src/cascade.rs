//! The duplicate cascade over normalised planes: propose, verify, confirm.
//! Each stage may only narrow.
use vstd::prelude::*;
use crate::cluster;
use crate::cluster::DupCluster;
use crate::dupes;
use crate::dupes::DupOptions;
use crate::hashes;
use crate::hashes::{HashItem, LSH_BANDS};
use crate::score;

verus! {

/// Side of the normalised cell that hashes and distances are taken from.
pub const CELL: u32 = 64;

/// How many pairs came through each stage.
#[derive(Clone, Copy, Debug, PartialEq, Eq, Structural)]
pub struct CascadeCounts {
    /// Pairs that share a band.
    pub candidates: usize,
    /// Candidates that overlap enough or are near enough.
    pub verified: usize,
    /// Verified pairs that match by digest or similarity.
    pub confirmed: usize,
}

impl Default for CascadeCounts {
    fn default() -> (r: CascadeCounts)
        ensures
            r == (CascadeCounts { candidates: 0, verified: 0, confirmed: 0 }),
    {
        CascadeCounts { candidates: 0, verified: 0, confirmed: 0 }
    }
}

/// The contents of a list of planes.
pub open spec fn planes_of(planes: Seq<Vec<u8>>) -> Seq<Seq<u8>> {
    Seq::new(planes.len(), |i: int| planes[i]@)
}

/// The pair can be compared, and overlaps enough or is near enough.
pub open spec fn passes(a: Seq<u8>, b: Seq<u8>, o: DupOptions) -> bool {
    dupes::comparable(a, b, 64, 64) && exists|v: dupes::Verified| #[trigger]
        dupes::is_verified(a, b, 64, 64, o, v) && v.pass
}

/// The pair passes, and its digests are equal or its planes similar.
pub open spec fn pair_confirmed(
    items: Seq<HashItem>,
    planes: Seq<Seq<u8>>,
    o: DupOptions,
    p: (usize, usize),
) -> bool {
    let a = planes[p.0 as int];
    let b = planes[p.1 as int];
    passes(a, b, o) && dupes::is_confirmed(
        items[p.0 as int].digest@,
        items[p.1 as int].digest@,
        score::score_of(a, b, 64, 64).ssim as int,
        o,
    )
}

/// How many of the first `n` candidates pass.
pub open spec fn passing(
    planes: Seq<Seq<u8>>,
    o: DupOptions,
    pairs: Seq<(usize, usize)>,
    n: int,
) -> int
    decreases n,
{
    if n <= 0 {
        0
    } else {
        passing(planes, o, pairs, n - 1) + (if passes(
            planes[pairs[n - 1].0 as int],
            planes[pairs[n - 1].1 as int],
            o,
        ) {
            1int
        } else {
            0int
        })
    }
}

/// The confirmed pairs among the first `n` candidates, in order.
pub open spec fn confirmed(
    items: Seq<HashItem>,
    planes: Seq<Seq<u8>>,
    o: DupOptions,
    pairs: Seq<(usize, usize)>,
    n: int,
) -> Seq<(usize, usize)>
    decreases n,
{
    if n <= 0 {
        Seq::empty()
    } else if pair_confirmed(items, planes, o, pairs[n - 1]) {
        confirmed(items, planes, o, pairs, n - 1).push(pairs[n - 1])
    } else {
        confirmed(items, planes, o, pairs, n - 1)
    }
}

/// `r` is what the cascade finds from the candidates `pairs`.
pub open spec fn is_cascade_of(
    items: Seq<HashItem>,
    planes: Seq<Seq<u8>>,
    scores: Seq<i64>,
    o: DupOptions,
    pairs: Seq<(usize, usize)>,
    clusters: Seq<DupCluster>,
    counts: CascadeCounts,
) -> bool {
    let n = pairs.len() as int;
    let sure = confirmed(items, planes, o, pairs, n);
    &&& hashes::is_candidate_list(items, LSH_BANDS, pairs)
    &&& counts.candidates == n
    &&& counts.verified == passing(planes, o, pairs, n)
    &&& counts.confirmed == sure.len()
    &&& cluster::is_clustering(items, sure, scores, clusters)
}

/// `r` is what the cascade finds.
pub open spec fn is_cascade(
    items: Seq<HashItem>,
    planes: Seq<Seq<u8>>,
    scores: Seq<i64>,
    o: DupOptions,
    clusters: Seq<DupCluster>,
    counts: CascadeCounts,
) -> bool {
    exists|pairs: Seq<(usize, usize)>| #[trigger]
        is_cascade_of(items, planes, scores, o, pairs, clusters, counts)
}

/// Every stage of the cascade only narrows the one before.
pub proof fn stages_only_narrow(
    items: Seq<HashItem>,
    planes: Seq<Seq<u8>>,
    scores: Seq<i64>,
    o: DupOptions,
    clusters: Seq<DupCluster>,
    counts: CascadeCounts,
)
    requires
        is_cascade(items, planes, scores, o, clusters, counts),
    ensures
        counts.confirmed <= counts.verified <= counts.candidates,
{
    let pairs = choose|pairs: Seq<(usize, usize)>| #[trigger]
        is_cascade_of(items, planes, scores, o, pairs, clusters, counts);
    narrow_upto(items, planes, o, pairs, pairs.len() as int);
}

proof fn narrow_upto(
    items: Seq<HashItem>,
    planes: Seq<Seq<u8>>,
    o: DupOptions,
    pairs: Seq<(usize, usize)>,
    n: int,
)
    requires
        0 <= n,
    ensures
        0 <= confirmed(items, planes, o, pairs, n).len() <= passing(planes, o, pairs, n) <= n,
    decreases n,
{
    if n > 0 {
        narrow_upto(items, planes, o, pairs, n - 1);
    }
}

/// Nothing is confirmed on a hash match alone: a confirmed pair also passed the
/// comparison of its planes.
pub proof fn confirmed_pairs_passed(
    items: Seq<HashItem>,
    planes: Seq<Seq<u8>>,
    o: DupOptions,
    pairs: Seq<(usize, usize)>,
    n: int,
    t: int,
)
    requires
        0 <= t < confirmed(items, planes, o, pairs, n).len(),
    ensures
        ({
            let p = confirmed(items, planes, o, pairs, n)[t];
            pair_confirmed(items, planes, o, p) && passes(
                planes[p.0 as int],
                planes[p.1 as int],
                o,
            )
        }),
    decreases n,
{
    if n > 0 {
        if t < confirmed(items, planes, o, pairs, n - 1).len() {
            confirmed_pairs_passed(items, planes, o, pairs, n - 1, t);
        }
    }
}

/// Two readings of one pair agree on whether it passes.
proof fn verdict_stands(a: Seq<u8>, b: Seq<u8>, o: DupOptions, v: dupes::Verified)
    requires
        dupes::comparable(a, b, 64, 64),
        dupes::is_verified(a, b, 64, 64, o, v),
    ensures
        passes(a, b, o) == v.pass,
{
    if passes(a, b, o) {
        let u = choose|u: dupes::Verified| #[trigger] dupes::is_verified(a, b, 64, 64, o, u) && u.pass;
        dupes::hausdorff_is_unique(a, b, 64, 64, u.hausdorff, v.hausdorff);
    }
}

/// Runs the cascade over normalised planes. `planes` and `scores` run parallel
/// to `items`. A pair whose planes cannot be compared is skipped.
pub fn duplicate_cascade(
    items: &[HashItem],
    planes: &Vec<Vec<u8>>,
    scores: &[i64],
    options: &DupOptions,
) -> (r: (Vec<DupCluster>, CascadeCounts))
    requires
        planes@.len() == items@.len(),
    ensures
        is_cascade(items@, planes_of(planes@), scores@, *options, r.0@, r.1),
{
    let pairs = hashes::candidate_pairs(items, LSH_BANDS);
    let n: usize = pairs.len();
    let ghost ps = planes_of(planes@);
    let mut verified: usize = 0;
    let mut sure: Vec<(usize, usize)> = Vec::new();
    let mut i: usize = 0;
    while i < n
        invariant
            i <= n,
            n == pairs@.len(),
            planes@.len() == items@.len(),
            ps == planes_of(planes@),
            hashes::is_candidate_list(items@, LSH_BANDS, pairs@),
            verified == passing(ps, *options, pairs@, i as int),
            verified <= i,
            sure@ == confirmed(items@, ps, *options, pairs@, i as int),
        decreases n - i,
    {
        let (a, b): (usize, usize) = pairs[i];
        proof {
            assert(hashes::is_candidate(items@, LSH_BANDS, pairs@[i as int]));
            assert(64 * 64 + 64 * 64 <= u32::MAX);
        }
        let verdict = dupes::verify(planes[a].as_slice(), planes[b].as_slice(), CELL, CELL, options);
        if let Some(v) = verdict {
            proof {
                verdict_stands(ps[a as int], ps[b as int], *options, v);
            }
            if v.pass {
                verified = verified + 1;
                let s = score::compare_planes(planes[a].as_slice(), planes[b].as_slice(), CELL, CELL);
                if dupes::confirm(&items[a].digest, &items[b].digest, s.ssim, options) {
                    sure.push((a, b));
                }
            }
        }
        i = i + 1;
    }
    let confirmed_count: usize = sure.len();
    let clusters = cluster::cluster(items, sure.as_slice(), scores);
    let counts = CascadeCounts { candidates: n, verified, confirmed: confirmed_count };
    assert(is_cascade_of(items@, ps, scores@, *options, pairs@, clusters@, counts));
    (clusters, counts)
}

/// The same icons, planes, scores and options always give the same clusters and
/// the same counts.
pub proof fn cascade_is_determined(
    items: Seq<HashItem>,
    planes: Seq<Seq<u8>>,
    scores: Seq<i64>,
    o: DupOptions,
    r: Seq<DupCluster>,
    a: CascadeCounts,
    s: Seq<DupCluster>,
    b: CascadeCounts,
)
    requires
        is_cascade(items, planes, scores, o, r, a),
        is_cascade(items, planes, scores, o, s, b),
    ensures
        a == b,
        r.len() == s.len(),
        forall|t: int| 0 <= t < r.len() ==> cluster::same_cluster(#[trigger] r[t], s[t]),
{
    let p = choose|pairs: Seq<(usize, usize)>| #[trigger]
        is_cascade_of(items, planes, scores, o, pairs, r, a);
    let q = choose|pairs: Seq<(usize, usize)>| #[trigger]
        is_cascade_of(items, planes, scores, o, pairs, s, b);
    hashes::candidates_are_unique(items, LSH_BANDS, p, q);
    cluster::clustering_is_determined(items, confirmed(items, planes, o, p, p.len() as int), scores, r, s);
}

} // verus!
