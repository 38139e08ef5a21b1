//! Segmentation results kept by content, so that a change of grouping
//! parameters costs no decoding.
//!
//! The cache holds the runs of a mask and its background, never the sheet. It
//! is bounded, and the entry that was used longest ago leaves first.
use vstd::prelude::*;
use vstd::string::StringExecFns;
use crate::background;
use crate::background::{BackgroundKind, BackgroundModel, SegParams};
use crate::counting;
use crate::digest;
use crate::fuse;
use crate::geometry::{IconGroup, RleRun};
use crate::group;
use crate::group::RleCclGrouper;
use crate::mask;
use crate::mask::ForegroundMask;
use crate::merge;
use crate::merge::RefineParams;
use crate::refine;
use crate::refine::RefineStats;
use crate::sorting;
use crate::split;
use crate::split::Milli;
use crate::text;

verus! {

/// Entry-format version, part of every key.
pub const MASKCACHE_VERSION: u32 = 1;

// ---- keys ---------------------------------------------------------------------------

/// The first sixteen characters.
pub open spec fn short(s: Seq<char>) -> Seq<char> {
    if s.len() < 16 {
        s
    } else {
        s.take(16)
    }
}

/// The bytes of a text.
pub open spec fn text_bytes(s: Seq<char>) -> Seq<u8> {
    vstd::utf8::encode_utf8(s)
}

/// The key of a sheet with this hash under this segmentation configuration.
pub open spec fn key_of(sheet: Seq<char>, config: Seq<char>) -> Seq<char> {
    short(sheet) + "-"@ + short(digest::hex_of(digest::digest_of(text_bytes(config)))) + "-v1"@
}

/// The configuration text of segmentation parameters.
pub open spec fn config_of(p: SegParams) -> Seq<char> {
    background::cache_text(p)
}

/// Different parameters have different configurations, as texts and as the
/// bytes that are hashed for the key.
pub proof fn config_tells_apart(a: SegParams, b: SegParams)
    requires
        config_of(a) == config_of(b) || text_bytes(config_of(a)) == text_bytes(config_of(b)),
    ensures
        a == b,
{
    vstd::utf8::encode_utf8_decode_utf8(config_of(a));
    vstd::utf8::encode_utf8_decode_utf8(config_of(b));
    background::cache_text_tells_apart(a, b);
}

/// Two different configurations share a key for one sheet only where the digests
/// of two different byte strings agree in what the key keeps of them.
pub proof fn shared_key_is_a_collision(sheet: Seq<char>, a: SegParams, b: SegParams)
    requires
        a != b,
        key_of(sheet, config_of(a)) == key_of(sheet, config_of(b)),
    ensures
        text_bytes(config_of(a)) != text_bytes(config_of(b)),
        short(digest::hex_of(digest::digest_of(text_bytes(config_of(a))))) == short(
            digest::hex_of(digest::digest_of(text_bytes(config_of(b)))),
        ),
{
    if text_bytes(config_of(a)) == text_bytes(config_of(b)) {
        config_tells_apart(a, b);
    }
    let x = short(digest::hex_of(digest::digest_of(text_bytes(config_of(a)))));
    let y = short(digest::hex_of(digest::digest_of(text_bytes(config_of(b)))));
    let head = short(sheet) + "-"@;
    let p = key_of(sheet, config_of(a));
    let q = key_of(sheet, config_of(b));
    reveal_strlit("-v1");
    assert(p == head + x + "-v1"@);
    assert(q == head + y + "-v1"@);
    assert(p.len() == head.len() + x.len() + 3);
    assert(q.len() == head.len() + y.len() + 3);
    assert(x.len() == y.len());
    assert(x =~= p.subrange(head.len() as int, (head.len() + x.len()) as int));
    assert(y =~= q.subrange(head.len() as int, (head.len() + y.len()) as int));
}

/// The content hash of a sheet's source bytes.
pub fn sheet_hash(bytes: &[u8]) -> (r: String)
    ensures
        r@ == digest::hex_of(digest::digest_of(bytes@)),
{
    let d: [u8; 32] = digest::digest(bytes);
    text::string_of(&digest::to_hex(d.as_slice()))
}

/// The first sixteen characters of a text.
fn shorten(v: &Vec<char>) -> (r: Vec<char>)
    ensures
        r@ == short(v@),
{
    let n: usize = if v.len() < 16 {
        v.len()
    } else {
        16
    };
    let r = text::part(v, 0, n);
    assert(r@ =~= short(v@));
    r
}

/// The cache key of a sheet whose hash is known.
pub fn mask_key_from_hash(sheet: &str, params: &SegParams) -> (r: String)
    ensures
        r@ == key_of(sheet@, config_of(*params)),
{
    let config = params.to_cache_string();
    let d: [u8; 32] = digest::digest(config.as_str().as_bytes());
    let hex = digest::to_hex(d.as_slice());
    let mut out = shorten(&text::chars_of(sheet));
    text::extend_str(&mut out, "-");
    text::extend(&mut out, &shorten(&hex));
    text::extend_str(&mut out, "-v1");
    assert(out@ =~= key_of(sheet@, config_of(*params)));
    text::string_of(&out)
}

/// The cache key of a sheet under a segmentation configuration. It depends on
/// the bytes and the parameters alone.
pub fn mask_key(bytes: &[u8], params: &SegParams) -> (r: String)
    ensures
        r@ == key_of(digest::hex_of(digest::digest_of(bytes@)), config_of(*params)),
{
    mask_key_from_hash(sheet_hash(bytes).as_str(), params)
}

// ---- entries ------------------------------------------------------------------------

/// One segmentation result.
#[derive(Clone, Debug, PartialEq, Eq)]
pub struct CachedMask {
    /// Sheet width in pixels.
    pub width: u32,
    /// Sheet height in pixels.
    pub height: u32,
    /// The mask's runs, row by row.
    pub runs: Vec<RleRun>,
    /// The background the mask was made against.
    pub background: BackgroundModel,
}

/// The runs of a mask of this size.
pub open spec fn runs_fit(width: u32, height: u32, runs: Seq<RleRun>) -> bool {
    &&& width * height <= mask::MAX_PIXELS
    &&& forall|i: int| 0 <= i < runs.len() ==> (#[trigger] runs[i]).y < height && runs[i].x_end <= width
}

/// `m` has exactly the ink that the runs cover.
pub open spec fn is_mask_of(width: u32, height: u32, runs: Seq<RleRun>, m: ForegroundMask) -> bool {
    &&& m.wf()
    &&& m.width == width
    &&& m.height == height
    &&& forall|x: int, y: int| #[trigger] m.ink(x, y) == mask::some_run_covers(runs, x, y)
}

impl CachedMask {
    /// The runs lie on the sheet, and the background is a valid model.
    pub open spec fn wf(&self) -> bool {
        runs_fit(self.width, self.height, self.runs@) && background::model_ok(self.background)
    }

    /// The mask.
    pub fn mask(&self) -> (r: ForegroundMask)
        requires
            self.wf(),
        ensures
            is_mask_of(self.width, self.height, self.runs@, r),
    {
        ForegroundMask::from_runs(self.width, self.height, self.runs.as_slice())
    }

    /// Payload size in bytes: twelve for each run, and sixteen for the model.
    pub fn bytes(&self) -> (r: u128)
        ensures
            r == 12 * self.runs@.len() + 16,
    {
        12 * self.runs.len() as u128 + 16
    }
}

/// The segmentation result of a mask and its background.
pub fn cached_from_parts(m: &ForegroundMask, background: &BackgroundModel) -> (r: CachedMask)
    requires
        m.wf(),
        background::model_ok(*background),
    ensures
        r.wf(),
        r.width == m.width,
        r.height == m.height,
        mask::is_runs_of(*m, r.runs@),
        r.background == *background,
{
    let runs = m.runs();
    assert forall|i: int| 0 <= i < runs@.len() implies (#[trigger] runs@[i]).y < m.height
        && runs@[i].x_end <= m.width by {
        assert(mask::is_maximal_run(*m, runs@[i]));
    }
    CachedMask { width: m.width, height: m.height, runs, background: *background }
}

/// A mask is trustworthy enough to be reused: its background was the border's
/// consensus or the alpha channel, and its share is at least `min_share`
/// thousandths.
pub fn background_is_confident(background: &BackgroundModel, min_share: Milli) -> (r: bool)
    requires
        background::model_ok(*background),
    ensures
        r == ((background.kind == BackgroundKind::BorderConsensus || background.kind
            == BackgroundKind::Alpha) && 1000 * background.consensus.num >= min_share
            * background.consensus.den),
{
    let trusted: bool = match background.kind {
        BackgroundKind::BorderConsensus => true,
        BackgroundKind::Alpha => true,
        _ => false,
    };
    proof {
        let s = min_share as int;
        let d = background.consensus.den as int;
        assert(0 <= s * d <= 0xffff_ffff * 0xffff_ffff_ffff_ffff) by (nonlinear_arith)
            requires
                0 <= s <= 0xffff_ffff,
                0 <= d <= 0xffff_ffff_ffff_ffff,
        ;
    }
    trusted && 1000 * background.consensus.num >= min_share as u128 * background.consensus.den
}

// ---- the cache ----------------------------------------------------------------------

/// A key and what is cached under it.
#[derive(Clone, Debug, PartialEq, Eq)]
pub struct CacheEntry {
    /// The key.
    pub key: String,
    /// The result.
    pub mask: CachedMask,
}

/// The contents of an entry.
pub struct EntryText {
    /// The key.
    pub key: Seq<char>,
    /// Sheet width.
    pub width: u32,
    /// Sheet height.
    pub height: u32,
    /// The runs.
    pub runs: Seq<RleRun>,
    /// The background.
    pub background: BackgroundModel,
}

/// The contents of an entry.
pub open spec fn entry_text(e: CacheEntry) -> EntryText {
    EntryText {
        key: e.key@,
        width: e.mask.width,
        height: e.mask.height,
        runs: e.mask.runs@,
        background: e.mask.background,
    }
}

/// A bounded cache of segmentation results.
#[derive(Debug)]
pub struct MaskCache {
    /// The most sheets it holds.
    pub cap: usize,
    /// The entries, the one used longest ago first.
    pub entries: Vec<CacheEntry>,
    /// Lookups that found something.
    pub hits: u64,
    /// Lookups that found nothing.
    pub misses: u64,
}

/// `s` without the entry under `key`.
pub open spec fn without(s: Seq<EntryText>, key: Seq<char>) -> Seq<EntryText>
    decreases s.len(),
{
    if s.len() == 0 {
        s
    } else if s.last().key == key {
        without(s.drop_last(), key)
    } else {
        without(s.drop_last(), key).push(s.last())
    }
}

/// The last `cap` entries.
pub open spec fn newest(s: Seq<EntryText>, cap: int) -> Seq<EntryText> {
    if s.len() <= cap {
        s
    } else {
        s.subrange(s.len() - cap, s.len() as int)
    }
}

/// Position `i` holds the entry under `key`.
pub open spec fn is_at(s: Seq<EntryText>, key: Seq<char>, i: int) -> bool {
    0 <= i < s.len() && s[i].key == key
}

/// One more, up to the largest count.
pub open spec fn counted(n: u64) -> u64 {
    if n == u64::MAX {
        n
    } else {
        (n + 1) as u64
    }
}

impl View for MaskCache {
    type V = Seq<EntryText>;

    open spec fn view(&self) -> Seq<EntryText> {
        Seq::new(self.entries@.len(), |i: int| entry_text(self.entries@[i]))
    }
}

impl MaskCache {
    /// No more entries than the capacity, one for each key, and every result is
    /// valid.
    pub open spec fn wf(&self) -> bool {
        &&& self@.len() <= self.cap
        &&& forall|i: int, j: int|
            0 <= i < j < self@.len() ==> (#[trigger] self@[i]).key != (#[trigger] self@[j]).key
        &&& forall|i: int| 0 <= i < self.entries@.len() ==> (#[trigger] self.entries@[i]).mask.wf()
    }

    /// Some entry stands under `key`.
    pub open spec fn holds(&self, key: Seq<char>) -> bool {
        exists|i: int| #[trigger] is_at(self@, key, i)
    }

    /// Counts a lookup of what was just found.
    pub(crate) fn count_hit(&mut self)
        requires
            old(self).wf(),
        ensures
            final(self).wf(),
            final(self).cap == old(self).cap,
            final(self)@ == old(self)@,
            final(self).hits == counted(old(self).hits),
            final(self).misses == old(self).misses,
    {
        if self.hits < u64::MAX {
            self.hits = self.hits + 1;
        }
        assert(self@ =~= old(self)@);
    }

    /// An empty cache for `cap` sheets.
    pub fn new(cap: usize) -> (r: MaskCache)
        ensures
            r.wf(),
            r.cap == cap,
            r@.len() == 0,
            r.hits == 0,
            r.misses == 0,
    {
        MaskCache { cap, entries: Vec::new(), hits: 0, misses: 0 }
    }

    /// The most sheets it holds.
    pub fn capacity(&self) -> (r: usize)
        ensures
            r == self.cap,
    {
        self.cap
    }

    /// How many sheets are cached.
    pub fn len(&self) -> (r: usize)
        ensures
            r == self@.len(),
    {
        self.entries.len()
    }

    /// Whether nothing is cached.
    pub fn is_empty(&self) -> (r: bool)
        ensures
            r == (self@.len() == 0),
    {
        self.entries.len() == 0
    }

    /// Lookups that found something.
    pub fn hits(&self) -> (r: u64)
        ensures
            r == self.hits,
    {
        self.hits
    }

    /// Lookups that found nothing.
    pub fn misses(&self) -> (r: u64)
        ensures
            r == self.misses,
    {
        self.misses
    }

    /// Payload size of all entries, in bytes.
    pub open spec fn payload(&self, n: int) -> int {
        counting::sum_below(|i: int| 12 * (self@[i].runs.len() as int) + 16, n)
    }

    /// Payload size of all entries, in bytes.
    pub fn bytes(&self) -> (r: u128)
        requires
            self@.len() <= u32::MAX,
        ensures
            r == self.payload(self@.len() as int),
    {
        let ghost f = |i: int| 12 * (self@[i].runs.len() as int) + 16;
        let mut sum: u128 = 0;
        let mut i: usize = 0;
        while i < self.entries.len()
            invariant
                i <= self.entries@.len(),
                self@.len() <= u32::MAX,
                f == (|i: int| 12 * (self@[i].runs.len() as int) + 16),
                sum == counting::sum_below(f, i as int),
                sum <= 0x10_0000_0000_0000_0000 * i,
            decreases self.entries@.len() - i,
        {
            let n: usize = self.entries[i].mask.runs.len();
            let b: u128 = self.entries[i].mask.bytes();
            assert(self@[i as int].runs.len() == n);
            sum = sum + b;
            i = i + 1;
        }
        sum
    }

    /// The position of the entry under `key`.
    fn find(&self, key: &str) -> (r: Option<usize>)
        ensures
            match r {
                Some(i) => is_at(self@, key@, i as int),
                None => !self.holds(key@),
            },
    {
        let k = text::chars_of(key);
        let mut i: usize = 0;
        while i < self.entries.len()
            invariant
                i <= self.entries@.len(),
                k@ == key@,
                forall|j: int| 0 <= j < i ==> !#[trigger] is_at(self@, key@, j),
            decreases self.entries@.len() - i,
        {
            if text::same(&text::chars_of(self.entries[i].key.as_str()), &k) {
                assert(is_at(self@, key@, i as int));
                return Some(i);
            }
            i = i + 1;
        }
        None
    }

    /// Looks a key up, and marks its entry as the one used last.
    pub fn get(&mut self, key: &str) -> (r: Option<CachedMask>)
        requires
            old(self).wf(),
        ensures
            final(self).wf(),
            final(self).cap == old(self).cap,
            match r {
                Some(v) => exists|i: int| #[trigger]
                    is_at(old(self)@, key@, i) && entry_text(CacheEntry { key: old(self).entries@[i].key, mask: v })
                        == old(self)@[i] && final(self)@ == old(self)@.remove(i).push(old(self)@[i]),
                None => !old(self).holds(key@) && final(self)@ == old(self)@,
            },
            r is Some ==> r->0.wf(),
            final(self).hits == (if r is Some {
                counted(old(self).hits)
            } else {
                old(self).hits
            }),
            final(self).misses == (if r is None {
                counted(old(self).misses)
            } else {
                old(self).misses
            }),
    {
        match self.find(key) {
            None => {
                if self.misses < u64::MAX {
                    self.misses = self.misses + 1;
                }
                assert(self@ =~= old(self)@);
                None
            },
            Some(i) => {
                let ghost s0 = self@;
                let ghost e0 = self.entries@;
                assert(e0[i as int].mask.wf());
                if self.hits < u64::MAX {
                    self.hits = self.hits + 1;
                }
                let e = self.entries.remove(i);
                let copy = copy_mask(&e.mask);
                self.entries.push(e);
                proof {
                    let moved = s0.remove(i as int).push(s0[i as int]);
                    assert(self@ =~= moved);
                    moved_is_valid(s0, i as int);
                    assert forall|k: int| 0 <= k < self.entries@.len() implies (#[trigger] self.entries@[k]).mask.wf() by {
                        if k < i {
                            assert(self.entries@[k] == e0[k]);
                        } else if k < e0.len() - 1 {
                            assert(self.entries@[k] == e0[k + 1]);
                        }
                    }
                    assert(is_at(s0, key@, i as int));
                }
                Some(copy)
            },
        }
    }

    /// Puts an entry in, or replaces it, as the one used last; the ones used
    /// longest ago leave until the capacity is kept.
    pub fn put(&mut self, key: &str, m: &ForegroundMask, background: &BackgroundModel)
        requires
            old(self).wf(),
            m.wf(),
            background::model_ok(*background),
        ensures
            final(self).wf(),
            final(self).cap == old(self).cap,
            final(self).hits == old(self).hits,
            final(self).misses == old(self).misses,
            exists|e: EntryText| #[trigger]
                stands_for(e, key@, *m, *background) && final(self)@ == newest(
                    without(old(self)@, key@).push(e),
                    old(self).cap as int,
                ),
    {
        let ghost s0 = self@;
        let ghost e0 = self.entries@;
        match self.find(key) {
            Some(i) => {
                let _gone = self.entries.remove(i);
                proof {
                    without_one(s0, key@, i as int);
                    assert(self@ =~= s0.remove(i as int));
                    assert forall|k: int| 0 <= k < self.entries@.len() implies (#[trigger] self.entries@[k]).mask.wf() by {
                        if k < i {
                            assert(self.entries@[k] == e0[k]);
                        } else {
                            assert(self.entries@[k] == e0[k + 1]);
                        }
                    }
                }
            },
            None => {
                proof {
                    assert forall|i: int| 0 <= i < s0.len() implies (#[trigger] s0[i]).key != key@ by {
                        assert(!is_at(s0, key@, i));
                    }
                    without_none(s0, key@);
                }
            },
        }
        assert(self@ =~= without(s0, key@));
        let entry = cached_from_parts(m, background);
        let ghost e = EntryText {
            key: key@,
            width: m.width,
            height: m.height,
            runs: entry.runs@,
            background: *background,
        };
        let ghost before = self@;
        proof {
            without_facts(s0, key@);
        }
        self.entries.push(CacheEntry { key: text::string_of(&text::chars_of(key)), mask: entry });
        let ghost full = self@;
        proof {
            assert(full =~= before.push(e));
            assert forall|i: int, j: int| 0 <= i < j < full.len() implies (#[trigger] full[i]).key
                != (#[trigger] full[j]).key by {
                if j == before.len() {
                    assert(full[i] == before[i]);
                } else {
                    assert(full[i] == before[i] && full[j] == before[j]);
                }
            }
        }
        let n: usize = self.entries.len();
        let ghost e1 = self.entries@;
        if n > self.cap {
            let drop: usize = n - self.cap;
            let mut i: usize = 0;
            while i < drop
                invariant
                    i <= drop,
                    drop == n - self.cap,
                    n == e1.len(),
                    self.cap == old(self).cap,
                    self.hits == old(self).hits,
                    self.misses == old(self).misses,
                    self.entries@ == e1.subrange(i as int, n as int),
                decreases drop - i,
            {
                let _oldest = self.entries.remove(0);
                assert(self.entries@ =~= e1.subrange(i + 1, n as int));
                i = i + 1;
            }
            assert(self@ =~= newest(full, self.cap as int));
        }
        proof {
            assert(self@ =~= newest(full, self.cap as int));
            assert forall|i: int, j: int| 0 <= i < j < self@.len() implies (#[trigger] self@[i]).key
                != (#[trigger] self@[j]).key by {
                let off = if full.len() > self.cap {
                    full.len() - self.cap
                } else {
                    0
                };
                assert(self@[i] == full[i + off] && self@[j] == full[j + off]);
            }
            assert forall|k: int| 0 <= k < self.entries@.len() implies (#[trigger] self.entries@[k]).mask.wf() by {
                let off = if full.len() > self.cap {
                    full.len() - self.cap
                } else {
                    0
                };
                assert(self.entries@[k] == e1[k + off]);
            }
            assert(stands_for(e, key@, *m, *background));
        }
    }

    /// Drops every entry; the counts go on.
    pub fn clear(&mut self)
        ensures
            final(self)@.len() == 0,
            final(self).wf(),
            final(self).cap == old(self).cap,
            final(self).hits == old(self).hits,
            final(self).misses == old(self).misses,
    {
        self.entries = Vec::new();
    }
}

/// `e` is the entry of a mask and its background.
pub open spec fn stands_for(e: EntryText, key: Seq<char>, m: ForegroundMask, b: BackgroundModel) -> bool {
    &&& e.key == key
    &&& e.width == m.width
    &&& e.height == m.height
    &&& mask::is_runs_of(m, e.runs)
    &&& e.background == b
}

fn copy_mask(c: &CachedMask) -> (r: CachedMask)
    ensures
        r.width == c.width,
        r.height == c.height,
        r.runs@ == c.runs@,
        r.background == c.background,
{
    let mut runs: Vec<RleRun> = Vec::new();
    let mut i: usize = 0;
    while i < c.runs.len()
        invariant
            i <= c.runs@.len(),
            runs@.len() == i,
            forall|k: int| 0 <= k < i ==> #[trigger] runs@[k] == c.runs@[k],
        decreases c.runs@.len() - i,
    {
        runs.push(c.runs[i]);
        i = i + 1;
    }
    assert(runs@ =~= c.runs@);
    CachedMask { width: c.width, height: c.height, runs, background: c.background }
}

/// No two entries have one key.
pub open spec fn keys_differ(s: Seq<EntryText>) -> bool {
    forall|i: int, j: int| 0 <= i < j < s.len() ==> (#[trigger] s[i]).key != (#[trigger] s[j]).key
}

proof fn moved_is_valid(s: Seq<EntryText>, i: int)
    requires
        keys_differ(s),
        0 <= i < s.len(),
    ensures
        keys_differ(s.remove(i).push(s[i])),
{
    let r = s.remove(i).push(s[i]);
    assert forall|a: int, b: int| 0 <= a < b < r.len() implies (#[trigger] r[a]).key != (#[trigger] r[b]).key by {
        let p = if a < i {
            a
        } else {
            a + 1
        };
        let q = if b == s.len() - 1 {
            i
        } else if b < i {
            b
        } else {
            b + 1
        };
        assert(r[a] == s[p] && r[b] == s[q]);
        if p < q {
            assert(s[p].key != s[q].key);
        } else {
            assert(s[q].key != s[p].key);
        }
    }
}

proof fn without_none(s: Seq<EntryText>, key: Seq<char>)
    requires
        forall|i: int| 0 <= i < s.len() ==> (#[trigger] s[i]).key != key,
    ensures
        without(s, key) == s,
    decreases s.len(),
{
    if s.len() > 0 {
        assert(s[s.len() - 1].key != key);
        assert forall|i: int| 0 <= i < s.drop_last().len() implies (#[trigger] s.drop_last()[i]).key != key by {
            assert(s.drop_last()[i] == s[i]);
        }
        without_none(s.drop_last(), key);
        assert(s.drop_last().push(s.last()) =~= s);
    }
}

proof fn without_one(s: Seq<EntryText>, key: Seq<char>, i: int)
    requires
        keys_differ(s),
        is_at(s, key, i),
    ensures
        without(s, key) == s.remove(i),
    decreases s.len(),
{
    let t = s.drop_last();
    if i == s.len() - 1 {
        assert forall|k: int| 0 <= k < t.len() implies (#[trigger] t[k]).key != key by {
            assert(s[k].key != s[i].key);
        }
        without_none(t, key);
        assert(s.remove(i) =~= t);
    } else {
        assert(s[i].key != s[s.len() - 1].key);
        assert(keys_differ(t)) by {
            assert forall|a: int, b: int| 0 <= a < b < t.len() implies (#[trigger] t[a]).key != (#[trigger] t[b]).key by {
                assert(s[a].key != s[b].key);
            }
        }
        without_one(t, key, i);
        assert(s.remove(i) =~= t.remove(i).push(s.last()));
    }
}

proof fn without_facts(s: Seq<EntryText>, key: Seq<char>)
    requires
        keys_differ(s),
    ensures
        keys_differ(without(s, key)),
        forall|i: int| 0 <= i < without(s, key).len() ==> (#[trigger] without(s, key)[i]).key != key,
        without(s, key).len() <= s.len(),
{
    if exists|i: int| #[trigger] is_at(s, key, i) {
        let i = choose|i: int| #[trigger] is_at(s, key, i);
        without_one(s, key, i);
        let r = s.remove(i);
        assert forall|a: int| 0 <= a < r.len() implies (#[trigger] r[a]).key != key by {
            let p = if a < i {
                a
            } else {
                a + 1
            };
            assert(r[a] == s[p]);
            if p < i {
                assert(s[p].key != s[i].key);
            } else {
                assert(s[i].key != s[p].key);
            }
        }
        assert forall|a: int, b: int| 0 <= a < b < r.len() implies (#[trigger] r[a]).key != (#[trigger] r[b]).key by {
            let p = if a < i {
                a
            } else {
                a + 1
            };
            let q = if b < i {
                b
            } else {
                b + 1
            };
            assert(r[a] == s[p] && r[b] == s[q] && p < q);
        }
    } else {
        assert forall|i: int| 0 <= i < s.len() implies (#[trigger] s[i]).key != key by {
            assert(!is_at(s, key, i));
        }
        without_none(s, key);
    }
}

/// What was put in last is found under its key, and holds the mask's runs,
/// wherever the cache has room for anything.
pub proof fn put_is_found(before: Seq<EntryText>, e: EntryText, cap: int)
    requires
        keys_differ(before),
        cap > 0,
    ensures
        ({
            let after = newest(without(before, e.key).push(e), cap);
            after.len() > 0 && after.last() == e && is_at(after, e.key, after.len() - 1)
        }),
{
}

/// The entry used longest ago is the one that leaves a full cache.
pub proof fn oldest_leaves(before: Seq<EntryText>, e: EntryText, cap: int)
    requires
        keys_differ(before),
        before.len() == cap,
        cap > 0,
        forall|i: int| 0 <= i < before.len() ==> (#[trigger] before[i]).key != e.key,
    ensures
        newest(without(before, e.key).push(e), cap) == before.subrange(1, cap).push(e),
{
    without_none(before, e.key);
    assert(newest(before.push(e), cap) =~= before.subrange(1, cap).push(e));
}

// ---- grouping from the cache --------------------------------------------------------

/// A pixel belongs to one of the first `n` groups.
spec fn taken(m: ForegroundMask, out: Seq<IconGroup>, n: int) -> spec_fn(int) -> bool {
    |k: int|
        exists|i: int| 0 <= i < n && group::member(m, group::origin_of(#[trigger] out[i]))(k)
}

/// No pixel belongs to two groups.
proof fn groups_differ(m: ForegroundMask, min_area: int, out: Seq<IconGroup>, i: int, j: int, k: int)
    requires
        group::is_grouping(m, min_area, out),
        0 <= i < j < out.len(),
    ensures
        !(group::member(m, group::origin_of(out[i]))(k) && group::member(
            m,
            group::origin_of(out[j]),
        )(k)),
{
    let a = group::origin_of(out[i]);
    let b = group::origin_of(out[j]);
    let p = group::pixel_of(m.width as int, k);
    if group::connected(m, a, p) && group::connected(m, b, p) {
        group::connected_sym(m, b, p);
        group::connected_trans(m, a, p, b);
        group::connected_sym(m, a, b);
        assert(group::is_component(m, out[i]) && group::is_component(m, out[j]));
        assert(!group::scan_before(b, a) && !group::scan_before(a, b));
        assert(a == b);
        group::component_unique(m, out[i], out[j]);
        assert(sorting::key_lt(group::group_key(out[i]), group::group_key(out[j])));
    }
}

proof fn areas_upto(m: ForegroundMask, min_area: int, out: Seq<IconGroup>, n: int)
    requires
        m.wf(),
        group::is_grouping(m, min_area, out),
        0 <= n <= out.len(),
    ensures
        merge::area_sum(out, n) == counting::count_below(taken(m, out, n), m.width * m.height),
    decreases n,
{
    let total = m.width * m.height;
    if n > 0 {
        areas_upto(m, min_area, out, n - 1);
        let f = taken(m, out, n - 1);
        let g = group::member(m, group::origin_of(out[n - 1]));
        let h = taken(m, out, n);
        assert forall|k: int| 0 <= k < total implies #[trigger] h(k) == (f(k) || g(k)) by {
            if h(k) {
                let i = choose|i: int|
                    0 <= i < n && group::member(m, group::origin_of(#[trigger] out[i]))(k);
                if i < n - 1 {
                    assert(group::member(m, group::origin_of(out[i]))(k));
                }
            }
            if f(k) {
                let i = choose|i: int|
                    0 <= i < n - 1 && group::member(m, group::origin_of(#[trigger] out[i]))(k);
                assert(group::member(m, group::origin_of(out[i]))(k));
            }
            if g(k) {
                assert(group::member(m, group::origin_of(out[n - 1]))(k));
            }
        }
        assert forall|k: int| 0 <= k < total implies !(#[trigger] f(k) && g(k)) by {
            if f(k) && g(k) {
                let i = choose|i: int|
                    0 <= i < n - 1 && group::member(m, group::origin_of(#[trigger] out[i]))(k);
                groups_differ(m, min_area, out, i, n - 1, k);
            }
        }
        counting::count_disjoint(f, g, h, total);
        assert(group::is_component(m, out[n - 1]));
    } else {
        counting::count_span(taken(m, out, 0), 0, total, false);
    }
}

/// The groups of a mask share no pixel: their areas add up to no more than the
/// sheet has, and every group lies on the sheet.
pub proof fn groups_share_no_pixel(m: ForegroundMask, min_area: int, out: Seq<IconGroup>)
    requires
        m.wf(),
        group::is_grouping(m, min_area, out),
    ensures
        merge::area_sum(out, out.len() as int) <= m.width * m.height,
        fuse::all_fit(out, m.width as int, m.height as int),
{
    let total = m.width * m.height;
    areas_upto(m, min_area, out, out.len() as int);
    counting::count_bounds(taken(m, out, out.len() as int), total);
    assert forall|i: int| 0 <= i < out.len() implies #[trigger] fuse::group_fits(
        out[i],
        m.width as int,
        m.height as int,
    ) by {
        let g = out[i];
        assert(group::is_component(m, g));
        let p = group::origin_of(g);
        group::connected_self(m, p);
        let q = choose|q: (int, int)| #[trigger] group::connected(m, p, q) && q.0 == g.bbox.right() - 1;
        group::connected_ink(m, p, q);
        let t = choose|t: (int, int)| #[trigger] group::connected(m, p, t) && t.1 == g.bbox.bottom() - 1;
        group::connected_ink(m, p, t);
        assert(g.bbox.covers(p.0, p.1));
    }
}

/// The size of a mask with a blank luma plane, for grouping without its sheet.
#[derive(Clone, Debug)]
pub struct MaskView {
    w: u32,
    h: u32,
    row: Vec<u32>,
}

impl MaskView {
    /// The width.
    pub closed spec fn w(&self) -> u32 {
        self.w
    }

    /// The height.
    pub closed spec fn h(&self) -> u32 {
        self.h
    }

    /// The row is as wide as the view, and blank.
    pub closed spec fn wf(&self) -> bool {
        self.row@ == Seq::new(self.w as nat, |x: int| 0u32)
    }

    /// A view of a size, with a luma of zero everywhere.
    pub fn new(w: u32, h: u32) -> (r: MaskView)
        ensures
            r.wf(),
            r.w() == w,
            r.h() == h,
    {
        let mut row: Vec<u32> = Vec::new();
        let mut x: u32 = 0;
        while x < w
            invariant
                x <= w,
                row@ == Seq::new(x as nat, |i: int| 0u32),
            decreases w - x,
        {
            row.push(0);
            x = x + 1;
            assert(row@ =~= Seq::new(x as nat, |i: int| 0u32));
        }
        MaskView { w, h, row }
    }

    /// The width.
    pub fn width(&self) -> (r: u32)
        ensures
            r == self.w(),
    {
        self.w
    }

    /// The height.
    pub fn height(&self) -> (r: u32)
        ensures
            r == self.h(),
    {
        self.h
    }

    /// One row of the luma plane; every row is the same.
    pub fn luma_row(&self, _y: u32) -> (r: &Vec<u32>)
        requires
            self.wf(),
        ensures
            r@ == Seq::new(self.w() as nat, |x: int| 0u32),
    {
        &self.row
    }
}

/// What grouping a cached mask gives.
#[derive(Debug)]
pub struct RegroupOutcome {
    /// Final groups.
    pub groups: Vec<IconGroup>,
    /// What the refinement did.
    pub refine: RefineStats,
}

/// The sheet and a frame of one pixel around it can be indexed.
pub open spec fn has_room(width: u32, height: u32) -> bool {
    (width + 2) * (height + 2) <= usize::MAX
}

/// `out` and `stats` are the groups of the mask that the runs make, refined.
pub open spec fn is_regrouping(
    e: EntryText,
    m: ForegroundMask,
    raw: Seq<IconGroup>,
    p: RefineParams,
    out: Seq<IconGroup>,
    stats: RefineStats,
) -> bool {
    &&& is_mask_of(e.width, e.height, e.runs, m)
    &&& group::is_grouping(m, group::DEFAULT_MIN_AREA as int, raw)
    &&& refine::is_refined(raw, m, Some(e.background), p, out, stats)
    &&& refine::refine_output_ok(out, stats, m)
}

proof fn areas_count(m: ForegroundMask, min_area: int, out: Seq<IconGroup>, n: int)
    requires
        group::is_grouping(m, min_area, out),
        0 <= n <= out.len(),
        min_area == 16,
    ensures
        merge::area_sum(out, n) >= 16 * n,
    decreases n,
{
    if n > 0 {
        areas_count(m, min_area, out, n - 1);
        assert(out[n - 1].area >= min_area);
    }
}

/// Groups and refines a cached mask; `None` where the machine cannot index the
/// sheet and a frame around it, as the refinement does.
pub fn regroup(entry: &CachedMask, params: &RefineParams) -> (r: Option<(Vec<IconGroup>, RefineStats)>)
    requires
        entry.wf(),
        params.enabled ==> refine::refine_params_ok(*params),
    ensures
        match r {
            Some(o) => (params.enabled ==> has_room(entry.width, entry.height)) && exists|
                m: ForegroundMask,
                raw: Seq<IconGroup>,
            | #[trigger]
                is_regrouping(mask_text(*entry), m, raw, *params, o.0@, o.1),
            None => params.enabled && !has_room(entry.width, entry.height),
        },
{
    let m = entry.mask();
    let raw = RleCclGrouper::default().group_all(&m);
    let ghost rs = raw@;
    proof {
        groups_share_no_pixel(m, 16, rs);
        areas_count(m, 16, rs, rs.len() as int);
        let w = m.width as int;
        let h = m.height as int;
        assert((w + 2) * (h + 2) == w * h + 2 * w + 2 * h + 4) by (nonlinear_arith);
    }
    let frame: u64 = m.width as u64 * m.height as u64 + 2 * m.width as u64 + 2 * m.height as u64 + 4;
    if params.enabled && frame > usize::MAX as u64 {
        return None;
    }
    let o = refine::refine_groups_with_context(raw, &m, Some(&entry.background), params);
    let r = Some(o);
    assert(is_regrouping(mask_text(*entry), m, rs, *params, (r->0).0@, (r->0).1));
    r
}

/// Groups and refines the mask under a key; `None` where there is none, or
/// where the machine cannot index the sheet and its frame.
pub fn regroup_cached(key: &str, cache: &mut MaskCache, params: &RefineParams) -> (r: Option<RegroupOutcome>)
    requires
        old(cache).wf(),
        params.enabled ==> refine::refine_params_ok(*params),
    ensures
        final(cache).wf(),
        final(cache).cap == old(cache).cap,
        !old(cache).holds(key@) ==> r is None && final(cache)@ == old(cache)@,
        old(cache).holds(key@) ==> exists|i: int| #[trigger]
            is_at(old(cache)@, key@, i) && final(cache)@ == old(cache)@.remove(i).push(old(cache)@[i])
                && is_outcome_of(old(cache)@[i], *params, r),
{
    let ghost before = cache@;
    match cache.get(key) {
        None => None,
        Some(entry) => {
            let ghost i = choose|i: int| #[trigger]
                is_at(before, key@, i) && same_contents(mask_text(entry), before[i]) && cache@
                    == before.remove(i).push(before[i]);
            assert(is_at(before, key@, i) && same_contents(mask_text(entry), before[i]));
            match regroup(&entry, params) {
                Some(o) => {
                    let r = Some(RegroupOutcome { groups: o.0, refine: o.1 });
                    proof {
                        let (m, raw) = choose|m: ForegroundMask, raw: Seq<IconGroup>| #[trigger]
                            is_regrouping(mask_text(entry), m, raw, *params, o.0@, o.1);
                        assert(is_regrouping(
                            before[i],
                            m,
                            raw,
                            *params,
                            r->0.groups@,
                            r->0.refine,
                        ));
                    }
                    r
                },
                None => None,
            }
        },
    }
}

/// Two entries hold the same result.
pub open spec fn same_contents(a: EntryText, b: EntryText) -> bool {
    a.width == b.width && a.height == b.height && a.runs == b.runs && a.background == b.background
}

/// `r` is what grouping an entry gives.
pub open spec fn is_outcome_of(e: EntryText, p: RefineParams, r: Option<RegroupOutcome>) -> bool {
    match r {
        Some(o) => exists|m: ForegroundMask, raw: Seq<IconGroup>| #[trigger]
            is_regrouping(e, m, raw, p, o.groups@, o.refine),
        None => p.enabled && !has_room(e.width, e.height),
    }
}

/// The contents of a cached mask, under no key.
pub open spec fn mask_text(c: CachedMask) -> EntryText {
    EntryText {
        key: Seq::empty(),
        width: c.width,
        height: c.height,
        runs: c.runs@,
        background: c.background,
    }
}

} // verus!
